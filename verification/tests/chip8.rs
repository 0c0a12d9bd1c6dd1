use rustbox::chip8::cpu::{Cpu, Step};
use rustbox::chip8::screen::{map_key, SCALE};

fn machine(program: &[u8]) -> Cpu {
    let mut cpu = Cpu::new();
    cpu.load_rom(program);
    cpu
}

fn run(cpu: &mut Cpu, steps: usize) -> Vec<Step> {
    let mut outcomes = Vec::new();
    for _ in 0..steps {
        assert!(cpu.can_tick());
        outcomes.push(cpu.tick());
    }
    outcomes
}

#[test]
fn new_machine_has_font_and_start_address() {
    let cpu = Cpu::new();
    assert_eq!(cpu.pc, 0x200);
    assert_eq!(cpu.sp, 0);
    assert_eq!(cpu.i, 0);
    assert_eq!(&cpu.ram[0..5], &[0xF0, 0x90, 0x90, 0x90, 0xF0]);
    assert_eq!(&cpu.ram[75..80], &[0xF0, 0x80, 0xF0, 0x80, 0x80]);
    assert!(cpu.ram[80..].iter().all(|&b| b == 0));
    assert!(cpu.display.iter().all(|&p| p == 0));
    assert!(cpu.keypad.iter().all(|&k| !k));
}

#[test]
fn load_rom_copies_program_at_0x200() {
    let cpu = machine(&[0x12, 0x34, 0xAB]);
    assert_eq!(cpu.ram[0x200], 0x12);
    assert_eq!(cpu.ram[0x201], 0x34);
    assert_eq!(cpu.ram[0x202], 0xAB);
    assert_eq!(cpu.ram[0x203], 0);
    assert_eq!(cpu.ram[0], 0xF0);
}

#[test]
fn fetch_reads_big_endian_and_advances() {
    let mut cpu = machine(&[0xA2, 0xF0]);
    assert_eq!(cpu.fetch(), 0xA2F0);
    assert_eq!(cpu.pc, 0x202);
}

#[test]
fn timers_count_down_to_zero() {
    let mut cpu = Cpu::new();
    cpu.delay_timer = 2;
    cpu.sound_timer = 1;
    cpu.update_timers();
    assert_eq!((cpu.delay_timer, cpu.sound_timer), (1, 0));
    cpu.update_timers();
    assert_eq!((cpu.delay_timer, cpu.sound_timer), (0, 0));
    cpu.update_timers();
    assert_eq!((cpu.delay_timer, cpu.sound_timer), (0, 0));
}

#[test]
fn set_and_add_registers() {
    // V1 = 0xF0; V1 += 0x20 (wraps to 0x10); V2 = V1
    let mut cpu = machine(&[0x61, 0xF0, 0x71, 0x20, 0x82, 0x10]);
    run(&mut cpu, 3);
    assert_eq!(cpu.v[1], 0x10);
    assert_eq!(cpu.v[2], 0x10);
    assert_eq!(cpu.v[0xF], 0);
}

#[test]
fn add_with_carry_and_subtract_with_borrow() {
    // V0 = 200, V1 = 100, V0 += V1 (carry), V2 = 5, V3 = 7, V2 -= V3 (borrow)
    let mut cpu = machine(&[
        0x60, 200, 0x61, 100, 0x80, 0x14, 0x62, 5, 0x63, 7, 0x82, 0x35,
    ]);
    run(&mut cpu, 3);
    assert_eq!(cpu.v[0], 44);
    assert_eq!(cpu.v[0xF], 1);
    run(&mut cpu, 3);
    assert_eq!(cpu.v[2], 254);
    assert_eq!(cpu.v[0xF], 0);
}

#[test]
fn subn_and_logic_ops() {
    // V0 = 3, V1 = 10, V0 = V1 - V0, V2 = 0b1100, V3 = 0b1010, V2 |= V3, V4 = 0b1100, V4 &= V3, V5 = 0b1100, V5 ^= V3
    let mut cpu = machine(&[
        0x60, 3, 0x61, 10, 0x80, 0x17, 0x62, 0x0C, 0x63, 0x0A, 0x82, 0x31, 0x64, 0x0C, 0x84,
        0x32, 0x65, 0x0C, 0x85, 0x33,
    ]);
    run(&mut cpu, 3);
    assert_eq!(cpu.v[0], 7);
    assert_eq!(cpu.v[0xF], 1);
    run(&mut cpu, 7);
    assert_eq!(cpu.v[2], 0x0E);
    assert_eq!(cpu.v[4], 0x08);
    assert_eq!(cpu.v[5], 0x06);
}

#[test]
fn shifts_keep_the_lost_bit_in_vf() {
    // V0 = 0x81; V0 >>= 1; V1 = 0x81; V1 <<= 1
    let mut cpu = machine(&[0x60, 0x81, 0x80, 0x06, 0x61, 0x81, 0x81, 0x0E]);
    run(&mut cpu, 2);
    assert_eq!(cpu.v[0], 0x40);
    assert_eq!(cpu.v[0xF], 1);
    run(&mut cpu, 2);
    assert_eq!(cpu.v[1], 0x02);
    assert_eq!(cpu.v[0xF], 1);
}

#[test]
fn jump_call_and_return() {
    // 0x200: call 0x206; 0x202: V0 = 1; 0x204: jump 0x204; 0x206: V1 = 2; 0x208: return
    let mut cpu = machine(&[0x22, 0x06, 0x60, 0x01, 0x12, 0x04, 0x61, 0x02, 0x00, 0xEE]);
    run(&mut cpu, 1);
    assert_eq!(cpu.pc, 0x206);
    assert_eq!(cpu.sp, 1);
    assert_eq!(cpu.stack[0], 0x202);
    run(&mut cpu, 2);
    assert_eq!(cpu.pc, 0x202);
    assert_eq!(cpu.sp, 0);
    assert_eq!(cpu.v[1], 2);
    run(&mut cpu, 2);
    assert_eq!(cpu.v[0], 1);
    assert_eq!(cpu.pc, 0x204);
}

#[test]
fn return_with_empty_stack_cannot_tick() {
    let cpu = machine(&[0x00, 0xEE]);
    assert!(!cpu.can_tick());
}

#[test]
fn skips_on_equal_and_not_equal() {
    // V0 = 5; skip if V0 == 5; (skipped) V1 = 1; skip if V0 != 5; V2 = 2
    let mut cpu = machine(&[0x60, 0x05, 0x30, 0x05, 0x61, 0x01, 0x40, 0x05, 0x62, 0x02]);
    run(&mut cpu, 2);
    assert_eq!(cpu.pc, 0x206);
    run(&mut cpu, 2);
    assert_eq!(cpu.v[1], 0);
    assert_eq!(cpu.v[2], 2);
}

#[test]
fn key_skips() {
    // V0 = 3; skip if key V0 pressed; V1 = 1; skip if key V0 not pressed; V2 = 2
    let mut cpu = machine(&[0x60, 0x03, 0xE0, 0x9E, 0x61, 0x01, 0xE0, 0xA1, 0x62, 0x02]);
    cpu.keypad[3] = true;
    run(&mut cpu, 2);
    assert_eq!(cpu.pc, 0x206);
    run(&mut cpu, 2);
    assert_eq!(cpu.v[2], 2);
    assert_eq!(cpu.v[1], 0);
}

#[test]
fn draw_xors_sprite_and_reports_collision() {
    // I = font glyph 0 (address 0); V0 = 0, V1 = 0; draw 5 rows; draw again
    let mut cpu = machine(&[0xA0, 0x00, 0x60, 0x00, 0x61, 0x00, 0xD0, 0x15, 0xD0, 0x15]);
    run(&mut cpu, 4);
    assert_eq!(cpu.v[0xF], 0);
    // glyph 0 row 0 is 0xF0: four lit pixels
    assert_eq!(&cpu.display[0..8], &[1, 1, 1, 1, 0, 0, 0, 0]);
    // row 1 is 0x90
    assert_eq!(&cpu.display[64..72], &[1, 0, 0, 1, 0, 0, 0, 0]);
    let lit: usize = cpu.display.iter().filter(|&&p| p == 1).count();
    assert_eq!(lit, 14);
    run(&mut cpu, 1);
    assert_eq!(cpu.v[0xF], 1);
    assert!(cpu.display.iter().all(|&p| p == 0));
}

#[test]
fn draw_wraps_around_the_screen_edges() {
    // I = glyph 0; V0 = 62, V1 = 31; draw 2 rows
    let mut cpu = machine(&[0xA0, 0x00, 0x60, 62, 0x61, 31, 0xD0, 0x12]);
    run(&mut cpu, 4);
    // row 0 of the sprite lands on screen row 31, columns 62, 63, 0, 1
    assert_eq!(cpu.display[31 * 64 + 62], 1);
    assert_eq!(cpu.display[31 * 64 + 63], 1);
    assert_eq!(cpu.display[31 * 64], 1);
    assert_eq!(cpu.display[31 * 64 + 1], 1);
    // row 1 (0x90) wraps to screen row 0: columns 62 and 1
    assert_eq!(cpu.display[62], 1);
    assert_eq!(cpu.display[63], 0);
    assert_eq!(cpu.display[1], 1);
}

#[test]
fn clear_screen() {
    let mut cpu = machine(&[0xA0, 0x00, 0xD0, 0x05, 0x00, 0xE0]);
    run(&mut cpu, 2);
    assert!(cpu.display.iter().any(|&p| p == 1));
    run(&mut cpu, 1);
    assert!(cpu.display.iter().all(|&p| p == 0));
}

#[test]
fn bcd_of_register() {
    // V3 = 234; I = 0x300; store BCD of V3
    let mut cpu = machine(&[0x63, 234, 0xA3, 0x00, 0xF3, 0x33]);
    run(&mut cpu, 3);
    assert_eq!(&cpu.ram[0x300..0x303], &[2, 3, 4]);
}

#[test]
fn store_then_load_registers() {
    // V0 = 7, V1 = 8, V2 = 9; I = 0x300; store V0..=V2; V0 = 0, V1 = 0, V2 = 0; load V0..=V2
    let mut cpu = machine(&[
        0x60, 7, 0x61, 8, 0x62, 9, 0xA3, 0x00, 0xF2, 0x55, 0x60, 0, 0x61, 0, 0x62, 0, 0xF2, 0x65,
    ]);
    run(&mut cpu, 5);
    assert_eq!(&cpu.ram[0x300..0x304], &[7, 8, 9, 0]);
    run(&mut cpu, 3);
    assert_eq!(&cpu.v[0..3], &[0, 0, 0]);
    run(&mut cpu, 1);
    assert_eq!(&cpu.v[0..3], &[7, 8, 9]);
    assert_eq!(cpu.i, 0x300);
}

#[test]
fn font_address_and_timers() {
    // V0 = 0xA; I = glyph of V0; V1 = 30; delay = V1; sound = V1; V2 = delay
    let mut cpu = machine(&[0x60, 0x0A, 0xF0, 0x29, 0x61, 30, 0xF1, 0x15, 0xF1, 0x18, 0xF2, 0x07]);
    run(&mut cpu, 2);
    assert_eq!(cpu.i, 50);
    run(&mut cpu, 4);
    assert_eq!(cpu.delay_timer, 30);
    assert_eq!(cpu.sound_timer, 30);
    assert_eq!(cpu.v[2], 30);
}

#[test]
fn random_register_is_masked() {
    // V4 = random & 0x00; V5 = random & 0x0F
    let mut cpu = machine(&[0xC4, 0x00, 0xC5, 0x0F]);
    cpu.v[4] = 0xFF;
    assert_eq!(run(&mut cpu, 2), vec![Step::Executed, Step::Executed]);
    assert_eq!(cpu.v[4], 0);
    assert!(cpu.v[5] <= 0x0F);
}

#[test]
fn random_with_given_byte() {
    let mut cpu = Cpu::new();
    cpu.op_cxnn_with(3, 0xF0, 0xAB);
    assert_eq!(cpu.v[3], 0xA0);
}

#[test]
fn unknown_opcode_only_moves_pc() {
    let mut cpu = machine(&[0x51, 0x20]);
    let before = cpu.v;
    assert_eq!(run(&mut cpu, 1), vec![Step::Unknown(0x5120)]);
    assert_eq!(cpu.pc, 0x202);
    assert_eq!(cpu.v, before);
}

#[test]
fn keyboard_layout() {
    assert_eq!(map_key('1' as i32), Some(0x1));
    assert_eq!(map_key('4' as i32), Some(0xC));
    assert_eq!(map_key('q' as i32), Some(0x4));
    assert_eq!(map_key('r' as i32), Some(0xD));
    assert_eq!(map_key('a' as i32), Some(0x7));
    assert_eq!(map_key('f' as i32), Some(0xE));
    assert_eq!(map_key('z' as i32), Some(0xA));
    assert_eq!(map_key('x' as i32), Some(0x0));
    assert_eq!(map_key('v' as i32), Some(0xF));
    assert_eq!(map_key('p' as i32), None);
    assert_eq!(map_key(0), None);
}

#[test]
fn screen_rects_cover_lit_pixels() {
    let mut cpu = Cpu::new();
    assert!(cpu.screen_rects().is_empty());
    cpu.display[0] = 1;
    cpu.display[64 + 3] = 1;
    let s = SCALE as i32;
    assert_eq!(cpu.screen_rects(), vec![(0, 0, SCALE, SCALE), (3 * s, s, SCALE, SCALE)]);
}

#[test]
fn timers_after_many_updates() {
    let mut cpu = Cpu::new();
    cpu.delay_timer = 200;
    cpu.sound_timer = 7;
    for k in 1..=300u32 {
        let (d, s) = (cpu.delay_timer, cpu.sound_timer);
        cpu.update_timers();
        assert!(cpu.delay_timer <= d && cpu.sound_timer <= s);
        assert_eq!(cpu.delay_timer as u32, 200u32.saturating_sub(k));
        assert_eq!(cpu.sound_timer as u32, 7u32.saturating_sub(k));
    }
    assert_eq!((cpu.delay_timer, cpu.sound_timer), (0, 0));
}

#[test]
fn a_frame_runs_ten_cycles_then_the_timers() {
    // ten instructions: V0 += 1 nine times around one unknown opcode
    let mut program = Vec::new();
    for k in 0..10 {
        if k == 4 {
            program.extend_from_slice(&[0x51, 0x23]);
        } else {
            program.extend_from_slice(&[0x70, 0x01]);
        }
    }
    let mut cpu = machine(&program);
    cpu.delay_timer = 3;
    let (unknown, completed) = cpu.run_frame();
    assert!(completed);
    assert_eq!(unknown, vec![0x5123]);
    assert_eq!(cpu.v[0], 9);
    assert_eq!(cpu.pc, 0x200 + 20);
    assert_eq!(cpu.delay_timer, 2);
}

#[test]
fn a_frame_stops_where_a_cycle_would_leave_the_machine() {
    // V0 = 1, then a return with an empty stack
    let mut cpu = machine(&[0x60, 0x01, 0x00, 0xEE]);
    cpu.delay_timer = 3;
    let (unknown, completed) = cpu.run_frame();
    assert!(!completed);
    assert!(unknown.is_empty());
    assert_eq!(cpu.v[0], 1);
    assert_eq!(cpu.pc, 0x202);
    assert_eq!(cpu.delay_timer, 3);
    assert!(!cpu.can_tick());
}

#[test]
fn instruction_helpers_undo_each_other() {
    let mut cpu = Cpu::new();
    cpu.pc = 0x234;
    let before_sp = cpu.sp;
    cpu.op_2nnn(0x400);
    assert_eq!((cpu.pc, cpu.sp, cpu.stack[0]), (0x400, 1, 0x234));
    cpu.op_00ee();
    assert_eq!((cpu.pc, cpu.sp), (0x234, before_sp));

    cpu.i = 0x300;
    cpu.v[0] = 4;
    cpu.v[1] = 5;
    cpu.v[2] = 6;
    cpu.op_fx55(1);
    assert_eq!(&cpu.ram[0x300..0x303], &[4, 5, 0]);
    cpu.v[0] = 99;
    cpu.v[1] = 98;
    cpu.v[2] = 97;
    cpu.op_fx65(1);
    assert_eq!(&cpu.v[0..3], &[4, 5, 97]);
    assert_eq!(cpu.i, 0x300);
}

#[test]
fn sixteen_row_sprite_drawn_twice_vanishes() {
    let mut cpu = Cpu::new();
    cpu.i = 0;
    cpu.v[0] = 60;
    cpu.v[1] = 20;
    cpu.op_dxyn(0, 1, 16);
    assert_eq!(cpu.v[0xF], 0);
    assert!(cpu.display.iter().any(|&p| p == 1));
    cpu.op_dxyn(0, 1, 16);
    assert_eq!(cpu.v[0xF], 1);
    assert!(cpu.display.iter().all(|&p| p == 0));
}
