use vstd::prelude::*;

verus! {

/// Bytes of addressable memory.
pub const RAM_SIZE: usize = 4096;
/// Width of the monochrome screen in pixels.
pub const SCREEN_WIDTH: usize = 64;
/// Height of the monochrome screen in pixels.
pub const SCREEN_HEIGHT: usize = 32;
/// Number of pixels, `SCREEN_WIDTH * SCREEN_HEIGHT`.
pub const DISPLAY_SIZE: usize = 2048;
/// Bytes taken by the built-in hexadecimal font.
pub const FONTSET_SIZE: usize = 80;
/// Address at which programs are loaded and execution starts.
pub const PROGRAM_START: u16 = 0x200;

/// The mathematical state of the machine: every array of `Cpu` as a sequence.
#[verifier::ext_equal]
pub struct CpuState {
    pub ram: Seq<u8>,
    pub v: Seq<u8>,
    pub i: u16,
    pub pc: u16,
    pub stack: Seq<u16>,
    pub sp: u16,
    pub display: Seq<u8>,
    pub keypad: Seq<bool>,
    pub delay_timer: u8,
    pub sound_timer: u8,
}

/// The sixteen 5-byte glyphs `0`..`F` of the built-in font.
pub open spec fn font() -> Seq<u8> {
    seq![
        0xF0u8, 0x90, 0x90, 0x90, 0xF0,
        0x20, 0x60, 0x20, 0x20, 0x70,
        0xF0, 0x10, 0xF0, 0x80, 0xF0,
        0xF0, 0x10, 0xF0, 0x10, 0xF0,
        0x90, 0x90, 0xF0, 0x10, 0x10,
        0xF0, 0x80, 0xF0, 0x10, 0xF0,
        0xF0, 0x80, 0xF0, 0x90, 0xF0,
        0xF0, 0x10, 0x20, 0x40, 0x40,
        0xF0, 0x90, 0xF0, 0x90, 0xF0,
        0xF0, 0x90, 0xF0, 0x10, 0xF0,
        0xF0, 0x90, 0xF0, 0x90, 0x90,
        0xE0, 0x90, 0xE0, 0x90, 0xE0,
        0xF0, 0x80, 0x80, 0x80, 0xF0,
        0xE0, 0x90, 0x90, 0x90, 0xE0,
        0xF0, 0x80, 0xF0, 0x80, 0xF0,
        0xF0, 0x80, 0xF0, 0x80, 0x80,
    ]
}

/// The state of a freshly created machine: the font at the bottom of memory,
/// everything else zero, and the program counter at `PROGRAM_START`.
pub open spec fn initial_state() -> CpuState {
    CpuState {
        ram: Seq::new(RAM_SIZE as nat, |k: int| if k < FONTSET_SIZE { font()[k] } else { 0u8 }),
        v: Seq::new(16, |k: int| 0u8),
        i: 0,
        pc: PROGRAM_START,
        stack: Seq::new(16, |k: int| 0u16),
        sp: 0,
        display: Seq::new(DISPLAY_SIZE as nat, |k: int| 0u8),
        keypad: Seq::new(16, |k: int| false),
        delay_timer: 0,
        sound_timer: 0,
    }
}

/// A state whose sequences have the lengths of the machine's arrays.
pub open spec fn well_sized(s: CpuState) -> bool {
    &&& s.ram.len() == RAM_SIZE
    &&& s.v.len() == 16
    &&& s.stack.len() == 16
    &&& s.display.len() == DISPLAY_SIZE
    &&& s.keypad.len() == 16
}

// ---------------------------------------------------------------------------
// Fetch and decode
// ---------------------------------------------------------------------------

/// Both bytes of the instruction at `pc` lie in memory.
pub open spec fn fetch_ok(s: CpuState) -> bool {
    s.pc + 1 < RAM_SIZE
}

/// The big-endian 16-bit instruction stored at `pc`.
pub open spec fn opcode_at(s: CpuState) -> u16 {
    (s.ram[s.pc as int] * 256 + s.ram[s.pc + 1]) as u16
}

/// The state after the instruction pointer moved past the fetched instruction.
pub open spec fn advance(s: CpuState) -> CpuState {
    CpuState { pc: (s.pc + 2) as u16, ..s }
}

/// Highest nibble: the instruction group.
pub open spec fn group(op: u16) -> u16 {
    op / 4096
}

/// Second nibble: the `X` register operand.
pub open spec fn reg_x(op: u16) -> u16 {
    (op / 256) % 16
}

/// Third nibble: the `Y` register operand.
pub open spec fn reg_y(op: u16) -> u16 {
    (op / 16) % 16
}

/// Lowest nibble.
pub open spec fn low_nibble(op: u16) -> u16 {
    op % 16
}

/// The 12-bit address operand `NNN`.
pub open spec fn addr_nnn(op: u16) -> u16 {
    op % 4096
}

/// The 8-bit constant operand `NN`.
pub open spec fn byte_nn(op: u16) -> u8 {
    (op % 256) as u8
}

/// The instructions the interpreter implements; any other opcode is reported
/// as unknown and changes nothing but the program counter.
pub open spec fn is_known(op: u16) -> bool {
    let g = group(op);
    let y = reg_y(op);
    let n = low_nibble(op);
    ||| op == 0x00E0
    ||| op == 0x00EE
    ||| g == 1 || g == 2 || g == 3 || g == 4 || g == 6 || g == 7
    ||| g == 8 && (n <= 7 || n == 0xE)
    ||| g == 0xA || g == 0xC || g == 0xD
    ||| g == 0xE && ((y == 9 && n == 0xE) || (y == 0xA && n == 1))
    ||| g == 0xF && ((y == 0 && n == 7) || (y == 1 && n == 5) || (y == 1 && n == 8) || (y == 2
        && n == 9) || (y == 3 && n == 3) || (y == 5 && n == 5) || (y == 6 && n == 5))
}

/// `CXNN`, the only instruction whose effect depends on a random byte.
pub open spec fn is_random_op(op: u16) -> bool {
    group(op) == 0xC
}

// ---------------------------------------------------------------------------
// Instruction semantics
// ---------------------------------------------------------------------------

/// The state with register `x` set to `val`.
pub open spec fn set_reg(s: CpuState, x: int, val: u8) -> CpuState {
    CpuState { v: s.v.update(x, val), ..s }
}

/// `00E0`: every pixel off.
pub open spec fn clear_screen(s: CpuState) -> CpuState {
    CpuState { display: Seq::new(DISPLAY_SIZE as nat, |k: int| 0u8), ..s }
}

/// `00EE`: pop the return address.
pub open spec fn return_from_call(s: CpuState) -> CpuState {
    CpuState { sp: (s.sp - 1) as u16, pc: s.stack[s.sp - 1], ..s }
}

/// `1NNN`: jump.
pub open spec fn jump(s: CpuState, nnn: u16) -> CpuState {
    CpuState { pc: nnn, ..s }
}

/// `2NNN`: push the current program counter and jump.
pub open spec fn call(s: CpuState, nnn: u16) -> CpuState {
    CpuState { stack: s.stack.update(s.sp as int, s.pc), sp: (s.sp + 1) as u16, pc: nnn, ..s }
}

/// Skip the next instruction when `cond` holds.
pub open spec fn skip_if(s: CpuState, cond: bool) -> CpuState {
    if cond {
        CpuState { pc: (s.pc + 2) as u16, ..s }
    } else {
        s
    }
}

/// `8XY4`: add with carry into `VF`.
pub open spec fn add_regs(s: CpuState, x: int, y: int) -> CpuState {
    let sum = s.v[x] + s.v[y];
    let v1 = s.v.update(x, (sum % 256) as u8);
    CpuState { v: v1.update(15, if sum > 255 { 1u8 } else { 0u8 }), ..s }
}

/// `8XY5`: `VX = VX - VY`, `VF` = no borrow.
pub open spec fn sub_regs(s: CpuState, x: int, y: int) -> CpuState {
    let diff = s.v[x] - s.v[y];
    let v1 = s.v.update(x, ((diff + 256) % 256) as u8);
    CpuState { v: v1.update(15, if s.v[x] >= s.v[y] { 1u8 } else { 0u8 }), ..s }
}

/// `8XY7`: `VX = VY - VX`, `VF` = no borrow.
pub open spec fn subn_regs(s: CpuState, x: int, y: int) -> CpuState {
    let diff = s.v[y] - s.v[x];
    let v1 = s.v.update(x, ((diff + 256) % 256) as u8);
    CpuState { v: v1.update(15, if s.v[y] >= s.v[x] { 1u8 } else { 0u8 }), ..s }
}

/// `8XY6`: the low bit of `VX` goes to `VF`, then `VX` is halved.
pub open spec fn shift_right(s: CpuState, x: int) -> CpuState {
    let v1 = s.v.update(15, s.v[x] % 2);
    CpuState { v: v1.update(x, v1[x] / 2), ..s }
}

/// `8XYE`: the high bit of `VX` goes to `VF`, then `VX` is doubled modulo 256.
pub open spec fn shift_left(s: CpuState, x: int) -> CpuState {
    let v1 = s.v.update(15, s.v[x] / 128);
    CpuState { v: v1.update(x, ((v1[x] * 2) % 256) as u8), ..s }
}

/// Column of pixel `idx` within an 8-pixel-wide sprite drawn at column `vx`
/// (taken modulo the screen width, wrapping around).
pub open spec fn sprite_col(vx: u8, idx: int) -> int {
    (idx % 64 + 64 - vx % 64) % 64
}

/// Row of pixel `idx` within a sprite drawn at row `vy` (wrapping around).
pub open spec fn sprite_row(vy: u8, idx: int) -> int {
    (idx / 64 + 32 - vy % 32) % 32
}

/// Whether the sprite of `n` rows read from memory at `I`, drawn at
/// (`vx`, `vy`), has a set bit over pixel `idx`.
pub open spec fn sprite_hits(s: CpuState, vx: u8, vy: u8, n: int, idx: int) -> bool {
    let col = sprite_col(vx, idx);
    let row = sprite_row(vy, idx);
    col < 8 && row < n && (s.ram[s.i + row] & (0x80u8 >> (col as u8))) != 0
}

/// A pixel that was lit is switched off by the sprite.
pub open spec fn sprite_collides(s: CpuState, vx: u8, vy: u8, n: int) -> bool {
    exists|idx: int| 0 <= idx < DISPLAY_SIZE && #[trigger] sprite_hits(s, vx, vy, n, idx) && s.display[idx] == 1
}

/// `DXYN`: XOR an 8-by-`n` sprite onto the screen at (`VX`, `VY`); `VF` tells
/// whether a lit pixel was switched off.
pub open spec fn draw(s: CpuState, x: int, y: int, n: int) -> CpuState {
    let vx = s.v[x];
    let vy = s.v[y];
    CpuState {
        display: Seq::new(
            DISPLAY_SIZE as nat,
            |idx: int|
                if sprite_hits(s, vx, vy, n, idx) {
                    if s.display[idx] == 1 { 0u8 } else { 1u8 }
                } else {
                    s.display[idx]
                },
        ),
        v: s.v.update(15, if sprite_collides(s, vx, vy, n) { 1u8 } else { 0u8 }),
        ..s
    }
}

/// `FX33`: the three decimal digits of `VX` at `I`, `I+1`, `I+2`.
pub open spec fn store_bcd(s: CpuState, x: int) -> CpuState {
    let val = s.v[x];
    let i = s.i as int;
    CpuState {
        ram: s.ram.update(i, val / 100).update(i + 1, (val / 10) % 10).update(i + 2, val % 10),
        ..s
    }
}

/// `FX55`: `V0`..=`VX` into memory at `I`.
pub open spec fn store_regs(s: CpuState, x: int) -> CpuState {
    CpuState {
        ram: Seq::new(
            s.ram.len(),
            |k: int| if s.i <= k <= s.i + x { s.v[k - s.i] } else { s.ram[k] },
        ),
        ..s
    }
}

/// `FX65`: `V0`..=`VX` from memory at `I`.
pub open spec fn load_regs(s: CpuState, x: int) -> CpuState {
    CpuState { v: Seq::new(16, |k: int| if k <= x { s.ram[s.i + k] } else { s.v[k] }), ..s }
}

/// The effect of executing `op` (already fetched, with `pc` advanced);
/// `rnd` is the random byte that `CXNN` masks.
pub open spec fn execute(s: CpuState, op: u16, rnd: u8) -> CpuState {
    let g = group(op);
    let x = reg_x(op) as int;
    let y = reg_y(op) as int;
    let n = low_nibble(op);
    let nnn = addr_nnn(op);
    let nn = byte_nn(op);
    if op == 0x00E0 {
        clear_screen(s)
    } else if op == 0x00EE {
        return_from_call(s)
    } else if g == 1 {
        jump(s, nnn)
    } else if g == 2 {
        call(s, nnn)
    } else if g == 3 {
        skip_if(s, s.v[x] == nn)
    } else if g == 4 {
        skip_if(s, s.v[x] != nn)
    } else if g == 6 {
        set_reg(s, x, nn)
    } else if g == 7 {
        set_reg(s, x, ((s.v[x] + nn) % 256) as u8)
    } else if g == 8 && n == 0 {
        set_reg(s, x, s.v[y])
    } else if g == 8 && n == 1 {
        set_reg(s, x, s.v[x] | s.v[y])
    } else if g == 8 && n == 2 {
        set_reg(s, x, s.v[x] & s.v[y])
    } else if g == 8 && n == 3 {
        set_reg(s, x, s.v[x] ^ s.v[y])
    } else if g == 8 && n == 4 {
        add_regs(s, x, y)
    } else if g == 8 && n == 5 {
        sub_regs(s, x, y)
    } else if g == 8 && n == 6 {
        shift_right(s, x)
    } else if g == 8 && n == 7 {
        subn_regs(s, x, y)
    } else if g == 8 && n == 0xE {
        shift_left(s, x)
    } else if g == 0xA {
        CpuState { i: nnn, ..s }
    } else if g == 0xC {
        set_reg(s, x, rnd & nn)
    } else if g == 0xD {
        draw(s, x, y, n as int)
    } else if g == 0xE && y == 9 && n == 0xE {
        skip_if(s, s.keypad[s.v[x] as int])
    } else if g == 0xE && y == 0xA && n == 1 {
        skip_if(s, !s.keypad[s.v[x] as int])
    } else if g == 0xF && y == 0 && n == 7 {
        set_reg(s, x, s.delay_timer)
    } else if g == 0xF && y == 1 && n == 5 {
        CpuState { delay_timer: s.v[x], ..s }
    } else if g == 0xF && y == 1 && n == 8 {
        CpuState { sound_timer: s.v[x], ..s }
    } else if g == 0xF && y == 2 && n == 9 {
        CpuState { i: (s.v[x] * 5) as u16, ..s }
    } else if g == 0xF && y == 3 && n == 3 {
        store_bcd(s, x)
    } else if g == 0xF && y == 5 && n == 5 {
        store_regs(s, x)
    } else if g == 0xF && y == 6 && n == 5 {
        load_regs(s, x)
    } else {
        s
    }
}

/// Executing `op` stays within the machine's arrays and integer ranges: the
/// call stack neither underflows nor overflows, memory reads and writes
/// through `I` stay below `RAM_SIZE`, key indices are below 16 and a skip
/// does not push the program counter past `u16::MAX`.
pub open spec fn execute_ok(s: CpuState, op: u16) -> bool {
    let g = group(op);
    let x = reg_x(op) as int;
    let y = reg_y(op) as int;
    let n = low_nibble(op);
    if op == 0x00EE {
        1 <= s.sp <= 16
    } else if g == 2 {
        s.sp < 16
    } else if g == 3 || g == 4 {
        s.pc + 2 <= u16::MAX
    } else if g == 0xD {
        n == 0 || s.i + n <= RAM_SIZE
    } else if g == 0xE && ((y == 9 && n == 0xE) || (y == 0xA && n == 1)) {
        s.v[x] < 16 && s.pc + 2 <= u16::MAX
    } else if g == 0xF && y == 3 && n == 3 {
        s.i + 2 < RAM_SIZE
    } else if g == 0xF && y == 5 && n == 5 {
        s.i + x < RAM_SIZE
    } else if g == 0xF && y == 6 && n == 5 {
        s.i + x < RAM_SIZE
    } else {
        true
    }
}

/// One machine cycle can run without leaving the machine's bounds.
pub open spec fn can_step(s: CpuState) -> bool {
    fetch_ok(s) && execute_ok(advance(s), opcode_at(s))
}

/// One machine cycle: fetch, advance, execute.
pub open spec fn step(s: CpuState, rnd: u8) -> CpuState {
    execute(advance(s), opcode_at(s), rnd)
}

/// `update_timers`: both timers count down to zero and stay there.
pub open spec fn tick_timers(s: CpuState) -> CpuState {
    CpuState {
        delay_timer: if s.delay_timer > 0 { (s.delay_timer - 1) as u8 } else { 0 },
        sound_timer: if s.sound_timer > 0 { (s.sound_timer - 1) as u8 } else { 0 },
        ..s
    }
}

/// The state after `rom` was copied into memory at `PROGRAM_START`.
pub open spec fn with_program(s: CpuState, rom: Seq<u8>) -> CpuState {
    CpuState {
        ram: Seq::new(
            s.ram.len(),
            |k: int|
                if PROGRAM_START <= k < PROGRAM_START + rom.len() {
                    rom[k - PROGRAM_START]
                } else {
                    s.ram[k]
                },
        ),
        ..s
    }
}

/// Machine cycles run per displayed frame.
pub const CYCLES_PER_FRAME: usize = 10;

/// The state after one cycle per byte of `rnds` (each the random byte that
/// cycle's `CXNN` would mask), and the unknown opcodes met on the way.
pub open spec fn run_cycles(s: CpuState, rnds: Seq<u8>) -> (CpuState, Seq<u16>)
    decreases rnds.len(),
{
    if rnds.len() == 0 {
        (s, Seq::empty())
    } else {
        let (t, unknown) = run_cycles(s, rnds.drop_last());
        let op = opcode_at(t);
        (step(t, rnds.last()), if is_known(op) {
            unknown
        } else {
            unknown.push(op)
        })
    }
}

/// Every cycle of `run_cycles(s, rnds)` could run within the machine's
/// bounds.
pub open spec fn cycles_ok(s: CpuState, rnds: Seq<u8>) -> bool
    decreases rnds.len(),
{
    rnds.len() == 0 || (cycles_ok(s, rnds.drop_last()) && can_step(
        run_cycles(s, rnds.drop_last()).0,
    ))
}

} // verus!
