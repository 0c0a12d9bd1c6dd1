//! What each instruction does, stated over its operands: the register
//! arithmetic of the `8XYN` group, the loads, jumps, skips, timers, memory
//! transfers and the collision flag of `DXYN`.

use vstd::prelude::*;
use crate::chip8::spec::{
    CpuState, RAM_SIZE, DISPLAY_SIZE, well_sized, execute, draw, group, reg_x, reg_y, low_nibble,
    addr_nnn, byte_nn,
};

verus! {

/// The opcode with nibbles `g`, `x`, `y`, `n` (high to low).
pub open spec fn opcode(g: int, x: int, y: int, n: int) -> u16 {
    (g * 4096 + x * 256 + y * 16 + n) as u16
}

/// The fields of an opcode built from nibbles are those nibbles.
pub proof fn lemma_decode(g: int, x: int, y: int, n: int)
    requires
        0 <= g < 16,
        0 <= x < 16,
        0 <= y < 16,
        0 <= n < 16,
    ensures
        group(opcode(g, x, y, n)) == g,
        reg_x(opcode(g, x, y, n)) == x,
        reg_y(opcode(g, x, y, n)) == y,
        low_nibble(opcode(g, x, y, n)) == n,
        addr_nnn(opcode(g, x, y, n)) == x * 256 + y * 16 + n,
        byte_nn(opcode(g, x, y, n)) == y * 16 + n,
{
    let v = g * 4096 + x * 256 + y * 16 + n;
    assert(0 <= v < 65536) by (nonlinear_arith)
        requires
            v == g * 4096 + x * 256 + y * 16 + n,
            0 <= g < 16,
            0 <= x < 16,
            0 <= y < 16,
            0 <= n < 16,
    ;
    let op = opcode(g, x, y, n);
    assert(op == v);
    assert(v / 4096 == g && (v / 256) % 16 == x && (v / 16) % 16 == y && v % 16 == n && v % 4096
        == x * 256 + y * 16 + n && v % 256 == y * 16 + n) by (nonlinear_arith)
        requires
            v == g * 4096 + x * 256 + y * 16 + n,
            0 <= g < 16,
            0 <= x < 16,
            0 <= y < 16,
            0 <= n < 16,
    ;
}

/// Registers other than `x` and `VF` keep their values.
pub open spec fn others_kept(s: CpuState, t: CpuState, x: int) -> bool {
    forall|k: int| 0 <= k < 16 && k != x && k != 15 ==> #[trigger] t.v[k] == s.v[k]
}

/// `8XY0`: `VX` becomes `VY`. Other registers, memory, `I`, the program counter and the
/// screen stay as they are (`X` is not `VF`).
pub proof fn lemma_op_copy(s: CpuState, x: int, y: int, rnd: u8)
    requires
        well_sized(s),
        0 <= x < 15,
        0 <= y < 16,
    ensures
        ({
            let t = execute(s, opcode(8, x, y, 0), rnd);
            &&& t.v[x] == s.v[y]
            &&& others_kept(s, t, x)
            &&& t.ram == s.ram && t.i == s.i && t.pc == s.pc && t.display == s.display
        }),
{
    lemma_decode(8, x, y, 0);
}

/// `8XY1`: `VX` becomes `VX | VY`. Other registers, memory, `I`, the program counter and the
/// screen stay as they are (`X` is not `VF`).
pub proof fn lemma_op_or(s: CpuState, x: int, y: int, rnd: u8)
    requires
        well_sized(s),
        0 <= x < 15,
        0 <= y < 16,
    ensures
        ({
            let t = execute(s, opcode(8, x, y, 1), rnd);
            &&& t.v[x] == s.v[x] | s.v[y]
            &&& others_kept(s, t, x)
            &&& t.ram == s.ram && t.i == s.i && t.pc == s.pc && t.display == s.display
        }),
{
    lemma_decode(8, x, y, 1);
}

/// `8XY2`: `VX` becomes `VX & VY`. Other registers, memory, `I`, the program counter and the
/// screen stay as they are (`X` is not `VF`).
pub proof fn lemma_op_and(s: CpuState, x: int, y: int, rnd: u8)
    requires
        well_sized(s),
        0 <= x < 15,
        0 <= y < 16,
    ensures
        ({
            let t = execute(s, opcode(8, x, y, 2), rnd);
            &&& t.v[x] == s.v[x] & s.v[y]
            &&& others_kept(s, t, x)
            &&& t.ram == s.ram && t.i == s.i && t.pc == s.pc && t.display == s.display
        }),
{
    lemma_decode(8, x, y, 2);
}

/// `8XY3`: `VX` becomes `VX ^ VY`. Other registers, memory, `I`, the program counter and the
/// screen stay as they are (`X` is not `VF`).
pub proof fn lemma_op_xor(s: CpuState, x: int, y: int, rnd: u8)
    requires
        well_sized(s),
        0 <= x < 15,
        0 <= y < 16,
    ensures
        ({
            let t = execute(s, opcode(8, x, y, 3), rnd);
            &&& t.v[x] == s.v[x] ^ s.v[y]
            &&& others_kept(s, t, x)
            &&& t.ram == s.ram && t.i == s.i && t.pc == s.pc && t.display == s.display
        }),
{
    lemma_decode(8, x, y, 3);
}

/// `8XY4`: `VX + VY` is split into the low byte, in `VX`, and the carry, in `VF`. Other registers, memory, `I`, the program counter and the
/// screen stay as they are (`X` is not `VF`).
pub proof fn lemma_op_add(s: CpuState, x: int, y: int, rnd: u8)
    requires
        well_sized(s),
        0 <= x < 15,
        0 <= y < 16,
    ensures
        ({
            let t = execute(s, opcode(8, x, y, 4), rnd);
            &&& t.v[x] + 256 * t.v[15] == s.v[x] + s.v[y]
            &&& t.v[15] <= 1
            &&& others_kept(s, t, x)
            &&& t.ram == s.ram && t.i == s.i && t.pc == s.pc && t.display == s.display
        }),
{
    lemma_decode(8, x, y, 4);
}

/// `8XY5`: `VF` is 1 when `VX >= VY` (no borrow), and `VX` becomes `VX - VY`, taken modulo 256. Other registers, memory, `I`, the program counter and the
/// screen stay as they are (`X` is not `VF`).
pub proof fn lemma_op_sub(s: CpuState, x: int, y: int, rnd: u8)
    requires
        well_sized(s),
        0 <= x < 15,
        0 <= y < 16,
    ensures
        ({
            let t = execute(s, opcode(8, x, y, 5), rnd);
            &&& t.v[15] == (if s.v[x] >= s.v[y] { 1u8 } else { 0u8 })
            &&& t.v[x] == s.v[x] - s.v[y] + 256 * (1 - t.v[15])
            &&& others_kept(s, t, x)
            &&& t.ram == s.ram && t.i == s.i && t.pc == s.pc && t.display == s.display
        }),
{
    lemma_decode(8, x, y, 5);
}

/// `8XY7`: `VF` is 1 when `VY >= VX` (no borrow), and `VX` becomes `VY - VX`, taken modulo 256. Other registers, memory, `I`, the program counter and the
/// screen stay as they are (`X` is not `VF`).
pub proof fn lemma_op_subn(s: CpuState, x: int, y: int, rnd: u8)
    requires
        well_sized(s),
        0 <= x < 15,
        0 <= y < 16,
    ensures
        ({
            let t = execute(s, opcode(8, x, y, 7), rnd);
            &&& t.v[15] == (if s.v[y] >= s.v[x] { 1u8 } else { 0u8 })
            &&& t.v[x] == s.v[y] - s.v[x] + 256 * (1 - t.v[15])
            &&& others_kept(s, t, x)
            &&& t.ram == s.ram && t.i == s.i && t.pc == s.pc && t.display == s.display
        }),
{
    lemma_decode(8, x, y, 7);
}

/// `8XY6`: `VX` is halved and the bit shifted out (its lowest) goes to `VF`. Other registers, memory, `I`, the program counter and the
/// screen stay as they are (`X` is not `VF`).
pub proof fn lemma_op_shift_right(s: CpuState, x: int, y: int, rnd: u8)
    requires
        well_sized(s),
        0 <= x < 15,
        0 <= y < 16,
    ensures
        ({
            let t = execute(s, opcode(8, x, y, 6), rnd);
            &&& 2 * t.v[x] + t.v[15] == s.v[x]
            &&& t.v[15] <= 1
            &&& others_kept(s, t, x)
            &&& t.ram == s.ram && t.i == s.i && t.pc == s.pc && t.display == s.display
        }),
{
    lemma_decode(8, x, y, 6);
}

/// `8XYE`: `VX` is doubled modulo 256 and the bit shifted out (its highest) goes to `VF`. Other registers, memory, `I`, the program counter and the
/// screen stay as they are (`X` is not `VF`).
pub proof fn lemma_op_shift_left(s: CpuState, x: int, y: int, rnd: u8)
    requires
        well_sized(s),
        0 <= x < 15,
        0 <= y < 16,
    ensures
        ({
            let t = execute(s, opcode(8, x, y, 14), rnd);
            &&& t.v[x] + 256 * t.v[15] == 2 * s.v[x]
            &&& t.v[15] <= 1
            &&& others_kept(s, t, x)
            &&& t.ram == s.ram && t.i == s.i && t.pc == s.pc && t.display == s.display
        }),
{
    lemma_decode(8, x, y, 14);
    let vx = s.v[x];
    assert(2 * (vx as int) == ((vx as int * 2) % 256) + 256 * (vx as int / 128)) by (nonlinear_arith)
        requires
            0 <= vx < 256,
    ;
}

/// `6XNN` loads `NN` into `VX`; `7XNN` adds `NN` to `VX` modulo 256 and
/// leaves `VF` alone; `CXNN` gives `VX` the random byte masked by `NN`, so
/// never more than `NN` and never a bit outside it.
pub proof fn lemma_op_constants(s: CpuState, x: int, y: int, n: int, rnd: u8)
    requires
        well_sized(s),
        0 <= x < 16,
        0 <= y < 16,
        0 <= n < 16,
    ensures
        execute(s, opcode(6, x, y, n), rnd).v == s.v.update(x, (y * 16 + n) as u8),
        execute(s, opcode(7, x, y, n), rnd).v == s.v.update(
            x,
            ((s.v[x] + y * 16 + n) % 256) as u8,
        ),
        execute(s, opcode(0xC, x, y, n), rnd).v == s.v.update(x, rnd & ((y * 16 + n) as u8)),
        execute(s, opcode(0xC, x, y, n), rnd).v[x] <= y * 16 + n,
        execute(s, opcode(6, x, y, n), rnd).pc == s.pc,
        execute(s, opcode(7, x, y, n), rnd).pc == s.pc,
{
    lemma_decode(6, x, y, n);
    lemma_decode(7, x, y, n);
    lemma_decode(0xC, x, y, n);
    let nn = (y * 16 + n) as u8;
    assert(rnd & nn <= nn) by (bit_vector);
}

/// `1NNN` jumps to `NNN`; `ANNN` points `I` at `NNN`; `FX29` points `I` at
/// the five-byte font glyph of `VX`; neither touches the registers.
pub proof fn lemma_op_addresses(s: CpuState, x: int, y: int, n: int, rnd: u8)
    requires
        well_sized(s),
        0 <= x < 16,
        0 <= y < 16,
        0 <= n < 16,
    ensures
        execute(s, opcode(1, x, y, n), rnd).pc == x * 256 + y * 16 + n,
        execute(s, opcode(1, x, y, n), rnd).v == s.v,
        execute(s, opcode(0xA, x, y, n), rnd).i == x * 256 + y * 16 + n,
        execute(s, opcode(0xA, x, y, n), rnd).v == s.v,
        execute(s, opcode(0xA, x, y, n), rnd).pc == s.pc,
        execute(s, opcode(0xF, x, 2, 9), rnd).i == 5 * s.v[x],
        execute(s, opcode(0xF, x, 2, 9), rnd).v == s.v,
{
    lemma_decode(1, x, y, n);
    lemma_decode(0xA, x, y, n);
    lemma_decode(0xF, x, 2, 9);
}

/// `3XNN` skips the next instruction exactly when `VX == NN`, `4XNN`
/// exactly when `VX != NN`; `EX9E` when key `VX` is down, `EXA1` when it
/// is up. Skipping moves the program counter by 2; nothing else changes.
pub proof fn lemma_op_skips(s: CpuState, x: int, y: int, n: int, rnd: u8)
    requires
        well_sized(s),
        0 <= x < 16,
        0 <= y < 16,
        0 <= n < 16,
    ensures
        execute(s, opcode(3, x, y, n), rnd).pc == (if s.v[x] == y * 16 + n {
            (s.pc + 2) as u16
        } else {
            s.pc
        }),
        execute(s, opcode(4, x, y, n), rnd).pc == (if s.v[x] != y * 16 + n {
            (s.pc + 2) as u16
        } else {
            s.pc
        }),
        execute(s, opcode(0xE, x, 9, 0xE), rnd).pc == (if s.keypad[s.v[x] as int] {
            (s.pc + 2) as u16
        } else {
            s.pc
        }),
        execute(s, opcode(0xE, x, 0xA, 1), rnd).pc == (if s.keypad[s.v[x] as int] {
            s.pc
        } else {
            (s.pc + 2) as u16
        }),
        execute(s, opcode(3, x, y, n), rnd).v == s.v,
        execute(s, opcode(4, x, y, n), rnd).v == s.v,
        execute(s, opcode(0xE, x, 9, 0xE), rnd).v == s.v,
        execute(s, opcode(0xE, x, 0xA, 1), rnd).v == s.v,
{
    lemma_decode(3, x, y, n);
    lemma_decode(4, x, y, n);
    lemma_decode(0xE, x, 9, 0xE);
    lemma_decode(0xE, x, 0xA, 1);
}

/// `FX07` reads the delay timer into `VX`; `FX15` and `FX18` set the delay
/// and sound timers from `VX`.
pub proof fn lemma_op_timers(s: CpuState, x: int, rnd: u8)
    requires
        well_sized(s),
        0 <= x < 16,
    ensures
        execute(s, opcode(0xF, x, 0, 7), rnd).v == s.v.update(x, s.delay_timer),
        execute(s, opcode(0xF, x, 1, 5), rnd).delay_timer == s.v[x],
        execute(s, opcode(0xF, x, 1, 5), rnd).sound_timer == s.sound_timer,
        execute(s, opcode(0xF, x, 1, 8), rnd).sound_timer == s.v[x],
        execute(s, opcode(0xF, x, 1, 8), rnd).delay_timer == s.delay_timer,
{
    lemma_decode(0xF, x, 0, 7);
    lemma_decode(0xF, x, 1, 5);
    lemma_decode(0xF, x, 1, 8);
}

/// `FX33` writes the hundreds, tens and units of `VX` at `I`, `I+1`, `I+2`,
/// and no other byte; `FX55` copies `V0..=VX` to memory at `I` and
/// `FX65` copies them back, each leaving `I` where it was.
pub proof fn lemma_op_memory(s: CpuState, x: int, rnd: u8)
    requires
        well_sized(s),
        0 <= x < 16,
        s.i + x < RAM_SIZE,
        s.i + 2 < RAM_SIZE,
    ensures
        ({
            let t = execute(s, opcode(0xF, x, 3, 3), rnd);
            &&& t.ram[s.i as int] < 10 && t.ram[s.i + 1] < 10 && t.ram[s.i + 2] < 10
            &&& 100 * t.ram[s.i as int] + 10 * t.ram[s.i + 1] + t.ram[s.i + 2] == s.v[x]
            &&& forall|a: int| 0 <= a < RAM_SIZE && !(s.i <= a <= s.i + 2) ==> #[trigger] t.ram[a] == s.ram[a]
            &&& t.v == s.v && t.i == s.i
        }),
        ({
            let t = execute(s, opcode(0xF, x, 5, 5), rnd);
            &&& forall|k: int| 0 <= k <= x ==> #[trigger] t.ram[s.i + k] == s.v[k]
            &&& forall|a: int| 0 <= a < RAM_SIZE && !(s.i <= a <= s.i + x) ==> #[trigger] t.ram[a] == s.ram[a]
            &&& t.v == s.v && t.i == s.i
        }),
        ({
            let t = execute(s, opcode(0xF, x, 6, 5), rnd);
            &&& forall|k: int| 0 <= k <= x ==> #[trigger] t.v[k] == s.ram[s.i + k]
            &&& forall|k: int| x < k < 16 ==> #[trigger] t.v[k] == s.v[k]
            &&& t.ram == s.ram && t.i == s.i
        }),
{
    lemma_decode(0xF, x, 3, 3);
    lemma_decode(0xF, x, 5, 5);
    lemma_decode(0xF, x, 6, 5);
}

/// `00E0` turns every pixel off and changes nothing else on the screen's
/// side; `DXYN` sets `VF` to 1 exactly when some lit pixel went dark, and
/// to 0 otherwise.
pub proof fn lemma_op_screen(s: CpuState, x: int, y: int, n: int, rnd: u8)
    requires
        well_sized(s),
        0 <= x < 16,
        0 <= y < 16,
        0 <= n < 16,
        forall|k: int| 0 <= k < DISPLAY_SIZE ==> #[trigger] s.display[k] == 0 || s.display[k] == 1,
    ensures
        ({
            let t = execute(s, 0x00E0, rnd);
            &&& t.display.len() == DISPLAY_SIZE
            &&& forall|k: int| 0 <= k < DISPLAY_SIZE ==> #[trigger] t.display[k] == 0
            &&& t.v == s.v && t.ram == s.ram
        }),
        ({
            let t = execute(s, opcode(0xD, x, y, n), rnd);
            &&& t.v[15] == 0 || t.v[15] == 1
            &&& (t.v[15] == 1 <==> exists|k: int|
                0 <= k < DISPLAY_SIZE && #[trigger] s.display[k] == 1 && t.display[k] == 0)
        }),
{
    lemma_decode(0xD, x, y, n);
    let t = execute(s, opcode(0xD, x, y, n), rnd);
    assert(t == draw(s, x, y, n));
    if t.v[15] == 1 {
        let k = choose|k: int|
            0 <= k < DISPLAY_SIZE && #[trigger] crate::chip8::spec::sprite_hits(s, s.v[x], s.v[y], n, k)
                && s.display[k] == 1;
        assert(t.display[k] == 0);
    }
}

} // verus!
