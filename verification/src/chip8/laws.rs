//! Properties of the instruction semantics that hold across instructions.

use vstd::prelude::*;
use crate::chip8::spec::{
    CpuState, RAM_SIZE, DISPLAY_SIZE, well_sized, execute, execute_ok, step, can_step, draw,
    sprite_hits, store_regs, load_regs, store_bcd, tick_timers, advance, opcode_at,
};

verus! {

/// Every pixel is either off (0) or on (1).
pub open spec fn binary_display(s: CpuState) -> bool {
    forall|k: int| 0 <= k < s.display.len() ==> #[trigger] s.display[k] == 0 || s.display[k] == 1
}

/// A subroutine call (`2NNN`) followed by a return (`00EE`) comes back to
/// the instruction after the call, with the stack pointer where it was.
pub proof fn lemma_call_then_return(s: CpuState, nnn: u16, r1: u8, r2: u8)
    requires
        well_sized(s),
        s.sp < 16,
        nnn < 0x1000,
    ensures
        execute_ok(s, (0x2000 + nnn) as u16),
        execute_ok(execute(s, (0x2000 + nnn) as u16, r1), 0x00EE),
        execute(execute(s, (0x2000 + nnn) as u16, r1), 0x00EE, r2).pc == s.pc,
        execute(execute(s, (0x2000 + nnn) as u16, r1), 0x00EE, r2).sp == s.sp,
        execute(execute(s, (0x2000 + nnn) as u16, r1), 0x00EE, r2).v == s.v,
        execute(execute(s, (0x2000 + nnn) as u16, r1), 0x00EE, r2).ram == s.ram,
        execute(execute(s, (0x2000 + nnn) as u16, r1), 0x00EE, r2).display == s.display,
{
    let op = (0x2000 + nnn) as u16;
    assert(op / 4096 == 2);
    assert(op % 4096 == nnn);
}

/// Every instruction leaves the machine's arrays at their sizes.
pub proof fn lemma_step_well_sized(s: CpuState, rnd: u8)
    requires
        well_sized(s),
        can_step(s),
    ensures
        well_sized(step(s, rnd)),
{
    let t = advance(s);
    let op = opcode_at(s);
    let r = execute(t, op, rnd);
    assert(r.ram.len() == RAM_SIZE);
}

/// Drawing switches pixels between 0 and 1 only, so a screen of zeros and
/// ones stays one.
pub proof fn lemma_draw_binary(s: CpuState, x: int, y: int, n: int)
    requires
        well_sized(s),
        binary_display(s),
        0 <= x < 16,
        0 <= y < 16,
    ensures
        binary_display(draw(s, x, y, n)),
        draw(s, x, y, n).display.len() == DISPLAY_SIZE,
{
}

/// Every instruction keeps a screen of zeros and ones.
pub proof fn lemma_step_binary_display(s: CpuState, rnd: u8)
    requires
        well_sized(s),
        binary_display(s),
        can_step(s),
    ensures
        binary_display(step(s, rnd)),
{
    let t = advance(s);
    let op = opcode_at(s);
    let x = ((op / 256) % 16) as int;
    let y = ((op / 16) % 16) as int;
    lemma_draw_binary(t, x, y, (op % 16) as int);
}

/// Drawing the same sprite twice at the same place restores the screen:
/// drawing is an exclusive or. (The sprite's coordinates must not sit in
/// `VF`, which the first drawing overwrites.)
pub proof fn lemma_draw_twice(s: CpuState, x: int, y: int, n: int)
    requires
        well_sized(s),
        binary_display(s),
        0 <= x < 15,
        0 <= y < 15,
    ensures
        draw(draw(s, x, y, n), x, y, n).display == s.display,
{
    let t = draw(s, x, y, n);
    let u = draw(t, x, y, n);
    assert(t.v[x] == s.v[x]);
    assert(t.v[y] == s.v[y]);
    assert forall|idx: int| 0 <= idx < DISPLAY_SIZE implies u.display[idx] == s.display[idx] by {
        assert(sprite_hits(t, t.v[x], t.v[y], n, idx) == sprite_hits(s, s.v[x], s.v[y], n, idx));
    }
    assert(u.display =~= s.display);
}

/// Storing `V0..=VX` to memory and loading them back gives the registers
/// back unchanged.
pub proof fn lemma_store_then_load(s: CpuState, x: int)
    requires
        well_sized(s),
        0 <= x < 16,
        s.i + x < RAM_SIZE,
    ensures
        load_regs(store_regs(s, x), x).v == s.v,
        load_regs(store_regs(s, x), x).i == s.i,
{
    let t = store_regs(s, x);
    let u = load_regs(t, x);
    assert forall|k: int| 0 <= k < 16 implies u.v[k] == s.v[k] by {
        if k <= x {
            assert(t.ram[s.i + k] == s.v[k]);
        }
    }
    assert(u.v =~= s.v);
}

/// The three bytes `FX33` stores are decimal digits that spell `VX`.
pub proof fn lemma_bcd_digits(s: CpuState, x: int)
    requires
        well_sized(s),
        0 <= x < 16,
        s.i + 2 < RAM_SIZE,
    ensures
        ({
            let r = store_bcd(s, x).ram;
            let i = s.i as int;
            &&& r[i] < 10 && r[i + 1] < 10 && r[i + 2] < 10
            &&& 100 * r[i] + 10 * r[i + 1] + r[i + 2] == s.v[x]
        }),
{
}

/// The timers count down by one per tick and stay at zero once there.
pub proof fn lemma_timers_count_down(s: CpuState)
    ensures
        s.delay_timer > 0 ==> tick_timers(s).delay_timer == s.delay_timer - 1,
        s.sound_timer > 0 ==> tick_timers(s).sound_timer == s.sound_timer - 1,
        s.delay_timer == 0 ==> tick_timers(s).delay_timer == 0,
        s.sound_timer == 0 ==> tick_timers(s).sound_timer == 0,
        tick_timers(s).ram == s.ram && tick_timers(s).v == s.v && tick_timers(s).pc == s.pc,
{
}

/// The state after `k` timer updates in a row.
pub open spec fn ticks(s: CpuState, k: nat) -> CpuState
    decreases k,
{
    if k == 0 {
        s
    } else {
        tick_timers(ticks(s, (k - 1) as nat))
    }
}

/// `a - k`, stopping at zero.
pub open spec fn count_down(a: u8, k: nat) -> u8 {
    if a >= k {
        (a - k) as u8
    } else {
        0
    }
}

/// After `k` updates each timer has counted down by `k`, stopping at zero;
/// no update raises a timer; after 255 updates both are zero; and nothing
/// but the timers changes.
pub proof fn lemma_timers_after(s: CpuState, k: nat)
    ensures
        ticks(s, k).delay_timer == count_down(s.delay_timer, k),
        ticks(s, k).sound_timer == count_down(s.sound_timer, k),
        ticks(s, k + 1).delay_timer <= ticks(s, k).delay_timer,
        ticks(s, k + 1).sound_timer <= ticks(s, k).sound_timer,
        k >= 255 ==> ticks(s, k).delay_timer == 0 && ticks(s, k).sound_timer == 0,
        ticks(s, k) == (CpuState {
            delay_timer: ticks(s, k).delay_timer,
            sound_timer: ticks(s, k).sound_timer,
            ..s
        }),
    decreases k,
{
    if k > 0 {
        lemma_timers_after(s, (k - 1) as nat);
    }
}

/// Registers stored with `FX55` come back with `FX65` even when they were
/// overwritten in between (with any values `w`): `V0..=VX` are restored,
/// the registers above `X` keep the values written in between, and `I` is
/// not moved.
pub proof fn lemma_store_overwrite_load(s: CpuState, x: int, w: Seq<u8>)
    requires
        well_sized(s),
        0 <= x < 16,
        s.i + x < RAM_SIZE,
        w.len() == 16,
    ensures
        ({
            let stored = store_regs(s, x);
            let loaded = load_regs(CpuState { v: w, ..stored }, x);
            &&& forall|k: int| 0 <= k <= x ==> #[trigger] stored.ram[s.i + k] == s.v[k]
            &&& forall|a: int|
                0 <= a < RAM_SIZE && !(s.i <= a <= s.i + x) ==> #[trigger] stored.ram[a] == s.ram[a]
            &&& forall|k: int| 0 <= k <= x ==> #[trigger] loaded.v[k] == s.v[k]
            &&& forall|k: int| x < k < 16 ==> #[trigger] loaded.v[k] == w[k]
            &&& loaded.i == s.i
            &&& loaded.ram == stored.ram
        }),
{
}

} // verus!
