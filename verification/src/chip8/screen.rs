use vstd::prelude::*;
use super::spec::{DISPLAY_SIZE, SCREEN_WIDTH};
use super::cpu::Cpu;

verus! {

/// Size in window pixels of one CHIP-8 pixel.
pub const SCALE: u32 = 15;

/// The window rectangle (x, y, width, height) covering screen pixel `idx`.
pub open spec fn pixel_rect(idx: int) -> (i32, i32, u32, u32) {
    (((idx % 64) * SCALE) as i32, ((idx / 64) * SCALE) as i32, SCALE, SCALE)
}

/// The rectangles of the lit pixels among the first `k`, in row-major order.
pub open spec fn lit_rects(display: Seq<u8>, k: int) -> Seq<(i32, i32, u32, u32)>
    decreases k,
{
    if k <= 0 {
        Seq::empty()
    } else if display[k - 1] == 1 {
        lit_rects(display, k - 1).push(pixel_rect(k - 1))
    } else {
        lit_rects(display, k - 1)
    }
}

/// The key of the 4x4 hex keypad that a keyboard key stands for, given the
/// key's code (SDL key codes of letters and digits are their lower-case
/// ASCII codes):
///
/// ```text
/// 1 2 3 4        1 2 3 C
/// Q W E R   ->   4 5 6 D
/// A S D F        7 8 9 E
/// Z X C V        A 0 B F
/// ```
pub open spec fn keypad_index(code: i32) -> Option<usize> {
    if code == 49 { Some(0x1usize) }
    else if code == 50 { Some(0x2usize) }
    else if code == 51 { Some(0x3usize) }
    else if code == 52 { Some(0xCusize) }
    else if code == 113 { Some(0x4usize) }
    else if code == 119 { Some(0x5usize) }
    else if code == 101 { Some(0x6usize) }
    else if code == 114 { Some(0xDusize) }
    else if code == 97 { Some(0x7usize) }
    else if code == 115 { Some(0x8usize) }
    else if code == 100 { Some(0x9usize) }
    else if code == 102 { Some(0xEusize) }
    else if code == 122 { Some(0xAusize) }
    else if code == 120 { Some(0x0usize) }
    else if code == 99 { Some(0xBusize) }
    else if code == 118 { Some(0xFusize) }
    else { None }
}

/// Map a keyboard key code to a keypad key, if it is one of the sixteen.
pub fn map_key(code: i32) -> (key: Option<usize>)
    ensures
        key == keypad_index(code),
        key matches Some(k) ==> k < 16,
{
    match code {
        49 => Some(0x1),
        50 => Some(0x2),
        51 => Some(0x3),
        52 => Some(0xC),
        113 => Some(0x4),
        119 => Some(0x5),
        101 => Some(0x6),
        114 => Some(0xD),
        97 => Some(0x7),
        115 => Some(0x8),
        100 => Some(0x9),
        102 => Some(0xE),
        122 => Some(0xA),
        120 => Some(0x0),
        99 => Some(0xB),
        118 => Some(0xF),
        _ => None,
    }
}

impl Cpu {
    /// The window rectangles to fill white for the current screen: one per
    /// lit pixel (value 1), scaled by `SCALE`, in row-major order.
    pub fn screen_rects(&self) -> (rects: Vec<(i32, i32, u32, u32)>)
        ensures
            rects@ == lit_rects(self.display@, DISPLAY_SIZE as int),
    {
        let mut rects: Vec<(i32, i32, u32, u32)> = Vec::new();
        for y in 0..32usize
            invariant
                rects@ == lit_rects(self.display@, (y * SCREEN_WIDTH) as int),
        {
            for x in 0..64usize
                invariant
                    y < 32,
                    rects@ == lit_rects(self.display@, (y * SCREEN_WIDTH + x) as int),
            {
                let idx = y * 64 + x;
                assert(idx % 64 == x && idx / 64 == y) by (nonlinear_arith)
                    requires
                        idx == y * 64 + x,
                        x < 64,
                ;
                if self.display[idx] == 1 {
                    rects.push(((x as u32 * SCALE) as i32, (y as u32 * SCALE) as i32, SCALE, SCALE));
                }
            }
        }
        rects
    }
}

/// Some keyboard key stands for keypad key `k`.
pub open spec fn key_reachable(k: usize) -> bool {
    exists|c: i32| #[trigger] keypad_index(c) == Some(k)
}

/// The sixteen keyboard keys and the sixteen keypad keys correspond one to
/// one: no two keyboard keys press the same keypad key, and every keypad
/// key has a keyboard key.
pub proof fn lemma_keypad_one_to_one()
    ensures
        forall|a: i32, b: i32|
            #![trigger keypad_index(a), keypad_index(b)]
            keypad_index(a) is Some && keypad_index(a) == keypad_index(b) ==> a == b,
        forall|k: usize| k < 16 ==> #[trigger] key_reachable(k),
{
    assert forall|k: usize| k < 16 implies #[trigger] key_reachable(k) by {
        if k == 0x0 { assert(keypad_index(120) == Some(k)); }
        else if k == 0x1 { assert(keypad_index(49) == Some(k)); }
        else if k == 0x2 { assert(keypad_index(50) == Some(k)); }
        else if k == 0x3 { assert(keypad_index(51) == Some(k)); }
        else if k == 0x4 { assert(keypad_index(113) == Some(k)); }
        else if k == 0x5 { assert(keypad_index(119) == Some(k)); }
        else if k == 0x6 { assert(keypad_index(101) == Some(k)); }
        else if k == 0x7 { assert(keypad_index(97) == Some(k)); }
        else if k == 0x8 { assert(keypad_index(115) == Some(k)); }
        else if k == 0x9 { assert(keypad_index(100) == Some(k)); }
        else if k == 0xA { assert(keypad_index(122) == Some(k)); }
        else if k == 0xB { assert(keypad_index(99) == Some(k)); }
        else if k == 0xC { assert(keypad_index(52) == Some(k)); }
        else if k == 0xD { assert(keypad_index(114) == Some(k)); }
        else if k == 0xE { assert(keypad_index(102) == Some(k)); }
        else { assert(keypad_index(118) == Some(k)); }
    }
}

} // verus!
