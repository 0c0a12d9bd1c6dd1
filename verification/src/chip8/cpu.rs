use vstd::prelude::*;
use rand::Rng;
use super::spec::{
    CpuState, RAM_SIZE, DISPLAY_SIZE, FONTSET_SIZE, PROGRAM_START, font, initial_state,
    with_program, fetch_ok, opcode_at, advance, tick_timers, set_reg, clear_screen,
    return_from_call, jump, call, skip_if, add_regs, sub_regs, subn_regs, shift_right, shift_left,
    store_bcd, store_regs, load_regs, draw, sprite_hits, sprite_col, sprite_row, sprite_collides,
    well_sized, execute, can_step, step, is_known, run_cycles, cycles_ok, CYCLES_PER_FRAME, is_random_op, group, reg_x, reg_y, low_nibble,
};

verus! {

/// The complete state of a CHIP-8 machine.
pub struct Cpu {
    pub ram: [u8; RAM_SIZE],
    pub v: [u8; 16],
    pub i: u16,
    pub pc: u16,
    pub stack: [u16; 16],
    pub sp: u16,
    pub display: [u8; DISPLAY_SIZE],
    pub keypad: [bool; 16],
    pub delay_timer: u8,
    pub sound_timer: u8,
}

impl View for Cpu {
    type V = CpuState;

    open spec fn view(&self) -> CpuState {
        CpuState {
            ram: self.ram@,
            v: self.v@,
            i: self.i,
            pc: self.pc,
            stack: self.stack@,
            sp: self.sp,
            display: self.display@,
            keypad: self.keypad@,
            delay_timer: self.delay_timer,
            sound_timer: self.sound_timer,
        }
    }
}

/// What one machine cycle did.
#[derive(PartialEq, Eq, Structural, Debug, Clone, Copy)]
pub enum Step {
    /// A known instruction was executed.
    Executed,
    /// The opcode is not one the interpreter implements; only the program
    /// counter moved past it.
    Unknown(u16),
}

/// The built-in font as an array.
fn fontset() -> (f: [u8; FONTSET_SIZE])
    ensures
        f@ == font(),
{
    let f: [u8; FONTSET_SIZE] = [
        0xF0, 0x90, 0x90, 0x90, 0xF0,
        0x20, 0x60, 0x20, 0x20, 0x70,
        0xF0, 0x10, 0xF0, 0x80, 0xF0,
        0xF0, 0x10, 0xF0, 0x10, 0xF0,
        0x90, 0x90, 0xF0, 0x10, 0x10,
        0xF0, 0x80, 0xF0, 0x10, 0xF0,
        0xF0, 0x80, 0xF0, 0x90, 0xF0,
        0xF0, 0x10, 0x20, 0x40, 0x40,
        0xF0, 0x90, 0xF0, 0x90, 0xF0,
        0xF0, 0x90, 0xF0, 0x10, 0xF0,
        0xF0, 0x90, 0xF0, 0x90, 0x90,
        0xE0, 0x90, 0xE0, 0x90, 0xE0,
        0xF0, 0x80, 0x80, 0x80, 0xF0,
        0xE0, 0x90, 0x90, 0x90, 0xE0,
        0xF0, 0x80, 0xF0, 0x80, 0xF0,
        0xF0, 0x80, 0xF0, 0x80, 0x80,
    ];
    assert(f@ =~= font());
    f
}

/// The random byte that `CXNN` masks, drawn from the thread-local generator
/// of the `rand` crate (`rand::thread_rng().gen::<u8>()`). Nothing is claimed
/// of the value: any byte may come back.
#[verifier::external_body]
fn random_byte() -> (r: u8) {
    rand::thread_rng().gen::<u8>()
}


/// The pixel that sprite cell (`row`, `col`) lands on when drawn at
/// (`vx`, `vy`), wrapping around the screen edges.
pub open spec fn cell_index(vx: u8, vy: u8, row: int, col: int) -> int {
    ((vy % 32 + row) % 32) * 64 + (vx % 64 + col) % 64
}

/// `k % m` for `0 <= k < 2 * m`.
proof fn lemma_mod_once(k: int, m: int)
    requires
        0 < m,
        0 <= k < 2 * m,
    ensures
        k % m == (if k < m { k } else { k - m }),
{
    if k < m {
        vstd::arithmetic::div_mod::lemma_small_mod(k as nat, m as nat);
    } else {
        vstd::arithmetic::div_mod::lemma_small_mod((k - m) as nat, m as nat);
        vstd::arithmetic::div_mod::lemma_mod_sub_multiples_vanish(k, m);
    }
}

/// A pixel index splits into its row and column.
proof fn lemma_pixel_split(idx: int)
    requires
        0 <= idx < DISPLAY_SIZE,
    ensures
        idx == (idx / 64) * 64 + idx % 64,
        0 <= idx % 64 < 64,
        0 <= idx / 64 < 32,
{
    vstd::arithmetic::div_mod::lemma_fundamental_div_mod(idx, 64);
    vstd::arithmetic::div_mod::lemma_mod_bound(idx, 64);
    vstd::arithmetic::div_mod::lemma_div_pos_is_pos(idx, 64);
    vstd::arithmetic::div_mod::lemma_div_is_ordered(idx, 2047, 64);
}

/// Row `sy` and column `sx` give back pixel `sy * 64 + sx`.
proof fn lemma_pixel_join(sy: int, sx: int)
    requires
        0 <= sy < 32,
        0 <= sx < 64,
    ensures
        (sy * 64 + sx) / 64 == sy,
        (sy * 64 + sx) % 64 == sx,
{
    vstd::arithmetic::div_mod::lemma_fundamental_div_mod_converse(sy * 64 + sx, 64, sy, sx);
}

/// Cell (`row`, `col`) of a sprite maps to exactly one pixel, and that pixel
/// maps back to (`row`, `col`).
proof fn lemma_cell_index(vx: u8, vy: u8, row: int, col: int)
    requires
        0 <= row < 32,
        0 <= col < 64,
    ensures
        0 <= cell_index(vx, vy, row, col) < DISPLAY_SIZE,
        sprite_row(vy, cell_index(vx, vy, row, col)) == row,
        sprite_col(vx, cell_index(vx, vy, row, col)) == col,
        forall|j: int|
            0 <= j < DISPLAY_SIZE && sprite_row(vy, j) == row && sprite_col(vx, j) == col ==> j
                == cell_index(vx, vy, row, col),
{
    let a = vx % 64;
    let b = vy % 32;
    lemma_mod_once(a + col, 64);
    lemma_mod_once(b + row, 32);
    let sx = (a + col) % 64;
    let sy = (b + row) % 32;
    let idx = sy * 64 + sx;
    lemma_pixel_join(sy, sx);
    lemma_mod_once(sx + 64 - a, 64);
    lemma_mod_once(sy + 32 - b, 32);
    assert forall|j: int|
        0 <= j < DISPLAY_SIZE && sprite_row(vy, j) == row && sprite_col(vx, j) == col implies j
            == idx by {
        lemma_pixel_split(j);
        lemma_mod_once(j % 64 + 64 - a, 64);
        lemma_mod_once(j / 64 + 32 - b, 32);
    }
}

/// Cells processed before (`r`, `c`) in row-major order.
pub open spec fn drawn_before(s: CpuState, vx: u8, vy: u8, n: int, idx: int, r: int, c: int) -> bool {
    sprite_hits(s, vx, vy, n, idx) && (sprite_row(vy, idx) < r || (sprite_row(vy, idx) == r
        && sprite_col(vx, idx) < c))
}

/// The screen after the cells before (`r`, `c`) were drawn.
pub open spec fn partial_display(s: CpuState, vx: u8, vy: u8, n: int, r: int, c: int) -> Seq<u8> {
    Seq::new(
        DISPLAY_SIZE as nat,
        |idx: int|
            if drawn_before(s, vx, vy, n, idx, r, c) {
                if s.display[idx] == 1 { 0u8 } else { 1u8 }
            } else {
                s.display[idx]
            },
    )
}

/// A collision among the cells before (`r`, `c`).
pub open spec fn partial_collision(s: CpuState, vx: u8, vy: u8, n: int, r: int, c: int) -> bool {
    exists|idx: int|
        0 <= idx < DISPLAY_SIZE && #[trigger] drawn_before(s, vx, vy, n, idx, r, c) && s.display[idx]
            == 1
}

/// Drawing cell (`r`, `c`) extends the drawn set by that cell's pixel only.
proof fn lemma_draw_cell(s: CpuState, vx: u8, vy: u8, n: int, r: int, c: int)
    requires
        0 <= r < 32,
        0 <= c < 8,
    ensures
        0 <= cell_index(vx, vy, r, c) < DISPLAY_SIZE,
        !drawn_before(s, vx, vy, n, cell_index(vx, vy, r, c), r, c),
        sprite_hits(s, vx, vy, n, cell_index(vx, vy, r, c)) == (r < n && (s.ram[s.i + r] & (0x80u8
            >> (c as u8))) != 0),
        partial_display(s, vx, vy, n, r, c + 1) == (if sprite_hits(
            s,
            vx,
            vy,
            n,
            cell_index(vx, vy, r, c),
        ) {
            partial_display(s, vx, vy, n, r, c).update(
                cell_index(vx, vy, r, c),
                if s.display[cell_index(vx, vy, r, c)] == 1 { 0u8 } else { 1u8 },
            )
        } else {
            partial_display(s, vx, vy, n, r, c)
        }),
        partial_collision(s, vx, vy, n, r, c + 1) == (partial_collision(s, vx, vy, n, r, c) || (
        sprite_hits(s, vx, vy, n, cell_index(vx, vy, r, c)) && s.display[cell_index(vx, vy, r, c)]
            == 1)),
{
    let idx0 = cell_index(vx, vy, r, c);
    lemma_cell_index(vx, vy, r, c);
    assert forall|j: int| 0 <= j < DISPLAY_SIZE implies #[trigger] drawn_before(
        s,
        vx,
        vy,
        n,
        j,
        r,
        c + 1,
    ) == (drawn_before(s, vx, vy, n, j, r, c) || (j == idx0 && sprite_hits(s, vx, vy, n, j))) by {}
    let after = partial_display(s, vx, vy, n, r, c + 1);
    let before = partial_display(s, vx, vy, n, r, c);
    if sprite_hits(s, vx, vy, n, idx0) {
        assert(after =~= before.update(idx0, if s.display[idx0] == 1 { 0u8 } else { 1u8 }));
    } else {
        assert(after =~= before);
    }
    if partial_collision(s, vx, vy, n, r, c + 1) {
        let j = choose|j: int|
            0 <= j < DISPLAY_SIZE && #[trigger] drawn_before(s, vx, vy, n, j, r, c + 1)
                && s.display[j] == 1;
        if j != idx0 {
            assert(drawn_before(s, vx, vy, n, j, r, c));
        }
    }
    if partial_collision(s, vx, vy, n, r, c) {
        let j = choose|j: int|
            0 <= j < DISPLAY_SIZE && #[trigger] drawn_before(s, vx, vy, n, j, r, c)
                && s.display[j] == 1;
        assert(drawn_before(s, vx, vy, n, j, r, c + 1));
    }
    if sprite_hits(s, vx, vy, n, idx0) && s.display[idx0] == 1 {
        assert(drawn_before(s, vx, vy, n, idx0, r, c + 1));
    }
}

/// Finishing a row is starting the next one.
proof fn lemma_draw_row(s: CpuState, vx: u8, vy: u8, n: int, r: int)
    ensures
        partial_display(s, vx, vy, n, r, 8) == partial_display(s, vx, vy, n, r + 1, 0),
        partial_collision(s, vx, vy, n, r, 8) == partial_collision(s, vx, vy, n, r + 1, 0),
{
    assert forall|j: int| #[trigger] drawn_before(s, vx, vy, n, j, r, 8) == drawn_before(
        s,
        vx,
        vy,
        n,
        j,
        r + 1,
        0,
    ) by {}
    assert(partial_display(s, vx, vy, n, r, 8) =~= partial_display(s, vx, vy, n, r + 1, 0));
    if partial_collision(s, vx, vy, n, r, 8) {
        let j = choose|j: int|
            0 <= j < DISPLAY_SIZE && #[trigger] drawn_before(s, vx, vy, n, j, r, 8) && s.display[j]
                == 1;
        assert(drawn_before(s, vx, vy, n, j, r + 1, 0));
    }
    if partial_collision(s, vx, vy, n, r + 1, 0) {
        let j = choose|j: int|
            0 <= j < DISPLAY_SIZE && #[trigger] drawn_before(s, vx, vy, n, j, r + 1, 0)
                && s.display[j] == 1;
        assert(drawn_before(s, vx, vy, n, j, r, 8));
    }
}

/// After all `n` rows the drawn set is the whole sprite.
proof fn lemma_draw_done(s: CpuState, x: int, y: int, n: int)
    requires
        0 <= n <= 32,
    ensures
        partial_display(s, s.v[x], s.v[y], n, n, 0) == draw(s, x, y, n).display,
        partial_collision(s, s.v[x], s.v[y], n, n, 0) == sprite_collides(s, s.v[x], s.v[y], n),
{
    let vx = s.v[x];
    let vy = s.v[y];
    assert forall|j: int| #[trigger] drawn_before(s, vx, vy, n, j, n, 0) == sprite_hits(
        s,
        vx,
        vy,
        n,
        j,
    ) by {}
    assert(partial_display(s, vx, vy, n, n, 0) =~= draw(s, x, y, n).display);
    if partial_collision(s, vx, vy, n, n, 0) {
        let j = choose|j: int|
            0 <= j < DISPLAY_SIZE && #[trigger] drawn_before(s, vx, vy, n, j, n, 0) && s.display[j]
                == 1;
        assert(sprite_hits(s, vx, vy, n, j));
    }
    if sprite_collides(s, vx, vy, n) {
        let j = choose|j: int|
            0 <= j < DISPLAY_SIZE && #[trigger] sprite_hits(s, vx, vy, n, j) && s.display[j] == 1;
        assert(drawn_before(s, vx, vy, n, j, n, 0));
    }
}

/// Split an opcode into its four nibbles, high to low.
fn decode(opcode: u16) -> (nibbles: (u16, u16, u16, u16))
    ensures
        nibbles.0 == group(opcode),
        nibbles.1 == reg_x(opcode),
        nibbles.2 == reg_y(opcode),
        nibbles.3 == low_nibble(opcode),
        nibbles.1 < 16 && nibbles.2 < 16 && nibbles.3 < 16,
{
    assert((opcode & 0xF000) >> 12 == opcode / 4096) by (bit_vector);
    assert((opcode & 0x0F00) >> 8 == (opcode / 256) % 16) by (bit_vector);
    assert((opcode & 0x00F0) >> 4 == (opcode / 16) % 16) by (bit_vector);
    assert(opcode & 0x000F == opcode % 16) by (bit_vector);
    (
        (opcode & 0xF000) >> 12,
        (opcode & 0x0F00) >> 8,
        (opcode & 0x00F0) >> 4,
        opcode & 0x000F,
    )
}

impl Cpu {
    /// A machine with the font loaded at address 0, all else cleared and the
    /// program counter at `0x200`.
    pub fn new() -> (cpu: Self)
        ensures
            cpu@ == initial_state(),
    {
        let mut cpu = Cpu {
            ram: [0u8; RAM_SIZE],
            v: [0u8; 16],
            i: 0,
            pc: PROGRAM_START,
            stack: [0u16; 16],
            sp: 0,
            display: [0u8; DISPLAY_SIZE],
            keypad: [false; 16],
            delay_timer: 0,
            sound_timer: 0,
        };
        let font_bytes = fontset();
        let mut k: usize = 0;
        while k < FONTSET_SIZE
            invariant
                k <= FONTSET_SIZE,
                font_bytes@ == font(),
                cpu.v@ == initial_state().v,
                cpu.stack@ == initial_state().stack,
                cpu.display@ == initial_state().display,
                cpu.keypad@ == initial_state().keypad,
                cpu.i == 0,
                cpu.pc == PROGRAM_START,
                cpu.sp == 0,
                cpu.delay_timer == 0,
                cpu.sound_timer == 0,
                forall|j: int| 0 <= j < k ==> cpu.ram@[j] == font()[j],
                forall|j: int| k <= j < RAM_SIZE ==> cpu.ram@[j] == 0,
            decreases FONTSET_SIZE - k,
        {
            cpu.ram[k] = font_bytes[k];
            k = k + 1;
        }
        assert(cpu@ =~= initial_state());
        cpu
    }

    /// Copy a program image into memory at `0x200`; memory outside the image
    /// is left as it was.
    pub fn load_rom(&mut self, rom: &[u8])
        requires
            rom@.len() <= RAM_SIZE - PROGRAM_START,
        ensures
            final(self)@ == with_program(old(self)@, rom@),
    {
        let mut k: usize = 0;
        while k < rom.len()
            invariant
                rom@.len() <= RAM_SIZE - PROGRAM_START,
                k <= rom@.len(),
                self@ == (CpuState { ram: self.ram@, ..old(self)@ }),
                forall|j: int|
                    0 <= j < RAM_SIZE ==> self.ram@[j] == (if PROGRAM_START <= j < PROGRAM_START + k {
                        rom@[j - PROGRAM_START]
                    } else {
                        old(self).ram@[j]
                    }),
            decreases rom@.len() - k,
        {
            self.ram[0x200 + k] = rom[k];
            k = k + 1;
        }
        assert(self@ =~= with_program(old(self)@, rom@));
    }

    /// Read the instruction at `pc` (high byte first) and move `pc` past it.
    pub fn fetch(&mut self) -> (opcode: u16)
        requires
            fetch_ok(old(self)@),
        ensures
            opcode == opcode_at(old(self)@),
            final(self)@ == advance(old(self)@),
    {
        let hi = self.ram[self.pc as usize] as u16;
        let lo = self.ram[(self.pc + 1) as usize] as u16;
        let opcode = (hi << 8) | lo;
        assert(hi < 256 && lo < 256 ==> (hi << 8) | lo == hi * 256 + lo) by (bit_vector);
        self.pc += 2;
        opcode
    }

    /// Count both timers down by one, stopping at zero.
    pub fn update_timers(&mut self)
        ensures
            final(self)@ == tick_timers(old(self)@),
    {
        if self.delay_timer > 0 {
            self.delay_timer -= 1;
        }
        if self.sound_timer > 0 {
            self.sound_timer -= 1;
        }
    }

    /// `00E0`: clear the screen.
    fn op_00e0(&mut self)
        ensures
            final(self)@ == clear_screen(old(self)@),
    {
        self.display = [0u8; DISPLAY_SIZE];
        assert(self@ =~= clear_screen(old(self)@));
    }

    /// `00EE`: return from a subroutine.
    pub fn op_00ee(&mut self)
        requires
            1 <= old(self).sp <= 16,
        ensures
            final(self)@ == return_from_call(old(self)@),
    {
        self.sp -= 1;
        self.pc = self.stack[self.sp as usize];
    }

    /// `1NNN`: jump to `nnn`.
    fn op_1nnn(&mut self, nnn: u16)
        ensures
            final(self)@ == jump(old(self)@, nnn),
    {
        self.pc = nnn;
    }

    /// `2NNN`: call the subroutine at `nnn`.
    pub fn op_2nnn(&mut self, nnn: u16)
        requires
            old(self).sp < 16,
        ensures
            final(self)@ == call(old(self)@, nnn),
    {
        self.stack[self.sp as usize] = self.pc;
        self.sp += 1;
        self.pc = nnn;
    }

    /// `3XNN`: skip the next instruction if `VX == nn`.
    fn op_3xnn(&mut self, x: usize, nn: u8)
        requires
            x < 16,
            old(self).v@[x as int] == nn ==> old(self).pc + 2 <= u16::MAX,
        ensures
            final(self)@ == skip_if(old(self)@, old(self).v@[x as int] == nn),
    {
        if self.v[x] == nn {
            self.pc += 2
        }
    }

    /// `4XNN`: skip the next instruction if `VX != nn`.
    fn op_4xnn(&mut self, x: usize, nn: u8)
        requires
            x < 16,
            old(self).v@[x as int] != nn ==> old(self).pc + 2 <= u16::MAX,
        ensures
            final(self)@ == skip_if(old(self)@, old(self).v@[x as int] != nn),
    {
        if self.v[x] != nn {
            self.pc += 2
        }
    }

    /// `6XNN`: `VX = nn`.
    fn op_6xnn(&mut self, x: usize, nn: u8)
        requires
            x < 16,
        ensures
            final(self)@ == set_reg(old(self)@, x as int, nn),
    {
        self.v[x] = nn;
    }

    /// `7XNN`: `VX += nn`, wrapping, `VF` untouched.
    fn op_7xnn(&mut self, x: usize, nn: u8)
        requires
            x < 16,
        ensures
            final(self)@ == set_reg(
                old(self)@,
                x as int,
                ((old(self).v@[x as int] + nn) % 256) as u8,
            ),
    {
        self.v[x] = self.v[x].wrapping_add(nn);
    }

    /// `8XY0`: `VX = VY`.
    fn op_8xy0(&mut self, x: usize, y: usize)
        requires
            x < 16,
            y < 16,
        ensures
            final(self)@ == set_reg(old(self)@, x as int, old(self).v@[y as int]),
    {
        self.v[x] = self.v[y];
    }

    /// `8XY4`: `VX += VY`, `VF` = carry.
    fn op_8xy4(&mut self, x: usize, y: usize)
        requires
            x < 16,
            y < 16,
        ensures
            final(self)@ == add_regs(old(self)@, x as int, y as int),
    {
        let val = self.v[x].wrapping_add(self.v[y]);
        let overflow = self.v[x] as u16 + self.v[y] as u16 > 255;
        self.v[x] = val;
        self.v[0xF] = if overflow { 1 } else { 0 };
    }

    /// `8XY5`: `VX -= VY`, `VF` = no borrow.
    fn op_8xy5(&mut self, x: usize, y: usize)
        requires
            x < 16,
            y < 16,
        ensures
            final(self)@ == sub_regs(old(self)@, x as int, y as int),
    {
        let val = self.v[x].wrapping_sub(self.v[y]);
        let borrow = self.v[x] < self.v[y];
        self.v[x] = val;
        self.v[0xF] = if !borrow { 1 } else { 0 }
    }

    /// `8XY6`: shift `VX` right, the dropped bit into `VF`.
    fn op_8xy6(&mut self, x: usize, _y: usize)
        requires
            x < 16,
        ensures
            final(self)@ == shift_right(old(self)@, x as int),
    {
        let b = self.v[x];
        assert(b & 0x1 == b % 2) by (bit_vector);
        self.v[0xF] = self.v[x] & 0x1;
        let c = self.v[x];
        assert(c >> 1 == c / 2) by (bit_vector);
        self.v[x] >>= 1;
    }

    /// `8XY7`: `VX = VY - VX`, `VF` = no borrow.
    fn op_8xy7(&mut self, x: usize, y: usize)
        requires
            x < 16,
            y < 16,
        ensures
            final(self)@ == subn_regs(old(self)@, x as int, y as int),
    {
        let val = self.v[y].wrapping_sub(self.v[x]);
        let borrow = self.v[y] < self.v[x];
        self.v[x] = val;
        self.v[0xF] = if !borrow { 1 } else { 0 };
    }

    /// `8XYE`: shift `VX` left, the dropped bit into `VF`.
    fn op_8xye(&mut self, x: usize, _y: usize)
        requires
            x < 16,
        ensures
            final(self)@ == shift_left(old(self)@, x as int),
    {
        let b = self.v[x];
        assert((b & 0x80) >> 7 == b / 128) by (bit_vector);
        self.v[0xF] = (self.v[x] & 0x80) >> 7;
        let c = self.v[x];
        assert(c << 1 == ((c * 2) % 256) as u8) by (bit_vector);
        self.v[x] <<= 1;
    }

    /// `ANNN`: `I = nnn`.
    fn op_annn(&mut self, nnn: u16)
        ensures
            final(self)@ == (CpuState { i: nnn, ..old(self)@ }),
    {
        self.i = nnn;
    }

    /// `CXNN` with the random byte given: `VX = rnd & nn`.
    pub fn op_cxnn_with(&mut self, x: usize, nn: u8, rnd: u8)
        requires
            x < 16,
        ensures
            final(self)@ == set_reg(old(self)@, x as int, rnd & nn),
    {
        self.v[x] = rnd & nn;
    }

    /// `CXNN`: `VX` = a random byte masked by `nn`; whatever byte came back,
    /// the result is that byte masked by `nn`.
    fn op_cxnn(&mut self, x: usize, nn: u8)
        requires
            x < 16,
        ensures
            exists|rnd: u8| final(self)@ == set_reg(old(self)@, x as int, rnd & nn),
    {
        let random = random_byte();
        self.op_cxnn_with(x, nn, random);
        assert(self@ == set_reg(old(self)@, x as int, random & nn));
    }

    /// `FX29`: point `I` at the font glyph of digit `VX`.
    fn op_fx29(&mut self, x: usize)
        requires
            x < 16,
        ensures
            final(self)@ == (CpuState { i: (old(self).v@[x as int] * 5) as u16, ..old(self)@ }),
    {
        let digit = self.v[x] as u16;
        self.i = digit * 5;
    }

    /// `FX33`: store the decimal digits of `VX` at `I`, `I+1`, `I+2`.
    fn op_fx33(&mut self, x: usize)
        requires
            x < 16,
            old(self).i + 2 < RAM_SIZE,
        ensures
            final(self)@ == store_bcd(old(self)@, x as int),
    {
        let value = self.v[x];
        self.ram[self.i as usize] = value / 100;
        self.ram[(self.i + 1) as usize] = (value / 10) % 10;
        self.ram[(self.i + 2) as usize] = value % 10;
        assert(self@ =~= store_bcd(old(self)@, x as int));
    }

    /// `FX55`: store `V0`..=`VX` at `I`.
    pub fn op_fx55(&mut self, x: usize)
        requires
            x < 16,
            old(self).i + x < RAM_SIZE,
        ensures
            final(self)@ == store_regs(old(self)@, x as int),
    {
        let mut k: usize = 0;
        while k <= x
            invariant
                x < 16,
                k <= x + 1,
                old(self).i + x < RAM_SIZE,
                self@ == (CpuState { ram: self.ram@, ..old(self)@ }),
                forall|j: int|
                    0 <= j < RAM_SIZE ==> self.ram@[j] == (if old(self).i <= j < old(self).i + k {
                        old(self).v@[j - old(self).i]
                    } else {
                        old(self).ram@[j]
                    }),
            decreases x + 1 - k,
        {
            self.ram[(self.i + k as u16) as usize] = self.v[k];
            k = k + 1;
        }
        assert(self@ =~= store_regs(old(self)@, x as int));
    }

    /// `FX65`: load `V0`..=`VX` from `I`.
    pub fn op_fx65(&mut self, x: usize)
        requires
            x < 16,
            old(self).i + x < RAM_SIZE,
        ensures
            final(self)@ == load_regs(old(self)@, x as int),
    {
        let mut k: usize = 0;
        while k <= x
            invariant
                x < 16,
                k <= x + 1,
                old(self).i + x < RAM_SIZE,
                self@ == (CpuState { v: self.v@, ..old(self)@ }),
                forall|j: int|
                    0 <= j < 16 ==> self.v@[j] == (if j < k {
                        old(self).ram@[old(self).i + j]
                    } else {
                        old(self).v@[j]
                    }),
            decreases x + 1 - k,
        {
            self.v[k] = self.ram[(self.i + k as u16) as usize];
            k = k + 1;
        }
        assert(self@ =~= load_regs(old(self)@, x as int));
    }

    /// `DXYN`: XOR the `height`-row sprite at `I` onto the screen at
    /// (`VX`, `VY`), wrapping around the edges; `VF` = a lit pixel went dark.
    /// Up to 32 rows (a screen's height) are drawn, each on its own screen
    /// row; `tick` passes a nibble.
    pub fn op_dxyn(&mut self, x: usize, y: usize, height: usize)
        requires
            x < 16,
            y < 16,
            height <= 32,
            height == 0 || old(self).i + height <= RAM_SIZE,
        ensures
            final(self)@ == draw(old(self)@, x as int, y as int, height as int),
    {
        let ghost s0 = self@;
        let ghost vx = s0.v[x as int];
        let ghost vy = s0.v[y as int];
        let ghost n = height as int;
        let x_pos = (self.v[x] as usize) % 64;
        let y_pos = (self.v[y] as usize) % 32;
        self.v[0xF] = 0;
        assert(self.display@ =~= partial_display(s0, vx, vy, n, 0, 0));
        for row in 0..height
            invariant
                height <= 32,
                height == 0 || s0.i + height <= RAM_SIZE,
                n == height,
                well_sized(s0),
                x_pos == vx % 64,
                y_pos == vy % 32,
                self@ == (CpuState { display: self.display@, v: self.v@, ..s0 }),
                self.display@ == partial_display(s0, vx, vy, n, row as int, 0),
                self.v@ == s0.v.update(
                    15,
                    if partial_collision(s0, vx, vy, n, row as int, 0) { 1u8 } else { 0u8 },
                ),
        {
            let sprite_byte = self.ram[(self.i + row as u16) as usize];
            for col in 0..8usize
                invariant
                    height <= 32,
                    row < height,
                    height == 0 || s0.i + height <= RAM_SIZE,
                    n == height,
                    well_sized(s0),
                    x_pos == vx % 64,
                    y_pos == vy % 32,
                    sprite_byte == s0.ram[s0.i + row],
                    self@ == (CpuState { display: self.display@, v: self.v@, ..s0 }),
                    self.display@ == partial_display(s0, vx, vy, n, row as int, col as int),
                    self.v@ == s0.v.update(
                        15,
                        if partial_collision(s0, vx, vy, n, row as int, col as int) {
                            1u8
                        } else {
                            0u8
                        },
                    ),
            {
                proof {
                    lemma_draw_cell(s0, vx, vy, n, row as int, col as int);
                }
                let ghost idx0 = cell_index(vx, vy, row as int, col as int);
                let mask: u8 = 0x80 >> col;
                assert(mask == 0x80u8 >> (col as u8)) by (bit_vector)
                    requires
                        mask == 0x80u8 >> col,
                        col < 8,
                ;
                if (sprite_byte & mask) != 0 {
                    assert(sprite_hits(s0, vx, vy, n, idx0));
                    let sx = (x_pos + col) % 64;
                    let sy = (y_pos + row) % 32;
                    let index = sy * 64 + sx;
                    assert(index == cell_index(vx, vy, row as int, col as int));
                    assert(self.display@[index as int] == s0.display[idx0]);
                    if self.display[index] == 1 {
                        self.v[0xF] = 1;
                        self.display[index] = 0;
                    } else {
                        self.display[index] = 1
                    }
                } else {
                    assert(!sprite_hits(s0, vx, vy, n, idx0));
                }
            }
            proof {
                lemma_draw_row(s0, vx, vy, n, row as int);
            }
        }
        proof {
            lemma_draw_done(s0, x as int, y as int, n);
        }
        assert(self@ =~= draw(s0, x as int, y as int, n));
    }

    /// Whether the next `tick` stays within the machine's bounds (see
    /// `can_step`); `tick` may only be called when this holds.
    pub fn can_tick(&self) -> (ok: bool)
        ensures
            ok == can_step(self@),
    {
        if self.pc as usize + 1 >= RAM_SIZE {
            return false;
        }
        let hi = self.ram[self.pc as usize] as u16;
        let lo = self.ram[(self.pc + 1) as usize] as u16;
        let opcode = (hi << 8) | lo;
        assert(hi < 256 && lo < 256 ==> (hi << 8) | lo == hi * 256 + lo) by (bit_vector);
        let (g, x, y, n) = decode(opcode);
        let next_pc = self.pc as u32 + 2;
        if opcode == 0x00EE {
            1 <= self.sp && self.sp <= 16
        } else if g == 2 {
            self.sp < 16
        } else if g == 3 || g == 4 {
            next_pc + 2 <= 0xFFFF
        } else if g == 0xD {
            n == 0 || self.i as usize + n as usize <= RAM_SIZE
        } else if g == 0xE && ((y == 9 && n == 0xE) || (y == 0xA && n == 1)) {
            self.v[x as usize] < 16 && next_pc + 2 <= 0xFFFF
        } else if g == 0xF && y == 3 && n == 3 {
            (self.i as usize) + 2 < RAM_SIZE
        } else if g == 0xF && ((y == 5 && n == 5) || (y == 6 && n == 5)) {
            (self.i as usize) + (x as usize) < RAM_SIZE
        } else {
            true
        }
    }

    /// Run one machine cycle: fetch the instruction at `pc`, move past it and
    /// execute it. An opcode the interpreter does not implement is handed
    /// back as `Step::Unknown` and changes nothing else.
    pub fn tick(&mut self) -> (outcome: Step)
        requires
            can_step(old(self)@),
        ensures
            exists|rnd: u8| final(self)@ == step(old(self)@, rnd),
            !is_random_op(opcode_at(old(self)@)) ==> final(self)@ == step(old(self)@, 0),
            outcome == (if is_known(opcode_at(old(self)@)) {
                Step::Executed
            } else {
                Step::Unknown(opcode_at(old(self)@))
            }),
    {
        let ghost s0 = self@;
        let opcode = self.fetch();
        let ghost s1 = self@;
        let (g, x, y, n) = decode(opcode);
        let nnn = opcode & 0x0FFF;
        let nn = (opcode & 0x00FF) as u8;
        assert(opcode & 0x0FFF == opcode % 4096) by (bit_vector);
        assert((opcode & 0x00FF) as u8 == (opcode % 256) as u8) by (bit_vector);
        let xs = x as usize;
        let ys = y as usize;
        let mut outcome = Step::Executed;
        match (g, x, y, n) {
            (0, 0, 0xE, 0) => self.op_00e0(),
            (0, 0, 0xE, 0xE) => self.op_00ee(),
            (1, _, _, _) => self.op_1nnn(nnn),
            (2, _, _, _) => self.op_2nnn(nnn),
            (3, _, _, _) => self.op_3xnn(xs, nn),
            (4, _, _, _) => self.op_4xnn(xs, nn),
            (6, _, _, _) => self.op_6xnn(xs, nn),
            (7, _, _, _) => self.op_7xnn(xs, nn),
            (8, _, _, 0) => self.op_8xy0(xs, ys),
            (8, _, _, 1) => self.v[xs] = self.v[xs] | self.v[ys],
            (8, _, _, 2) => self.v[xs] = self.v[xs] & self.v[ys],
            (8, _, _, 3) => self.v[xs] = self.v[xs] ^ self.v[ys],
            (8, _, _, 4) => self.op_8xy4(xs, ys),
            (8, _, _, 5) => self.op_8xy5(xs, ys),
            (8, _, _, 6) => self.op_8xy6(xs, ys),
            (8, _, _, 7) => self.op_8xy7(xs, ys),
            (8, _, _, 0xE) => self.op_8xye(xs, ys),
            (0xA, _, _, _) => self.op_annn(nnn),
            (0xC, _, _, _) => self.op_cxnn(xs, nn),
            (0xD, _, _, _) => self.op_dxyn(xs, ys, n as usize),
            (0xE, _, 9, 0xE) => {
                if self.keypad[self.v[xs] as usize] {
                    self.pc += 2
                }
            },
            (0xE, _, 0xA, 1) => {
                if !self.keypad[self.v[xs] as usize] {
                    self.pc += 2
                }
            },
            (0xF, _, 0, 7) => self.v[xs] = self.delay_timer,
            (0xF, _, 1, 5) => self.delay_timer = self.v[xs],
            (0xF, _, 1, 8) => self.sound_timer = self.v[xs],
            (0xF, _, 2, 9) => self.op_fx29(xs),
            (0xF, _, 3, 3) => self.op_fx33(xs),
            (0xF, _, 5, 5) => self.op_fx55(xs),
            (0xF, _, 6, 5) => self.op_fx65(xs),
            _ => outcome = Step::Unknown(opcode),
        }
        proof {
            if is_random_op(opcode) {
                let rnd = choose|rnd: u8| self@ == set_reg(s1, x as int, rnd & nn);
                assert(self@ == execute(s1, opcode, rnd));
                assert(self@ == step(s0, rnd));
            } else {
                assert(self@ == execute(s1, opcode, 0));
                assert(self@ == step(s0, 0));
            }
        }
        outcome
    }
}

impl Cpu {
    /// One displayed frame: up to `CYCLES_PER_FRAME` cycles, then one timer
    /// update. The unknown opcodes met are handed back, in order, and so is
    /// whether the frame ran to its end. It stops early, before the timer
    /// update, at the first cycle that would leave the machine's bounds
    /// (where `tick` may not be called).
    pub fn run_frame(&mut self) -> (r: (Vec<u16>, bool))
        ensures
            exists|rnds: Seq<u8>|
                {
                    &&& cycles_ok(old(self)@, rnds)
                    &&& r.0@ == run_cycles(old(self)@, rnds).1
                    &&& r.1 ==> rnds.len() == CYCLES_PER_FRAME && final(self)@ == tick_timers(
                        run_cycles(old(self)@, rnds).0,
                    )
                    &&& !r.1 ==> rnds.len() < CYCLES_PER_FRAME && final(self)@ == run_cycles(
                        old(self)@,
                        rnds,
                    ).0 && !can_step(final(self)@)
                },
    {
        let ghost s0 = self@;
        let ghost mut rnds: Seq<u8> = Seq::empty();
        let mut unknown: Vec<u16> = Vec::new();
        let mut k: usize = 0;
        while k < CYCLES_PER_FRAME
            invariant
                k <= CYCLES_PER_FRAME,
                s0 == old(self)@,
                rnds.len() == k,
                cycles_ok(s0, rnds),
                self@ == run_cycles(s0, rnds).0,
                unknown@ == run_cycles(s0, rnds).1,
            decreases CYCLES_PER_FRAME - k,
        {
            if !self.can_tick() {
                assert(cycles_ok(s0, rnds) && rnds.len() < CYCLES_PER_FRAME);
                return (unknown, false);
            }
            let ghost before = self@;
            let outcome = self.tick();
            proof {
                let rnd = if is_random_op(opcode_at(before)) {
                    choose|rnd: u8| self@ == step(before, rnd)
                } else {
                    0u8
                };
                let next = rnds.push(rnd);
                assert(next.drop_last() =~= rnds);
                assert(self@ == step(before, rnd));
                rnds = next;
            }
            match outcome {
                Step::Unknown(op) => unknown.push(op),
                Step::Executed => {},
            }
            k = k + 1;
        }
        self.update_timers();
        (unknown, true)
    }
}

} // verus!
