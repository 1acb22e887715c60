//! The machine itself: registers, memory, call stack, timers, framebuffer,
//! key state, and the fetch-decode-execute cycle over them.
//!
//! Address policy: every address used to index `ram` is reduced modulo 4096
//! before use, and the program counter wraps modulo 65536; pushing a
//! seventeenth return address or returning with an empty call stack is a
//! fault that leaves the machine unchanged.
use vstd::prelude::*;

use rand::Rng;

use crate::keypad::KeyStroke;

verus! {

/// Relies on `rand::Rng::gen` with the standard distribution, which is
/// uniform over all values of `u8`: a random byte from the thread-local
/// generator. Nothing can be promised of a random draw.
#[verifier::external_body]
fn random_byte() -> u8 {
    let mut rng = rand::thread_rng();
    rng.gen()
}

/// A fatal condition raised by `tick` or `load_program`; the machine is left
/// exactly as it was.
#[derive(Debug, Clone, Copy, PartialEq, Eq)]
pub enum Fault {
    StackOverflow,
    StackUnderflow,
    ProgramTooLarge,
}

/// All architectural state of the interpreter.
///
/// `regs[0xF]` doubles as the carry/borrow/collision flag and is overwritten
/// as a side effect of the arithmetic, shift and draw instructions.
#[verifier::ext_equal]
#[derive(Debug)]
pub struct CPU {
    pub regs: [u8; 16],
    pub ram: [u8; 4096],
    pub display: [[u8; 64]; 32],
    pub pc: u16,
    pub index_reg: u16,
    pub stack: Vec<u16>,
    pub delay_timer: u8,
    pub sound_timer: u8,
    pub key_pressed: [u8; 16],
}

/// The pixel at row `r`, column `c`; every cell holds 0 or 1.
pub open spec fn pix(c: CPU, r: int, col: int) -> u8 {
    c.display@[r]@[col]
}

/// XOR compositing of two single-bit pixel values.
pub open spec fn pix_xor(a: u8, b: u8) -> u8 {
    if b == 1 {
        if a == 1 {
            0u8
        } else {
            1u8
        }
    } else {
        a
    }
}

pub open spec fn wf_display(c: CPU) -> bool {
    forall|r: int, col: int| 0 <= r < 32 && 0 <= col < 64 ==> #[trigger] pix(c, r, col) <= 1
}

pub open spec fn wf_keys(c: CPU) -> bool {
    forall|k: int| 0 <= k < 16 ==> #[trigger] c.key_pressed@[k] <= 1
}

impl CPU {
    /// The machine's invariant: the call stack never exceeds 16 return
    /// addresses, framebuffer cells are single bits, key cells are single bits.
    pub open spec fn wf(self) -> bool {
        &&& self.stack@.len() <= 16
        &&& wf_display(self)
        &&& wf_keys(self)
    }
}

// Frame conditions: which parts of the machine an operation leaves alone.

pub open spec fn same_mem(a: CPU, b: CPU) -> bool {
    &&& b.ram == a.ram
    &&& b.display == a.display
}

pub open spec fn same_ctrl(a: CPU, b: CPU) -> bool {
    &&& b.pc == a.pc
    &&& b.stack == a.stack
    &&& b.index_reg == a.index_reg
}

pub open spec fn same_io(a: CPU, b: CPU) -> bool {
    &&& b.delay_timer == a.delay_timer
    &&& b.sound_timer == a.sound_timer
    &&& b.key_pressed == a.key_pressed
}

/// Only the general-purpose registers may differ.
pub open spec fn only_regs(a: CPU, b: CPU) -> bool {
    same_mem(a, b) && same_ctrl(a, b) && same_io(a, b)
}

/// Only the program counter may differ.
pub open spec fn only_pc(a: CPU, b: CPU) -> bool {
    &&& b.regs == a.regs
    &&& same_mem(a, b)
    &&& same_io(a, b)
    &&& b.stack == a.stack
    &&& b.index_reg == a.index_reg
}

/// Only the index register may differ.
pub open spec fn only_index(a: CPU, b: CPU) -> bool {
    &&& b.regs == a.regs
    &&& same_mem(a, b)
    &&& same_io(a, b)
    &&& b.pc == a.pc
    &&& b.stack == a.stack
}

/// Only the program counter and the call stack may differ.
pub open spec fn only_pc_stack(a: CPU, b: CPU) -> bool {
    &&& b.regs == a.regs
    &&& same_mem(a, b)
    &&& same_io(a, b)
    &&& b.index_reg == a.index_reg
}

/// Only main memory may differ.
pub open spec fn only_ram(a: CPU, b: CPU) -> bool {
    &&& b.regs == a.regs
    &&& b.display == a.display
    &&& same_ctrl(a, b)
    &&& same_io(a, b)
}

/// Only the framebuffer may differ.
pub open spec fn only_display(a: CPU, b: CPU) -> bool {
    &&& b.regs == a.regs
    &&& b.ram == a.ram
    &&& same_ctrl(a, b)
    &&& same_io(a, b)
}

/// Only the framebuffer and the registers may differ.
pub open spec fn only_display_regs(a: CPU, b: CPU) -> bool {
    &&& b.ram == a.ram
    &&& same_ctrl(a, b)
    &&& same_io(a, b)
}

/// Only the two timers may differ.
pub open spec fn only_timers(a: CPU, b: CPU) -> bool {
    &&& b.regs == a.regs
    &&& same_mem(a, b)
    &&& same_ctrl(a, b)
    &&& b.key_pressed == a.key_pressed
}

/// Only the key bitmask may differ.
pub open spec fn only_keys(a: CPU, b: CPU) -> bool {
    &&& b.regs == a.regs
    &&& same_mem(a, b)
    &&& same_ctrl(a, b)
    &&& b.delay_timer == a.delay_timer
    &&& b.sound_timer == a.sound_timer
}

/// A 16-bit value reduced to the range of `u16` (addresses and the program
/// counter wrap modulo 65536).
pub open spec fn wrap16(v: int) -> u16 {
    (v % 0x10000) as u16
}

// Per-instruction effects, each relating the machine before the instruction
// to the machine after it.

/// Load-immediate: `regs[x] = nn`.
pub open spec fn set_reg_rel(pre: CPU, post: CPU, x: int, nn: u8) -> bool {
    &&& only_regs(pre, post)
    &&& post.regs@ == pre.regs@.update(x, nn)
}

/// Add-immediate: wrapping, the flag register is not touched.
pub open spec fn add_val_rel(pre: CPU, post: CPU, x: int, val: u8) -> bool {
    &&& only_regs(pre, post)
    &&& post.regs@ == pre.regs@.update(x, ((pre.regs@[x] + val) % 256) as u8)
}

/// Register copy: `regs[x] = regs[y]`.
pub open spec fn ld_rr_rel(pre: CPU, post: CPU, x: int, y: int) -> bool {
    &&& only_regs(pre, post)
    &&& post.regs@ == pre.regs@.update(x, pre.regs@[y])
}

pub open spec fn or_rel(pre: CPU, post: CPU, x: int, y: int) -> bool {
    &&& only_regs(pre, post)
    &&& post.regs@ == pre.regs@.update(x, pre.regs@[x] | pre.regs@[y])
}

pub open spec fn and_rel(pre: CPU, post: CPU, x: int, y: int) -> bool {
    &&& only_regs(pre, post)
    &&& post.regs@ == pre.regs@.update(x, pre.regs@[x] & pre.regs@[y])
}

pub open spec fn xor_rel(pre: CPU, post: CPU, x: int, y: int) -> bool {
    &&& only_regs(pre, post)
    &&& post.regs@ == pre.regs@.update(x, pre.regs@[x] ^ pre.regs@[y])
}

/// Add-registers: the flag becomes 1 exactly when the unsigned sum overflows
/// 8 bits, and `regs[x]` takes the wrapped sum (the sum wins when `x == 0xF`).
pub open spec fn add_rr_rel(pre: CPU, post: CPU, x: int, y: int) -> bool {
    let sum = pre.regs@[x] + pre.regs@[y];
    &&& only_regs(pre, post)
    &&& post.regs@ == pre.regs@.update(15, if sum > 255 { 1u8 } else { 0u8 }).update(
        x,
        (sum % 256) as u8,
    )
}

/// Subtract: the flag becomes 1 exactly when `regs[x] > regs[y]` before the
/// operation (no borrow), and `regs[x]` takes the wrapping difference.
pub open spec fn sub_rr_rel(pre: CPU, post: CPU, x: int, y: int) -> bool {
    let diff = pre.regs@[x] - pre.regs@[y];
    &&& only_regs(pre, post)
    &&& post.regs@ == pre.regs@.update(
        15,
        if pre.regs@[x] > pre.regs@[y] { 1u8 } else { 0u8 },
    ).update(x, (diff % 256) as u8)
}

/// Subtract-reversed ("subtract not borrow"): the flag becomes 1 exactly when
/// `regs[y] > regs[x]`, and `regs[x]` takes the wrapping `regs[x] - regs[y]`.
pub open spec fn subn_rel(pre: CPU, post: CPU, x: int, y: int) -> bool {
    let diff = pre.regs@[x] - pre.regs@[y];
    &&& only_regs(pre, post)
    &&& post.regs@ == pre.regs@.update(
        15,
        if pre.regs@[y] > pre.regs@[x] { 1u8 } else { 0u8 },
    ).update(x, (diff % 256) as u8)
}

/// Shift-right: the flag captures the bit shifted out (the old low bit),
/// then `regs[x]` takes the old value halved.
pub open spec fn shr_rel(pre: CPU, post: CPU, x: int) -> bool {
    &&& only_regs(pre, post)
    &&& post.regs@ == pre.regs@.update(15, (pre.regs@[x] % 2) as u8).update(
        x,
        (pre.regs@[x] / 2) as u8,
    )
}

/// Shift-left: the flag captures the bit shifted out (the old high bit),
/// then `regs[x]` takes the old value doubled modulo 256.
pub open spec fn shl_rel(pre: CPU, post: CPU, x: int) -> bool {
    &&& only_regs(pre, post)
    &&& post.regs@ == pre.regs@.update(15, (pre.regs@[x] / 128) as u8).update(
        x,
        ((pre.regs@[x] * 2) % 256) as u8,
    )
}

/// Read the delay timer into `regs[x]`.
pub open spec fn ld_dt_rel(pre: CPU, post: CPU, x: int) -> bool {
    &&& only_regs(pre, post)
    &&& post.regs@ == pre.regs@.update(x, pre.delay_timer)
}

/// Jump (1nnn): `pc = addr`.
pub open spec fn jump_rel(pre: CPU, post: CPU, addr: u16) -> bool {
    &&& only_pc(pre, post)
    &&& post.pc == addr
}

/// Jump-with-offset (Bnnn): `pc = regs[0] + addr`, wrapping.
pub open spec fn jump0_rel(pre: CPU, post: CPU, addr: u16) -> bool {
    &&& only_pc(pre, post)
    &&& post.pc == wrap16(pre.regs@[0] + addr)
}

/// Call (2nnn): push the current program counter, then jump.
pub open spec fn call_rel(pre: CPU, post: CPU, addr: u16) -> bool {
    &&& only_pc_stack(pre, post)
    &&& post.stack@ == pre.stack@.push(pre.pc)
    &&& post.pc == addr
}

/// Return (00EE): pop the top return address into the program counter.
pub open spec fn ret_rel(pre: CPU, post: CPU) -> bool {
    &&& only_pc_stack(pre, post)
    &&& post.stack@ == pre.stack@.drop_last()
    &&& post.pc == pre.stack@.last()
}

/// A conditional skip: the program counter advances by an extra 2 exactly
/// when `cond` holds.
pub open spec fn skip_rel(pre: CPU, post: CPU, cond: bool) -> bool {
    &&& only_pc(pre, post)
    &&& post.pc == (if cond {
        wrap16(pre.pc + 2)
    } else {
        pre.pc
    })
}

/// The key cell an Ex-family instruction consults: the key named by
/// `regs[x]`, reduced modulo 16.
pub open spec fn key_of_reg(pre: CPU, x: int) -> u8 {
    pre.key_pressed@[pre.regs@[x] as int % 16]
}

/// Set-index (Annn): `index_reg = addr`.
pub open spec fn set_index_rel(pre: CPU, post: CPU, addr: u16) -> bool {
    &&& only_index(pre, post)
    &&& post.index_reg == addr
}

/// Add-register-to-index (Fx1E): 16-bit wrapping.
pub open spec fn add_i_rel(pre: CPU, post: CPU, x: int) -> bool {
    &&& only_index(pre, post)
    &&& post.index_reg == wrap16(pre.index_reg + pre.regs@[x])
}

/// Font-glyph-address (Fx29): each glyph occupies 5 bytes, and the font
/// table starts at address 0.
pub open spec fn ld_font_rel(pre: CPU, post: CPU, x: int) -> bool {
    &&& only_index(pre, post)
    &&& post.index_reg == pre.regs@[x] * 5
}

/// Set the delay timer from `regs[x]` (Fx15).
pub open spec fn ld_reg_to_dt_rel(pre: CPU, post: CPU, x: int) -> bool {
    &&& only_timers(pre, post)
    &&& post.delay_timer == pre.regs@[x]
    &&& post.sound_timer == pre.sound_timer
}

/// Set the sound timer from `regs[x]` (Fx18).
pub open spec fn ld_st_rel(pre: CPU, post: CPU, x: int) -> bool {
    &&& only_timers(pre, post)
    &&& post.sound_timer == pre.regs@[x]
    &&& post.delay_timer == pre.delay_timer
}

/// One 60 Hz timer step: a non-zero timer decrements, a zero timer stays at
/// zero.
pub open spec fn dec_toward_zero(t: u8) -> u8 {
    if t > 0 {
        (t - 1) as u8
    } else {
        0u8
    }
}

/// BCD-store (Fx33): the hundreds, tens and units digits of `regs[x]` land
/// in the three bytes starting at the index register.
pub open spec fn bcd_rel(pre: CPU, post: CPU, x: int) -> bool {
    let v = pre.regs@[x];
    let a0 = pre.index_reg as int % 4096;
    let a1 = (pre.index_reg + 1) % 4096;
    let a2 = (pre.index_reg + 2) % 4096;
    &&& only_ram(pre, post)
    &&& post.ram@ == pre.ram@.update(a0, (v / 100) as u8).update(a1, ((v % 100) / 10) as u8,
    ).update(a2, (v % 10) as u8)
}

/// Register-block store (Fx55): registers 0 through `x` inclusive go to the
/// `x + 1` bytes starting at the index register; all other memory is kept.
pub open spec fn store_rel(pre: CPU, post: CPU, x: int) -> bool {
    &&& only_ram(pre, post)
    &&& forall|j: int|
        0 <= j <= x ==> post.ram@[#[trigger] ((pre.index_reg + j) % 4096)] == pre.regs@[j]
    &&& forall|a: int|
        0 <= a < 4096 && (forall|j: int| 0 <= j <= x ==> a != #[trigger] ((pre.index_reg + j)
            % 4096)) ==> #[trigger] post.ram@[a] == pre.ram@[a]
}

/// Register-block load (Fx65): registers 0 through `x` inclusive are read
/// from the `x + 1` bytes starting at the index register; the higher
/// registers are kept.
pub open spec fn load_rel(pre: CPU, post: CPU, x: int) -> bool {
    &&& only_regs(pre, post)
    &&& forall|j: int|
        0 <= j <= x ==> post.regs@[j] == pre.ram@[#[trigger] ((pre.index_reg + j) % 4096)]
    &&& forall|j: int| x < j < 16 ==> post.regs@[j] == pre.regs@[j]
}

/// Clear-screen (00E0): every pixel goes dark.
pub open spec fn cls_rel(pre: CPU, post: CPU) -> bool {
    &&& only_display(pre, post)
    &&& forall|r: int, c: int| 0 <= r < 32 && 0 <= c < 64 ==> #[trigger] pix(post, r, c) == 0u8
}

/// Random (Cxnn): some byte drawn from the machine's randomness source,
/// masked with `nn`, lands in `regs[x]`. Which byte was drawn is not
/// promised; that only bits of the mask survive is.
pub open spec fn rnd_rel(pre: CPU, post: CPU, x: int, nn: u8) -> bool {
    &&& only_regs(pre, post)
    &&& exists|b: u8| post.regs@ == pre.regs@.update(x, #[trigger] (b & nn))
}

/// No key is currently held.
pub open spec fn no_key_held(c: CPU) -> bool {
    forall|k: int| 0 <= k < 16 ==> #[trigger] c.key_pressed@[k] != 1
}

/// The lowest held key index at or above `i`, or 16 when none is held.
pub open spec fn first_held_from(keys: Seq<u8>, i: int) -> int
    decreases 16 - i,
{
    if i >= 16 {
        16
    } else if keys[i] == 1 {
        i
    } else {
        first_held_from(keys, i + 1)
    }
}

proof fn lemma_first_held(keys: Seq<u8>, i: int, k: int)
    requires
        0 <= i <= k < 16,
        keys[k] == 1,
        forall|j: int| i <= j < k ==> keys[j] != 1,
    ensures
        first_held_from(keys, i) == k,
    decreases k - i,
{
    if i < k {
        lemma_first_held(keys, i + 1, k);
    }
}

/// Key-wait (Fx0A): while no key is held the program counter rewinds by 2,
/// so the same instruction is fetched again on the next step; once a key is
/// held, the lowest held key index lands in `regs[x]`.
pub open spec fn ld_key_rel(pre: CPU, post: CPU, x: int) -> bool {
    if no_key_held(pre) {
        &&& only_pc(pre, post)
        &&& post.pc == wrap16(pre.pc - 2)
    } else {
        &&& only_regs(pre, post)
        &&& post.regs@ == pre.regs@.update(x, first_held_from(pre.key_pressed@, 0) as u8)
    }
}

/// Replacing the key bitmask wholesale; any other event leaves the machine
/// untouched.
pub open spec fn set_key_rel(pre: CPU, post: CPU, key: KeyStroke) -> bool {
    match key {
        KeyStroke::Key(k) => only_keys(pre, post) && post.key_pressed@ == k@,
        _ => post == pre,
    }
}

/// Bit `b` of a sprite row byte, counting bit 0 as the leftmost pixel.
pub open spec fn bit_of(byte: u8, b: int) -> u8 {
    (byte >> ((7 - b) as u8)) & 1
}

/// Sprite cell `(i, b)` of a draw: bit `b` of the `i`-th sprite byte, read
/// from memory at the index register plus `i`, modulo 4096.
pub open spec fn spr_bit(pre: CPU, i: int, b: int) -> u8 {
    bit_of(pre.ram@[(pre.index_reg + i) % 4096], b)
}

/// The screen row that sprite row `i` lands on: per-scanline wraparound of
/// the starting row held in register `y`.
pub open spec fn draw_row(pre: CPU, y: int, i: int) -> int {
    (pre.regs@[y] + i) % 32
}

/// The screen column that sprite bit `b` lands on: per-pixel wraparound of
/// the starting column held in register `x`.
pub open spec fn draw_col(pre: CPU, x: int, b: int) -> int {
    (pre.regs@[x] + b) % 64
}

/// Sprite cell `(i, b)` is lit and lands on a lit pixel: an XOR collision.
pub open spec fn hit_at(pre: CPU, x: int, y: int, i: int, b: int) -> bool {
    spr_bit(pre, i, b) == 1 && pix(pre, draw_row(pre, y, i), draw_col(pre, x, b)) == 1
}

/// Some sprite cell strictly before position `p` (cells numbered row-major,
/// 8 to a row) collides.
pub open spec fn hit_before(pre: CPU, x: int, y: int, p: int) -> bool {
    exists|q: int| 0 <= q < p && #[trigger] hit_at(pre, x, y, q / 8, q % 8)
}

/// Pixel `(r, c)` is touched by some sprite cell strictly before position
/// `p`.
pub open spec fn covered_before(pre: CPU, x: int, y: int, p: int, r: int, c: int) -> bool {
    exists|q: int|
        #![trigger draw_row(pre, y, q / 8), draw_col(pre, x, q % 8)]
        0 <= q < p && r == draw_row(pre, y, q / 8) && c == draw_col(pre, x, q % 8)
}

/// Some cell of the `n`-row sprite collides.
pub open spec fn draw_hits(pre: CPU, x: int, y: int, n: u8) -> bool {
    hit_before(pre, x, y, 8 * n)
}

/// Pixel `(r, c)` is touched by the `n`-row sprite.
pub open spec fn draw_covered(pre: CPU, x: int, y: int, n: u8, r: int, c: int) -> bool {
    covered_before(pre, x, y, 8 * n, r, c)
}

/// Draw (Dxyn): the sprite is XOR-composited onto the framebuffer with
/// per-scanline row wraparound and per-pixel column wraparound; every other
/// pixel is kept; the flag reports whether any lit pixel was turned off.
pub open spec fn draw_rel(pre: CPU, post: CPU, x: int, y: int, n: u8) -> bool {
    &&& only_display_regs(pre, post)
    &&& post.regs@ == pre.regs@.update(
        15,
        if draw_hits(pre, x, y, n) {
            1u8
        } else {
            0u8
        },
    )
    &&& forall|i: int, b: int|
        0 <= i < n && 0 <= b < 8 ==> pix(post, draw_row(pre, y, i), draw_col(pre, x, b))
            == pix_xor(pix(pre, draw_row(pre, y, i), draw_col(pre, x, b)), #[trigger] spr_bit(
            pre,
            i,
            b,
        ))
    &&& forall|r: int, c: int|
        0 <= r < 32 && 0 <= c < 64 && !draw_covered(pre, x, y, n, r, c) ==> #[trigger] pix(
            post,
            r,
            c,
        ) == pix(pre, r, c)
}

// Decoding: five fixed bit-fields are extracted from every instruction word,
// whether or not the instruction uses them.

/// The 4-bit opcode family (bits 12-15).
pub open spec fn op_family(inst: u16) -> u16 {
    (inst & 0xF000) >> 12
}

/// The register index `x` (bits 8-11).
pub open spec fn op_x(inst: u16) -> u16 {
    (inst & 0x0F00) >> 8
}

/// The register index `y` (bits 4-7).
pub open spec fn op_y(inst: u16) -> u16 {
    (inst & 0x00F0) >> 4
}

/// The 4-bit immediate `n` (bits 0-3).
pub open spec fn op_n(inst: u16) -> u16 {
    inst & 0x000F
}

/// The 8-bit immediate `nn` (bits 0-7).
pub open spec fn op_nn(inst: u16) -> u8 {
    (inst & 0x00FF) as u8
}

/// The 12-bit address (bits 0-11).
pub open spec fn op_addr(inst: u16) -> u16 {
    inst & 0x0FFF
}

/// Every decoded field lies in its field's range.
proof fn lemma_decode_bounds(inst: u16)
    by (bit_vector)
    ensures
        (inst & 0xF000) >> 12 < 16,
        (inst & 0x0F00) >> 8 < 16,
        (inst & 0x00F0) >> 4 < 16,
        inst & 0x000F < 16,
        inst & 0x00FF < 256,
        inst & 0x0FFF < 4096,
{
}

/// A big-endian instruction word formed from two memory bytes.
pub open spec fn instr_word(hi: u8, lo: u8) -> u16 {
    ((hi as u16) << 8) | (lo as u16)
}

/// The instruction word at the program counter (addresses reduced modulo
/// 4096).
pub open spec fn instr_at(c: CPU) -> u16 {
    instr_word(c.ram@[c.pc as int % 4096], c.ram@[(c.pc + 1) % 4096])
}

/// The machine with its program counter advanced past the fetched word.
pub open spec fn advanced(c: CPU) -> CPU {
    CPU { pc: wrap16(c.pc + 2), ..c }
}

pub open spec fn is_call_op(inst: u16) -> bool {
    op_family(inst) == 2
}

pub open spec fn is_ret_op(inst: u16) -> bool {
    op_family(inst) == 0 && op_n(inst) == 0xE
}

/// The two fatal conditions of a step: a call with 16 return addresses
/// already stacked, or a return with none.
pub open spec fn step_fault(c: CPU, inst: u16) -> bool {
    ||| is_call_op(inst) && c.stack@.len() >= 16
    ||| is_ret_op(inst) && c.stack@.len() == 0
}

/// What executing the already-fetched word `inst` does to a machine whose
/// program counter has already advanced past it. Unrecognized encodings are
/// a no-op.
pub open spec fn instr_effect(pre: CPU, inst: u16, post: CPU) -> bool {
    let fam = op_family(inst);
    let x = op_x(inst) as int;
    let y = op_y(inst) as int;
    let n = op_n(inst);
    let nn = op_nn(inst);
    let addr = op_addr(inst);
    if fam == 0x0 {
        if n == 0x0 {
            cls_rel(pre, post)
        } else if n == 0xE {
            ret_rel(pre, post)
        } else {
            post == pre
        }
    } else if fam == 0x1 {
        jump_rel(pre, post, addr)
    } else if fam == 0x2 {
        call_rel(pre, post, addr)
    } else if fam == 0x3 {
        skip_rel(pre, post, pre.regs@[x] == nn)
    } else if fam == 0x4 {
        skip_rel(pre, post, pre.regs@[x] != nn)
    } else if fam == 0x5 {
        skip_rel(pre, post, pre.regs@[x] == pre.regs@[y])
    } else if fam == 0x6 {
        set_reg_rel(pre, post, x, nn)
    } else if fam == 0x7 {
        add_val_rel(pre, post, x, nn)
    } else if fam == 0x8 {
        if n == 0x0 {
            ld_rr_rel(pre, post, x, y)
        } else if n == 0x1 {
            or_rel(pre, post, x, y)
        } else if n == 0x2 {
            and_rel(pre, post, x, y)
        } else if n == 0x3 {
            xor_rel(pre, post, x, y)
        } else if n == 0x4 {
            add_rr_rel(pre, post, x, y)
        } else if n == 0x5 {
            sub_rr_rel(pre, post, x, y)
        } else if n == 0x6 {
            shr_rel(pre, post, x)
        } else if n == 0x7 {
            subn_rel(pre, post, x, y)
        } else if n == 0xE {
            shl_rel(pre, post, x)
        } else {
            post == pre
        }
    } else if fam == 0x9 {
        skip_rel(pre, post, pre.regs@[x] != pre.regs@[y])
    } else if fam == 0xA {
        set_index_rel(pre, post, addr)
    } else if fam == 0xB {
        jump0_rel(pre, post, addr)
    } else if fam == 0xC {
        rnd_rel(pre, post, x, nn)
    } else if fam == 0xD {
        draw_rel(pre, post, x, y, n as u8)
    } else if fam == 0xE {
        if n == 0xE {
            skip_rel(pre, post, key_of_reg(pre, x) == 1)
        } else if n == 0x1 {
            skip_rel(pre, post, key_of_reg(pre, x) != 1)
        } else {
            post == pre
        }
    } else {
        if nn == 0x07 {
            ld_dt_rel(pre, post, x)
        } else if nn == 0x0A {
            ld_key_rel(pre, post, x)
        } else if nn == 0x15 {
            ld_reg_to_dt_rel(pre, post, x)
        } else if nn == 0x18 {
            ld_st_rel(pre, post, x)
        } else if nn == 0x1E {
            add_i_rel(pre, post, x)
        } else if nn == 0x29 {
            ld_font_rel(pre, post, x)
        } else if nn == 0x33 {
            bcd_rel(pre, post, x)
        } else if nn == 0x55 {
            store_rel(pre, post, x)
        } else if nn == 0x65 {
            load_rel(pre, post, x)
        } else {
            post == pre
        }
    }
}

/// Two machines with the same framebuffer agree on every pixel.
pub proof fn lemma_pix_unchanged(a: CPU, b: CPU)
    requires
        b.display == a.display,
    ensures
        forall|r: int, c: int| #[trigger] pix(b, r, c) == pix(a, r, c),
{
    assert forall|r: int, c: int| #[trigger] pix(b, r, c) == pix(a, r, c) by {
        assert(pix(a, r, c) == a.display@[r]@[c]);
    };
}

/// Two machines with the same key bitmask agree on every key cell.
pub proof fn lemma_keys_unchanged(a: CPU, b: CPU)
    requires
        b.key_pressed == a.key_pressed,
    ensures
        forall|k: int| #[trigger] b.key_pressed@[k] == a.key_pressed@[k],
{
    assert forall|k: int| #[trigger] b.key_pressed@[k] == a.key_pressed@[k] by {
        assert(b.key_pressed@ == a.key_pressed@);
    };
}

/// A sprite cell's row-major position decomposes back into its row and bit.
pub proof fn lemma_cell_index(i: int, b: int)
    requires
        0 <= i,
        0 <= b < 8,
    ensures
        (8 * i + b) / 8 == i,
        (8 * i + b) % 8 == b,
{
    vstd::arithmetic::div_mod::lemma_fundamental_div_mod_converse(8 * i + b, 8, i, b);
}

/// Adding distinct offsets below the modulus to a common base yields
/// distinct residues: the address blocks the transfer and draw instructions
/// touch never alias within one instruction.
proof fn lemma_mod_add_inj(base: int, m: int, i: int, j: int)
    requires
        m > 0,
        0 <= i < m,
        0 <= j < m,
        i != j,
    ensures
        (base + i) % m != (base + j) % m,
{
    if (base + i) % m == (base + j) % m {
        vstd::arithmetic::div_mod::lemma_sub_mod_noop(base + j, base + i, m);
        vstd::arithmetic::div_mod::lemma_small_mod(0nat, m as nat);
        assert((j - i) % m == 0);
        if i < j {
            vstd::arithmetic::div_mod::lemma_small_mod((j - i) as nat, m as nat);
        } else {
            vstd::arithmetic::div_mod::lemma_mod_add_multiples_vanish(j - i, m);
            vstd::arithmetic::div_mod::lemma_small_mod((j - i + m) as nat, m as nat);
        }
    }
}

/// The built-in hexadecimal font: 16 glyphs of 5 bytes each, living at the
/// bottom of the reserved memory region, starting at address 0.
pub open spec fn spec_font() -> Seq<u8> {
    seq![
        0xF0u8, 0x90u8, 0x90u8, 0x90u8, 0xF0u8,
        0x20u8, 0x60u8, 0x20u8, 0x20u8, 0x70u8,
        0xF0u8, 0x10u8, 0xF0u8, 0x80u8, 0xF0u8,
        0xF0u8, 0x10u8, 0xF0u8, 0x10u8, 0xF0u8,
        0x90u8, 0x90u8, 0xF0u8, 0x10u8, 0x10u8,
        0xF0u8, 0x80u8, 0xF0u8, 0x10u8, 0xF0u8,
        0xF0u8, 0x80u8, 0xF0u8, 0x90u8, 0xF0u8,
        0xF0u8, 0x10u8, 0x20u8, 0x40u8, 0x40u8,
        0xF0u8, 0x90u8, 0xF0u8, 0x90u8, 0xF0u8,
        0xF0u8, 0x90u8, 0xF0u8, 0x10u8, 0xF0u8,
        0xF0u8, 0x90u8, 0xF0u8, 0x90u8, 0x90u8,
        0xE0u8, 0x90u8, 0xE0u8, 0x90u8, 0xE0u8,
        0xF0u8, 0x80u8, 0x80u8, 0x80u8, 0xF0u8,
        0xE0u8, 0x90u8, 0x90u8, 0x90u8, 0xE0u8,
        0xF0u8, 0x80u8, 0xF0u8, 0x80u8, 0xF0u8,
        0xF0u8, 0x80u8, 0xF0u8, 0x80u8, 0x80u8,
    ]
}

/// The font table as bytes, for installation into `ram` and for inspection.
pub fn font_table() -> (r: [u8; 80])
    ensures
        r@ == spec_font(),
{
    [
        0xF0, 0x90, 0x90, 0x90, 0xF0,
        0x20, 0x60, 0x20, 0x20, 0x70,
        0xF0, 0x10, 0xF0, 0x80, 0xF0,
        0xF0, 0x10, 0xF0, 0x10, 0xF0,
        0x90, 0x90, 0xF0, 0x10, 0x10,
        0xF0, 0x80, 0xF0, 0x10, 0xF0,
        0xF0, 0x80, 0xF0, 0x90, 0xF0,
        0xF0, 0x10, 0x20, 0x40, 0x40,
        0xF0, 0x90, 0xF0, 0x90, 0xF0,
        0xF0, 0x90, 0xF0, 0x10, 0xF0,
        0xF0, 0x90, 0xF0, 0x90, 0x90,
        0xE0, 0x90, 0xE0, 0x90, 0xE0,
        0xF0, 0x80, 0x80, 0x80, 0xF0,
        0xE0, 0x90, 0x90, 0x90, 0xE0,
        0xF0, 0x80, 0xF0, 0x80, 0xF0,
        0xF0, 0x80, 0xF0, 0x80, 0x80,
    ]
}

impl CPU {
    /// A fresh machine: font installed at the bottom of memory, everything
    /// else cleared, the program counter at the conventional program start,
    /// and both timers at a non-zero start value so the machine is observably
    /// running.
    pub fn init_cpu() -> (r: CPU)
        ensures
            r.wf(),
            forall|i: int| 0 <= i < 16 ==> r.regs@[i] == 0u8,
            forall|i: int| 0 <= i < 80 ==> r.ram@[i] == spec_font()[i],
            forall|i: int| 80 <= i < 4096 ==> r.ram@[i] == 0u8,
            forall|y: int, x: int| 0 <= y < 32 && 0 <= x < 64 ==> pix(r, y, x) == 0u8,
            r.pc == 0x200u16,
            r.index_reg == 0u16,
            r.stack@.len() == 0,
            r.delay_timer == 60u8,
            r.sound_timer == 60u8,
            forall|i: int| 0 <= i < 16 ==> r.key_pressed@[i] == 0u8,
    {
        let regs = [0u8; 16];
        let mut ram = [0u8; 4096];
        let font = font_table();
        let mut i: usize = 0;
        while i < 80
            invariant
                i <= 80,
                font@ == spec_font(),
                forall|j: int| 0 <= j < i ==> ram@[j] == spec_font()[j],
                forall|j: int| i <= j < 4096 ==> ram@[j] == 0u8,
            decreases 80 - i,
        {
            ram[i] = font[i];
            i += 1;
        }
        let pc: u16 = 0x200;
        let index_reg: u16 = 0;
        let stack: Vec<u16> = Vec::new();
        let delay_timer: u8 = 60;
        let sound_timer: u8 = 60;
        let display = [[0u8; 64]; 32];
        let key_pressed = [0u8; 16];

        CPU {
            regs,
            ram,
            display,
            pc,
            index_reg,
            stack,
            delay_timer,
            sound_timer,
            key_pressed,
        }
    }

    /// Read the two bytes at the program counter (big-endian, addresses
    /// reduced modulo 4096) as one instruction word.
    pub fn fetch(&self) -> (r: u16)
        ensures
            r == instr_at(*self),
    {
        let hi = self.ram[(self.pc as usize) % 4096];
        let lo = self.ram[((self.pc as usize) + 1) % 4096];
        ((hi as u16) << 8) | (lo as u16)
    }

    /// One full fetch-decode-execute step. Returns the executed instruction
    /// word for observability, or the fault (call-stack overflow or
    /// underflow) that stopped it, in which case the machine is unchanged.
    pub fn tick(&mut self) -> (r: Result<u16, Fault>)
        requires
            old(self).wf(),
        ensures
            final(self).wf(),
            ({
                let w = instr_at(*old(self));
                match r {
                    Ok(w2) => w2 == w && !step_fault(*old(self), w) && instr_effect(
                        advanced(*old(self)),
                        w,
                        *final(self),
                    ),
                    Err(f) => step_fault(*old(self), w) && *final(self) == *old(self) && f == (
                    if is_call_op(w) {
                        Fault::StackOverflow
                    } else {
                        Fault::StackUnderflow
                    }),
                }
            }),
    {
        let w = self.fetch();
        let opcode = (w & 0xF000) >> 12;
        let nib = w & 0x000F;
        if opcode == 0x2 && self.stack.len() >= 16 {
            return Err(Fault::StackOverflow);
        }
        if opcode == 0x0 && nib == 0xE && self.stack.len() == 0 {
            return Err(Fault::StackUnderflow);
        }
        let ghost pre = *self;
        self.pc = self.pc.wrapping_add(2);
        proof {
            lemma_pix_unchanged(pre, *self);
            lemma_keys_unchanged(pre, *self);
            assert(*self =~= advanced(pre));
        }
        self.execute(w);
        Ok(w)
    }

    /// Decode an instruction word into its family and operand fields and
    /// perform it. The caller has already advanced the program counter and
    /// ruled out the stack faults.
    fn execute(&mut self, inst: u16)
        requires
            old(self).wf(),
            !step_fault(*old(self), inst),
        ensures
            final(self).wf(),
            instr_effect(*old(self), inst, *final(self)),
    {
        proof {
            lemma_decode_bounds(inst);
        }
        let opcode = (inst & 0xF000) >> 12;
        let x = ((inst & 0x0F00) >> 8) as usize;
        let y = ((inst & 0x00F0) >> 4) as usize;
        let n = (inst & 0x000F) as u8;
        let nn = (inst & 0x00FF) as u8;
        let addr = inst & 0x0FFF;

        match opcode {
            0x0 => match n {
                0x0 => self.cls(),
                0xE => self.ret(),
                _ => {},
            },
            0x1 => self.jmp_to_addr(addr),
            0x2 => self.call_addr(addr),
            0x3 => self.se_byte(x, nn),
            0x4 => self.sne_byte(x, nn),
            0x5 => self.se_reg_reg(x, y),
            0x6 => self.set_reg_to_nn(x, nn),
            0x7 => self.add_val_to_reg(x, nn),
            0x8 => match n {
                0x0 => self.ld_reg_reg(x, y),
                0x1 => self.bit_or(x, y),
                0x2 => self.bit_and(x, y),
                0x3 => self.bit_xor(x, y),
                0x4 => self.add_reg_reg(x, y),
                0x5 => self.sub_reg_reg(x, y),
                0x6 => self.shr(x),
                0x7 => self.sub_not_borrow(x, y),
                0xE => self.shl(x),
                _ => {},
            },
            0x9 => self.sne_reg_reg(x, y),
            0xA => self.set_index_reg_to_addr(addr),
            0xB => self.jmp_to_addr_reg_0(addr),
            0xC => self.rnd_num(x, nn),
            0xD => self.draw(x, y, n),
            0xE => match n {
                0xE => self.skp(x),
                0x1 => self.sknp(x),
                _ => {},
            },
            0xF => match nn {
                0x07 => self.ld_dt_to_reg(x),
                0x0A => self.ld_key(x),
                0x15 => self.ld_reg_to_dt(x),
                0x18 => self.ld_st_to_reg(x),
                0x1E => self.add_i_to_reg(x),
                0x29 => self.ld_font(x),
                0x33 => self.bcd(x),
                0x55 => self.ld_reg_to_ram(x),
                0x65 => self.ld_ram_to_reg(x),
                _ => {},
            },
            _ => {},
        }
        proof {
            if self.display == old(self).display {
                lemma_pix_unchanged(*old(self), *self);
            }
            if self.key_pressed == old(self).key_pressed {
                lemma_keys_unchanged(*old(self), *self);
            }
        }
    }

    /// Load-immediate (6xnn).
    pub fn set_reg_to_nn(&mut self, x: usize, nn: u8)
        requires
            x < 16,
        ensures
            set_reg_rel(*old(self), *final(self), x as int, nn),
    {
        self.regs[x] = nn;
    }

    /// Add-immediate (7xnn): wrapping addition, no flag effect.
    pub fn add_val_to_reg(&mut self, x: usize, val: u8)
        requires
            x < 16,
        ensures
            add_val_rel(*old(self), *final(self), x as int, val),
    {
        let sum: u16 = self.regs[x] as u16 + val as u16;
        self.regs[x] = (sum % 256) as u8;
    }

    /// Register copy (8xy0).
    pub fn ld_reg_reg(&mut self, x: usize, y: usize)
        requires
            x < 16,
            y < 16,
        ensures
            ld_rr_rel(*old(self), *final(self), x as int, y as int),
    {
        self.regs[x] = self.regs[y];
    }

    /// Bitwise OR (8xy1).
    pub fn bit_or(&mut self, x: usize, y: usize)
        requires
            x < 16,
            y < 16,
        ensures
            or_rel(*old(self), *final(self), x as int, y as int),
    {
        self.regs[x] = self.regs[x] | self.regs[y];
    }

    /// Bitwise AND (8xy2).
    pub fn bit_and(&mut self, x: usize, y: usize)
        requires
            x < 16,
            y < 16,
        ensures
            and_rel(*old(self), *final(self), x as int, y as int),
    {
        self.regs[x] = self.regs[x] & self.regs[y];
    }

    /// Bitwise XOR (8xy3).
    pub fn bit_xor(&mut self, x: usize, y: usize)
        requires
            x < 16,
            y < 16,
        ensures
            xor_rel(*old(self), *final(self), x as int, y as int),
    {
        self.regs[x] = self.regs[x] ^ self.regs[y];
    }

    /// Add-registers (8xy4): wrapping sum into `regs[x]`, carry into the flag.
    pub fn add_reg_reg(&mut self, x: usize, y: usize)
        requires
            x < 16,
            y < 16,
        ensures
            add_rr_rel(*old(self), *final(self), x as int, y as int),
    {
        let sum: u16 = self.regs[x] as u16 + self.regs[y] as u16;
        self.regs[0xF] = if sum > 255 {
            1
        } else {
            0
        };
        self.regs[x] = (sum % 256) as u8;
    }

    /// Subtract (8xy5): `regs[x] - regs[y]` wrapping, no-borrow into the flag.
    pub fn sub_reg_reg(&mut self, x: usize, y: usize)
        requires
            x < 16,
            y < 16,
        ensures
            sub_rr_rel(*old(self), *final(self), x as int, y as int),
    {
        let a = self.regs[x];
        let b = self.regs[y];
        self.regs[0xF] = if a > b {
            1
        } else {
            0
        };
        let diff: u16 = (a as u16 + 256 - b as u16) % 256;
        proof {
            assert((a - b) % 256 == (a + 256 - b) % 256) by {
                vstd::arithmetic::div_mod::lemma_mod_add_multiples_vanish(a - b, 256);
            };
        }
        self.regs[x] = diff as u8;
    }

    /// Shift-right (8xy6): the old low bit goes to the flag, then the value
    /// is halved.
    pub fn shr(&mut self, x: usize)
        requires
            x < 16,
        ensures
            shr_rel(*old(self), *final(self), x as int),
    {
        let v = self.regs[x];
        assert(v & 1 == v % 2) by (bit_vector);
        assert(v >> 1 == v / 2) by (bit_vector);
        self.regs[0xF] = v & 1;
        self.regs[x] = v >> 1;
    }

    /// Subtract-reversed (8xy7): wrapping `regs[x] - regs[y]`, with the flag
    /// set exactly when `regs[y] > regs[x]`.
    pub fn sub_not_borrow(&mut self, x: usize, y: usize)
        requires
            x < 16,
            y < 16,
        ensures
            subn_rel(*old(self), *final(self), x as int, y as int),
    {
        let a = self.regs[x];
        let b = self.regs[y];
        self.regs[0xF] = if b > a {
            1
        } else {
            0
        };
        let diff: u16 = (a as u16 + 256 - b as u16) % 256;
        proof {
            assert((a - b) % 256 == (a + 256 - b) % 256) by {
                vstd::arithmetic::div_mod::lemma_mod_add_multiples_vanish(a - b, 256);
            };
        }
        self.regs[x] = diff as u8;
    }

    /// Shift-left (8xyE): the old high bit goes to the flag, then the value
    /// is doubled modulo 256.
    pub fn shl(&mut self, x: usize)
        requires
            x < 16,
        ensures
            shl_rel(*old(self), *final(self), x as int),
    {
        let v = self.regs[x];
        assert((v >> 7) & 1 == v / 128) by (bit_vector);
        assert(v << 1 == ((v * 2) % 256) as u8) by (bit_vector);
        self.regs[0xF] = (v >> 7) & 1;
        self.regs[x] = v << 1;
    }

    /// Read the delay timer (Fx07).
    pub fn ld_dt_to_reg(&mut self, x: usize)
        requires
            x < 16,
        ensures
            ld_dt_rel(*old(self), *final(self), x as int),
    {
        self.regs[x] = self.delay_timer;
    }

    /// Jump (1nnn).
    pub fn jmp_to_addr(&mut self, addr: u16)
        ensures
            jump_rel(*old(self), *final(self), addr),
    {
        self.pc = addr;
    }

    /// Jump-with-offset (Bnnn): wrapping `regs[0] + addr`.
    pub fn jmp_to_addr_reg_0(&mut self, addr: u16)
        ensures
            jump0_rel(*old(self), *final(self), addr),
    {
        self.pc = (self.regs[0] as u16).wrapping_add(addr);
    }

    /// Call (2nnn). The call stack is architecturally bounded at 16 return
    /// addresses; `tick` turns a deeper call into a fault instead.
    pub fn call_addr(&mut self, addr: u16)
        requires
            old(self).stack@.len() < 16,
        ensures
            call_rel(*old(self), *final(self), addr),
    {
        let pc = self.pc;
        self.stack.push(pc);
        self.pc = addr;
    }

    /// Return (00EE). Returning with an empty stack is a fault `tick` raises
    /// before coming here.
    pub fn ret(&mut self)
        requires
            old(self).stack@.len() > 0,
        ensures
            ret_rel(*old(self), *final(self)),
    {
        let top = match self.stack.pop() {
            Some(v) => v,
            None => 0,
        };
        self.pc = top;
    }

    /// Skip-if-equal-immediate (3xnn).
    pub fn se_byte(&mut self, x: usize, nn: u8)
        requires
            x < 16,
        ensures
            skip_rel(*old(self), *final(self), old(self).regs@[x as int] == nn),
    {
        if self.regs[x] == nn {
            self.pc = self.pc.wrapping_add(2);
        }
    }

    /// Skip-if-not-equal-immediate (4xnn).
    pub fn sne_byte(&mut self, x: usize, nn: u8)
        requires
            x < 16,
        ensures
            skip_rel(*old(self), *final(self), old(self).regs@[x as int] != nn),
    {
        if self.regs[x] != nn {
            self.pc = self.pc.wrapping_add(2);
        }
    }

    /// Skip-if-registers-equal (5xy0).
    pub fn se_reg_reg(&mut self, x: usize, y: usize)
        requires
            x < 16,
            y < 16,
        ensures
            skip_rel(
                *old(self),
                *final(self),
                old(self).regs@[x as int] == old(self).regs@[y as int],
            ),
    {
        if self.regs[x] == self.regs[y] {
            self.pc = self.pc.wrapping_add(2);
        }
    }

    /// Skip-if-registers-not-equal (9xy0).
    pub fn sne_reg_reg(&mut self, x: usize, y: usize)
        requires
            x < 16,
            y < 16,
        ensures
            skip_rel(
                *old(self),
                *final(self),
                old(self).regs@[x as int] != old(self).regs@[y as int],
            ),
    {
        if self.regs[x] != self.regs[y] {
            self.pc = self.pc.wrapping_add(2);
        }
    }

    /// Skip-if-key-pressed (Ex9E): consults the key named by `regs[x]`,
    /// reduced modulo 16.
    pub fn skp(&mut self, x: usize)
        requires
            x < 16,
        ensures
            skip_rel(*old(self), *final(self), key_of_reg(*old(self), x as int) == 1),
    {
        let k = (self.regs[x] as usize) % 16;
        if self.key_pressed[k] == 1 {
            self.pc = self.pc.wrapping_add(2);
        }
    }

    /// Skip-if-key-not-pressed (ExA1).
    pub fn sknp(&mut self, x: usize)
        requires
            x < 16,
        ensures
            skip_rel(*old(self), *final(self), key_of_reg(*old(self), x as int) != 1),
    {
        let k = (self.regs[x] as usize) % 16;
        if self.key_pressed[k] != 1 {
            self.pc = self.pc.wrapping_add(2);
        }
    }

    /// Set-index (Annn).
    pub fn set_index_reg_to_addr(&mut self, addr: u16)
        ensures
            set_index_rel(*old(self), *final(self), addr),
    {
        self.index_reg = addr;
    }

    /// Add-register-to-index (Fx1E): 16-bit wrapping.
    pub fn add_i_to_reg(&mut self, x: usize)
        requires
            x < 16,
        ensures
            add_i_rel(*old(self), *final(self), x as int),
    {
        self.index_reg = self.index_reg.wrapping_add(self.regs[x] as u16);
    }

    /// Font-glyph-address (Fx29).
    pub fn ld_font(&mut self, x: usize)
        requires
            x < 16,
        ensures
            ld_font_rel(*old(self), *final(self), x as int),
    {
        self.index_reg = self.regs[x] as u16 * 5;
    }

    /// Set the delay timer from `regs[x]` (Fx15).
    pub fn ld_reg_to_dt(&mut self, x: usize)
        requires
            x < 16,
        ensures
            ld_reg_to_dt_rel(*old(self), *final(self), x as int),
    {
        self.delay_timer = self.regs[x];
    }

    /// Set the sound timer from `regs[x]` (Fx18).
    pub fn ld_st_to_reg(&mut self, x: usize)
        requires
            x < 16,
        ensures
            ld_st_rel(*old(self), *final(self), x as int),
    {
        self.sound_timer = self.regs[x];
    }

    /// One 60 Hz tick: each timer decrements toward zero and clamps there.
    /// The caller invokes this at a fixed 60 Hz cadence, independently of the
    /// instruction rate.
    pub fn tick_timers(&mut self)
        ensures
            only_timers(*old(self), *final(self)),
            final(self).delay_timer == dec_toward_zero(old(self).delay_timer),
            final(self).sound_timer == dec_toward_zero(old(self).sound_timer),
    {
        if self.delay_timer > 0 {
            self.delay_timer = self.delay_timer - 1;
        }
        if self.sound_timer > 0 {
            self.sound_timer = self.sound_timer - 1;
        }
    }

    /// BCD-store (Fx33).
    pub fn bcd(&mut self, x: usize)
        requires
            x < 16,
        ensures
            bcd_rel(*old(self), *final(self), x as int),
    {
        let v = self.regs[x];
        let i0 = (self.index_reg as usize) % 4096;
        let i1 = ((self.index_reg as usize) + 1) % 4096;
        let i2 = ((self.index_reg as usize) + 2) % 4096;
        self.ram[i0] = v / 100;
        self.ram[i1] = (v % 100) / 10;
        self.ram[i2] = v % 10;
    }

    /// Register-block store (Fx55): registers 0 through `x` inclusive.
    pub fn ld_reg_to_ram(&mut self, x: usize)
        requires
            x < 16,
        ensures
            store_rel(*old(self), *final(self), x as int),
    {
        let ghost pre = *self;
        let mut i: usize = 0;
        while i <= x
            invariant
                x < 16,
                i <= x + 1,
                only_ram(pre, *self),
                forall|j: int|
                    0 <= j < i ==> self.ram@[#[trigger] ((pre.index_reg + j) % 4096)]
                        == pre.regs@[j],
                forall|a: int|
                    0 <= a < 4096 && (forall|j: int|
                        0 <= j < i ==> a != #[trigger] ((pre.index_reg + j) % 4096))
                        ==> #[trigger] self.ram@[a] == pre.ram@[a],
            decreases x + 1 - i,
        {
            let addr = ((self.index_reg as usize) + i) % 4096;
            let v = self.regs[i];
            self.ram[addr] = v;
            proof {
                assert forall|j: int| 0 <= j < i implies #[trigger] ((pre.index_reg + j) % 4096)
                    != addr as int by {
                    lemma_mod_add_inj(pre.index_reg as int, 4096, j, i as int);
                };
            }
            i += 1;
        }
    }

    /// Draw (Dxyn): an `n`-byte-tall, 8-pixel-wide sprite read from memory
    /// at the index register, XOR-composited at the position named by
    /// registers `x` and `y`. The flag register reports a collision: some
    /// pixel that was lit got turned off.
    pub fn draw(&mut self, x: usize, y: usize, n: u8)
        requires
            x < 16,
            y < 16,
            n <= 15,
            wf_display(*old(self)),
        ensures
            draw_rel(*old(self), *final(self), x as int, y as int, n),
            wf_display(*final(self)),
    {
        let ghost pre = *self;
        let rx = self.regs[x];
        let ry = self.regs[y];
        self.regs[0xF] = 0;
        proof {
            lemma_pix_unchanged(pre, *self);
        }
        let mut i: usize = 0;
        while i < n as usize
            invariant
                x < 16,
                y < 16,
                n <= 15,
                i <= n,
                rx == pre.regs@[x as int],
                ry == pre.regs@[y as int],
                wf_display(pre),
                wf_display(*self),
                only_display_regs(pre, *self),
                self.regs@ == pre.regs@.update(
                    15,
                    if hit_before(pre, x as int, y as int, 8 * i) {
                        1u8
                    } else {
                        0u8
                    },
                ),
                forall|i2: int, b2: int|
                    0 <= i2 < i && 0 <= b2 < 8 ==> pix(
                        *self,
                        draw_row(pre, y as int, i2),
                        draw_col(pre, x as int, b2),
                    ) == pix_xor(
                        pix(pre, draw_row(pre, y as int, i2), draw_col(pre, x as int, b2)),
                        #[trigger] spr_bit(pre, i2, b2),
                    ),
                forall|r: int, c: int|
                    0 <= r < 32 && 0 <= c < 64 && !covered_before(
                        pre,
                        x as int,
                        y as int,
                        8 * i,
                        r,
                        c,
                    ) ==> #[trigger] pix(*self, r, c) == pix(pre, r, c),
            decreases n - i,
        {
            let row = ((ry as usize) + i) % 32;
            let byte = self.ram[((self.index_reg as usize) + i) % 4096];
            proof {
                assert(row as int == draw_row(pre, y as int, i as int));
                assert(byte == pre.ram@[(pre.index_reg + i) % 4096]);
                // the current row was not touched by any earlier sprite row
                assert forall|c: int|
                    0 <= c < 64 implies #[trigger] pix(*self, row as int, c) == pix(
                    pre,
                    row as int,
                    c,
                ) by {
                    if covered_before(pre, x as int, y as int, 8 * i, row as int, c) {
                        let q = choose|q: int|
                            0 <= q < 8 * i && row as int == #[trigger] draw_row(pre, y as int, q / 8)
                                && c == draw_col(pre, x as int, q % 8);
                        vstd::arithmetic::div_mod::lemma_multiply_divide_lt(q, 8, i as int);
                        vstd::arithmetic::div_mod::lemma_div_pos_is_pos(q, 8);
                        lemma_mod_add_inj(ry as int, 32, q / 8, i as int);
                    }
                }
            }
            let ghost dsnap = self.display;
            let mut rowbuf: [u8; 64] = self.display[row];
            proof {
                assert(rowbuf == self.display@[row as int]);
                assert forall|c: int| 0 <= c < 64 implies #[trigger] rowbuf@[c] == pix(
                    *self,
                    row as int,
                    c,
                ) by {
                    assert(pix(*self, row as int, c) == self.display@[row as int]@[c]);
                };
            }
            let mut b: usize = 0;
            while b < 8
                invariant
                    x < 16,
                    y < 16,
                    n <= 15,
                    i < n,
                    b <= 8,
                    rx == pre.regs@[x as int],
                    ry == pre.regs@[y as int],
                    row as int == draw_row(pre, y as int, i as int),
                    byte == pre.ram@[(pre.index_reg + i) % 4096],
                    wf_display(pre),
                    wf_display(*self),
                    only_display_regs(pre, *self),
                    self.display == dsnap,
                    self.regs@ == pre.regs@.update(
                        15,
                        if hit_before(pre, x as int, y as int, 8 * i + b) {
                            1u8
                        } else {
                            0u8
                        },
                    ),
                    forall|i2: int, b2: int|
                        0 <= i2 < i && 0 <= b2 < 8 ==> pix(
                            *self,
                            draw_row(pre, y as int, i2),
                            draw_col(pre, x as int, b2),
                        ) == pix_xor(
                            pix(pre, draw_row(pre, y as int, i2), draw_col(pre, x as int, b2)),
                            #[trigger] spr_bit(pre, i2, b2),
                        ),
                    forall|r: int, c: int|
                        0 <= r < 32 && 0 <= c < 64 && !covered_before(
                            pre,
                            x as int,
                            y as int,
                            8 * (i as int),
                            r,
                            c,
                        ) ==> #[trigger] pix(*self, r, c) == pix(pre, r, c),
                    forall|b2: int|
                        0 <= b2 < b ==> rowbuf@[#[trigger] draw_col(pre, x as int, b2)] == pix_xor(
                            pix(pre, row as int, draw_col(pre, x as int, b2)),
                            spr_bit(pre, i as int, b2),
                        ),
                    forall|c: int|
                        0 <= c < 64 && !(exists|b2: int|
                            0 <= b2 < b && c == #[trigger] draw_col(pre, x as int, b2))
                            ==> #[trigger] rowbuf@[c] == pix(pre, row as int, c),
                    forall|c: int| 0 <= c < 64 ==> #[trigger] rowbuf@[c] <= 1,
                decreases 8 - b,
            {
                let ghost isnap = *self;
                let col = ((rx as usize) + b) % 64;
                let sh: u8 = (7 - b) as u8;
                let sbit = (byte >> sh) & 1;
                proof {
                    assert((byte >> sh) & 1 <= 1) by (bit_vector);
                    assert(col as int == draw_col(pre, x as int, b as int));
                    assert(sbit == spr_bit(pre, i as int, b as int));
                    // this column was not yet written in this row
                    assert forall|b2: int|
                        0 <= b2 < b implies #[trigger] draw_col(pre, x as int, b2)
                        != col as int by {
                        lemma_mod_add_inj(rx as int, 64, b2, b as int);
                    }
                }
                let cur = rowbuf[col];
                assert(cur == pix(pre, row as int, col as int));
                if sbit == 1 && cur == 1 {
                    self.regs[0xF] = 1;
                    proof {
                        lemma_cell_index(i as int, b as int);
                        assert(hit_at(pre, x as int, y as int, i as int, b as int));
                        assert(hit_before(pre, x as int, y as int, 8 * i + b + 1));
                        assert(self.regs@ =~= pre.regs@.update(15, 1u8));
                    }
                } else {
                    proof {
                        if hit_before(pre, x as int, y as int, 8 * i + b + 1) && !hit_before(
                            pre,
                            x as int,
                            y as int,
                            8 * i + b,
                        ) {
                            let q = choose|q: int|
                                0 <= q < 8 * i + b + 1 && #[trigger] hit_at(
                                    pre,
                                    x as int,
                                    y as int,
                                    q / 8,
                                    q % 8,
                                );
                            assert(q == 8 * i + b);
                            lemma_cell_index(i as int, b as int);
                            assert(false);
                        }
                    }
                }
                rowbuf[col] = if sbit == 1 {
                    if cur == 1 {
                        0
                    } else {
                        1
                    }
                } else {
                    cur
                };
                proof {
                    lemma_pix_unchanged(isnap, *self);
                }
                b += 1;
            }
            let ghost before = *self;
            self.display[row] = rowbuf;
            proof {
                let gx = x as int;
                let gy = y as int;
                let gi = i as int;
                assert(self.display@ == before.display@.update(row as int, rowbuf));
                // how every pixel relates to the state before the row write
                assert forall|r: int, c: int| 0 <= r < 32 && 0 <= c < 64 implies #[trigger] pix(
                    *self,
                    r,
                    c,
                ) == (if r == row as int {
                    rowbuf@[c]
                } else {
                    pix(before, r, c)
                }) by {
                    if r == row as int {
                        assert(self.display@[r] == rowbuf);
                    } else {
                        assert(self.display@[r] == before.display@[r]);
                        assert(pix(before, r, c) == before.display@[r]@[c]);
                    }
                }
                assert(wf_display(*self));
                // pixels of earlier rows are untouched by this row write
                assert forall|i2: int, b2: int| 0 <= i2 < gi + 1 && 0 <= b2 < 8 implies pix(
                    *self,
                    draw_row(pre, gy, i2),
                    draw_col(pre, gx, b2),
                ) == pix_xor(
                    pix(pre, draw_row(pre, gy, i2), draw_col(pre, gx, b2)),
                    #[trigger] spr_bit(pre, i2, b2),
                ) by {
                    vstd::arithmetic::div_mod::lemma_mod_bound(pre.regs@[gx] + b2, 64);
                    vstd::arithmetic::div_mod::lemma_mod_bound(pre.regs@[gy] + i2, 32);
                    if i2 < gi {
                        lemma_mod_add_inj(ry as int, 32, i2, gi);
                        assert(pix(*self, draw_row(pre, gy, i2), draw_col(pre, gx, b2)) == pix(
                            before,
                            draw_row(pre, gy, i2),
                            draw_col(pre, gx, b2),
                        ));
                    } else {
                        assert(pix(*self, draw_row(pre, gy, gi), draw_col(pre, gx, b2))
                            == rowbuf@[draw_col(pre, gx, b2)]);
                    }
                }
                // pixels outside the first i + 1 rows keep their old value
                assert forall|r: int, c: int|
                    0 <= r < 32 && 0 <= c < 64 && !covered_before(
                        pre,
                        gx,
                        gy,
                        8 * (gi + 1),
                        r,
                        c,
                    ) implies #[trigger] pix(*self, r, c) == pix(pre, r, c) by {
                    if r == row as int {
                        assert forall|b2: int|
                            0 <= b2 < 8 implies c != #[trigger] draw_col(pre, gx, b2) by {
                            if c == draw_col(pre, gx, b2) {
                                lemma_cell_index(gi, b2);
                                assert(r == draw_row(pre, gy, (8 * gi + b2) / 8));
                                assert(c == draw_col(pre, gx, (8 * gi + b2) % 8));
                                assert(covered_before(pre, gx, gy, 8 * (gi + 1), r, c));
                            }
                        }
                        assert(rowbuf@[c] == pix(pre, row as int, c));
                    } else {
                        if covered_before(pre, gx, gy, 8 * gi, r, c) {
                            assert(covered_before(pre, gx, gy, 8 * (gi + 1), r, c));
                        }
                        assert(pix(*self, r, c) == pix(before, r, c));
                    }
                }
            }
            i += 1;
        }
        proof {
            assert(8 * (i as int) == 8 * (n as int));
        }
    }

    /// Clear-screen (00E0).
    pub fn cls(&mut self)
        ensures
            cls_rel(*old(self), *final(self)),
    {
        self.display = [[0u8; 64]; 32];
    }

    /// Random (Cxnn): a random byte masked with `nn`.
    pub fn rnd_num(&mut self, x: usize, nn: u8)
        requires
            x < 16,
        ensures
            rnd_rel(*old(self), *final(self), x as int, nn),
    {
        let b = random_byte();
        self.rnd_num_from(x, nn, b);
    }

    /// The deterministic core of the random instruction: mask the byte `b`
    /// into `regs[x]`. Randomness enters the machine only as this argument,
    /// so a test run can supply its own bytes.
    pub fn rnd_num_from(&mut self, x: usize, nn: u8, b: u8)
        requires
            x < 16,
        ensures
            only_regs(*old(self), *final(self)),
            final(self).regs@ == old(self).regs@.update(x as int, b & nn),
    {
        self.regs[x] = b & nn;
    }

    /// Key-wait (Fx0A): rewinds the program counter while no key is held,
    /// otherwise stores the lowest held key index into `regs[x]`.
    pub fn ld_key(&mut self, x: usize)
        requires
            x < 16,
        ensures
            ld_key_rel(*old(self), *final(self), x as int),
    {
        let mut idx: usize = 0;
        while idx < 16 && self.key_pressed[idx] != 1
            invariant
                idx <= 16,
                forall|j: int| 0 <= j < idx ==> self.key_pressed@[j] != 1,
            decreases 16 - idx,
        {
            idx += 1;
        }
        if idx == 16 {
            self.pc = self.pc.wrapping_sub(2);
        } else {
            proof {
                lemma_first_held(self.key_pressed@, 0, idx as int);
            }
            self.regs[x] = idx as u8;
        }
    }

    /// Install the caller's key bitmask (each cell 0 or 1); quit and advance
    /// events leave the machine untouched.
    pub fn set_key(&mut self, key: &KeyStroke)
        requires
            *key matches KeyStroke::Key(k) ==> forall|i: int| 0 <= i < 16 ==> k@[i] <= 1,
        ensures
            set_key_rel(*old(self), *final(self), *key),
            old(self).wf() ==> final(self).wf(),
    {
        match key {
            KeyStroke::Quit => {},
            KeyStroke::Key(k) => {
                self.key_pressed = *k;
                proof {
                    lemma_pix_unchanged(*old(self), *self);
                    assert forall|i: int| 0 <= i < 16 implies #[trigger] self.key_pressed@[i]
                        <= 1 by {
                        assert(self.key_pressed@[i] == k@[i]);
                    };
                }
            },
            KeyStroke::Next => {},
        }
    }

    /// Install a program image: the bytes are copied verbatim to addresses
    /// 0x200 and up. An image longer than the 3584 bytes of program space is
    /// rejected before any memory is touched; the reserved font region is
    /// never disturbed.
    pub fn load_program(&mut self, program: &Vec<u8>) -> (r: Result<(), Fault>)
        ensures
            program@.len() > 3584 ==> r == Err::<(), Fault>(Fault::ProgramTooLarge) && *final(self)
                == *old(self),
            program@.len() <= 3584 ==> {
                &&& r == Ok::<(), Fault>(())
                &&& only_ram(*old(self), *final(self))
                &&& forall|i: int|
                    0 <= i < program@.len() ==> final(self).ram@[0x200 + i] == program@[i]
                &&& forall|a: int| 0 <= a < 0x200 ==> final(self).ram@[a] == old(self).ram@[a]
                &&& forall|a: int|
                    0x200 + program@.len() <= a < 4096 ==> final(self).ram@[a] == old(self).ram@[a]
            },
            old(self).wf() ==> final(self).wf(),
    {
        if program.len() > 3584 {
            return Err(Fault::ProgramTooLarge);
        }
        let ghost pre = *self;
        let mut i: usize = 0;
        while i < program.len()
            invariant
                program@.len() <= 3584,
                i <= program@.len(),
                only_ram(pre, *self),
                forall|j: int| 0 <= j < i ==> self.ram@[0x200 + j] == program@[j],
                forall|a: int| 0 <= a < 0x200 ==> self.ram@[a] == pre.ram@[a],
                forall|a: int| 0x200 + i <= a < 4096 ==> self.ram@[a] == pre.ram@[a],
            decreases program@.len() - i,
        {
            self.ram[0x200 + i] = program[i];
            i += 1;
        }
        proof {
            if pre.wf() {
                lemma_pix_unchanged(pre, *self);
                lemma_keys_unchanged(pre, *self);
            }
        }
        Ok(())
    }

    /// Register-block load (Fx65): registers 0 through `x` inclusive.
    pub fn ld_ram_to_reg(&mut self, x: usize)
        requires
            x < 16,
        ensures
            load_rel(*old(self), *final(self), x as int),
    {
        let ghost pre = *self;
        let mut i: usize = 0;
        while i <= x
            invariant
                x < 16,
                i <= x + 1,
                only_regs(pre, *self),
                forall|j: int|
                    0 <= j < i ==> self.regs@[j] == pre.ram@[#[trigger] ((pre.index_reg + j)
                        % 4096)],
                forall|j: int| i <= j < 16 ==> self.regs@[j] == pre.regs@[j],
            decreases x + 1 - i,
        {
            let addr = ((self.index_reg as usize) + i) % 4096;
            self.regs[i] = self.ram[addr];
            i += 1;
        }
    }
}

/// A fresh machine with a tiny built-in demonstration program installed: a
/// clear-screen instruction followed by a jump back to the program start.
pub fn init_test_cpu() -> (r: CPU)
    ensures
        r.wf(),
        forall|i: int| 0 <= i < 16 ==> r.regs@[i] == 0u8,
        forall|i: int| 0 <= i < 80 ==> r.ram@[i] == spec_font()[i],
        forall|i: int| 80 <= i < 0x200 ==> r.ram@[i] == 0u8,
        r.ram@[0x200] == 0x00u8,
        r.ram@[0x201] == 0xE0u8,
        r.ram@[0x202] == 0x12u8,
        r.ram@[0x203] == 0x00u8,
        forall|i: int| 0x204 <= i < 4096 ==> r.ram@[i] == 0u8,
        forall|y: int, x: int| 0 <= y < 32 && 0 <= x < 64 ==> pix(r, y, x) == 0u8,
        r.pc == 0x200u16,
        r.index_reg == 0u16,
        r.stack@.len() == 0,
        r.delay_timer == 60u8,
        r.sound_timer == 60u8,
        forall|i: int| 0 <= i < 16 ==> r.key_pressed@[i] == 0u8,
{
    let mut cpu = CPU::init_cpu();
    let ghost c0 = cpu;
    let mut program: Vec<u8> = Vec::new();
    program.push(0x00);
    program.push(0xE0);
    program.push(0x12);
    program.push(0x00);
    proof {
        assert(program@ =~= seq![0x00u8, 0xE0u8, 0x12u8, 0x00u8]);
    }
    let loaded = cpu.load_program(&program);
    match loaded {
        Ok(()) => {},
        Err(_) => {},
    }
    proof {
        lemma_pix_unchanged(c0, cpu);
        lemma_keys_unchanged(c0, cpu);
    }
    cpu
}

} // verus!
