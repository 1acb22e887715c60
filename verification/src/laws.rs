//! Machine-wide laws: properties that relate several instructions or several
//! steps, proved from the per-instruction contracts alone.
use vstd::prelude::*;

use crate::cpu::{
    advanced, bit_of, call_rel, dec_toward_zero, draw_col, draw_covered, draw_hits, draw_rel,
    draw_row, first_held_from, hit_at, instr_at, instr_effect, ld_key_rel, load_rel, no_key_held,
    op_family, op_nn, op_x, pix, pix_xor, ret_rel, spr_bit, store_rel, wf_display, wrap16, CPU,
};

verus! {

/// The three BCD digits of a byte recombine to the byte itself:
/// `100 * hundreds + 10 * tens + units == v` for every `v` in 0..=255.
pub proof fn lemma_bcd_digits_recombine(v: u8)
    ensures
        100 * (v / 100) + 10 * ((v % 100) / 10) + v % 10 == v,
{
    assert(100 * (v / 100) + 10 * ((v % 100) / 10) + v % 10 == v) by (bit_vector);
}

/// A register-block store followed immediately by a register-block load of
/// the same `x` and index register leaves the registers exactly as they
/// were, for every `x`, including the one-register case `x = 0` and the
/// full-file case `x = 15`.
pub proof fn lemma_store_load_round_trip(pre: CPU, mid: CPU, post: CPU, x: usize)
    requires
        x < 16,
        store_rel(pre, mid, x as int),
        load_rel(mid, post, x as int),
    ensures
        post.regs@ == pre.regs@,
{
    assert forall|j: int| 0 <= j < 16 implies post.regs@[j] == pre.regs@[j] by {
        if j <= x {
            assert(mid.ram@[(pre.index_reg + j) % 4096] == pre.regs@[j]);
            assert(post.regs@[j] == mid.ram@[(mid.index_reg + j) % 4096]);
        }
    };
    assert(post.regs@ =~= pre.regs@);
}

/// A call followed by a return restores the program counter and the call
/// stack, for any stack of fewer than 16 entries, so 16 nested calls unwind
/// completely.
pub proof fn lemma_call_ret_round_trip(pre: CPU, mid: CPU, post: CPU, addr: u16)
    requires
        pre.stack@.len() < 16,
        call_rel(pre, mid, addr),
        ret_rel(mid, post),
    ensures
        post.pc == pre.pc,
        post.stack@ == pre.stack@,
        post.regs == pre.regs,
        post.ram == pre.ram,
        post.display == pre.display,
        post.index_reg == pre.index_reg,
{
    assert(mid.stack@.last() == pre.pc);
    assert(mid.stack@.drop_last() =~= pre.stack@);
}

/// A sprite bit is a single bit.
pub proof fn lemma_bit_of_bounded(byte: u8, b: int)
    requires
        0 <= b < 8,
    ensures
        bit_of(byte, b) <= 1,
{
    let sh = (7 - b) as u8;
    assert((byte >> sh) & 1 <= 1) by (bit_vector);
}

/// Drawing a sprite with at least one lit cell twice at the same position
/// onto a clear screen reports no collision the first time, reports a
/// collision the second time, and leaves the screen clear again. The flag
/// register itself may not serve as a draw coordinate.
pub proof fn lemma_draw_twice_restores(pre: CPU, mid: CPU, post: CPU, x: usize, y: usize, n: u8)
    requires
        x < 15,
        y < 15,
        n <= 15,
        wf_display(pre),
        forall|r: int, c: int| 0 <= r < 32 && 0 <= c < 64 ==> #[trigger] pix(pre, r, c) == 0u8,
        draw_rel(pre, mid, x as int, y as int, n),
        draw_rel(mid, post, x as int, y as int, n),
        exists|i: int, b: int| 0 <= i < n && 0 <= b < 8 && #[trigger] spr_bit(pre, i, b) == 1,
    ensures
        mid.regs@[15] == 0,
        post.regs@[15] == 1,
        forall|r: int, c: int| 0 <= r < 32 && 0 <= c < 64 ==> #[trigger] pix(post, r, c) == 0u8,
{
    let gx = x as int;
    let gy = y as int;
    // the first draw sees only dark pixels, so nothing collides
    assert(!draw_hits(pre, gx, gy, n)) by {
        if draw_hits(pre, gx, gy, n) {
            let q = choose|q: int| 0 <= q < 8 * n && #[trigger] hit_at(pre, gx, gy, q / 8, q % 8);
            vstd::arithmetic::div_mod::lemma_mod_bound(pre.regs@[gy] + q / 8, 32);
            vstd::arithmetic::div_mod::lemma_mod_bound(pre.regs@[gx] + q % 8, 64);
            assert(pix(pre, draw_row(pre, gy, q / 8), draw_col(pre, gx, q % 8)) == 0);
        }
    };
    assert(mid.regs@[15] == 0);
    // the second draw reads the same sprite at the same position
    assert(mid.regs@[gx] == pre.regs@[gx]);
    assert(mid.regs@[gy] == pre.regs@[gy]);
    assert forall|i: int| #[trigger] draw_row(mid, gy, i) == draw_row(pre, gy, i) by {}
    assert forall|b: int| #[trigger] draw_col(mid, gx, b) == draw_col(pre, gx, b) by {}
    assert forall|i: int, b: int| #[trigger] spr_bit(mid, i, b) == spr_bit(pre, i, b) by {
        assert(mid.ram == pre.ram && mid.index_reg == pre.index_reg);
        assert(spr_bit(pre, i, b) == bit_of(pre.ram@[(pre.index_reg + i) % 4096], b));
    }
    // after the first draw every covered pixel holds its sprite bit
    assert forall|i: int, b: int| 0 <= i < n && 0 <= b < 8 implies pix(
        mid,
        draw_row(pre, gy, i),
        draw_col(pre, gx, b),
    ) == spr_bit(pre, i, b) by {
        vstd::arithmetic::div_mod::lemma_mod_bound(pre.regs@[gy] + i, 32);
        vstd::arithmetic::div_mod::lemma_mod_bound(pre.regs@[gx] + b, 64);
        assert(pix(pre, draw_row(pre, gy, i), draw_col(pre, gx, b)) == 0);
        assert(pix(mid, draw_row(pre, gy, i), draw_col(pre, gx, b)) == pix_xor(
            0u8,
            spr_bit(pre, i, b),
        ));
        lemma_bit_of_bounded(pre.ram@[(pre.index_reg + i) % 4096], b);
    }
    // so the second draw turns every covered pixel off again
    assert forall|i: int, b: int| 0 <= i < n && 0 <= b < 8 implies pix(
        post,
        draw_row(pre, gy, i),
        draw_col(pre, gx, b),
    ) == 0u8 by {
        lemma_bit_of_bounded(pre.ram@[(pre.index_reg + i) % 4096], b);
        assert(pix(post, draw_row(mid, gy, i), draw_col(mid, gx, b)) == pix_xor(
            pix(mid, draw_row(mid, gy, i), draw_col(mid, gx, b)),
            spr_bit(mid, i, b),
        ));
    }
    // and the lit sprite cell collides on the second draw
    assert(draw_hits(mid, gx, gy, n)) by {
        let (i0, b0) = choose|i: int, b: int|
            0 <= i < n && 0 <= b < 8 && #[trigger] spr_bit(pre, i, b) == 1;
        assert(pix(mid, draw_row(mid, gy, i0), draw_col(mid, gx, b0)) == 1);
        assert(hit_at(mid, gx, gy, i0, b0));
        crate::cpu::lemma_cell_index(i0, b0);
        assert(0 <= 8 * i0 + b0 < 8 * n);
        assert(hit_at(mid, gx, gy, (8 * i0 + b0) / 8, (8 * i0 + b0) % 8));
    };
    assert(post.regs@[15] == 1);
    // every pixel of the final screen is dark
    assert forall|r: int, c: int| 0 <= r < 32 && 0 <= c < 64 implies #[trigger] pix(post, r, c)
        == 0u8 by {
        if draw_covered(pre, gx, gy, n, r, c) {
            let q = choose|q: int|
                0 <= q < 8 * n && r == #[trigger] draw_row(pre, gy, q / 8) && c == draw_col(
                    pre,
                    gx,
                    q % 8,
                );
            vstd::arithmetic::div_mod::lemma_multiply_divide_lt(q, 8, n as int);
            vstd::arithmetic::div_mod::lemma_div_pos_is_pos(q, 8);
            vstd::arithmetic::div_mod::lemma_mod_bound(q, 8);
            assert(pix(post, draw_row(pre, gy, q / 8), draw_col(pre, gx, q % 8)) == 0u8);
        } else {
            assert(!draw_covered(mid, gx, gy, n, r, c)) by {
                if draw_covered(mid, gx, gy, n, r, c) {
                    let q = choose|q: int|
                        0 <= q < 8 * n && r == #[trigger] draw_row(mid, gy, q / 8) && c == draw_col(
                            mid,
                            gx,
                            q % 8,
                        );
                    assert(r == draw_row(pre, gy, q / 8) && c == draw_col(pre, gx, q % 8));
                }
            };
            assert(pix(post, r, c) == pix(mid, r, c));
            assert(pix(mid, r, c) == pix(pre, r, c));
        }
    }
}

/// While no key is held, a step that lands on a key-wait instruction leaves
/// the whole machine exactly as it was: the instruction re-executes on the
/// next step.
pub proof fn lemma_key_wait_blocks(pre: CPU, post: CPU)
    requires
        op_family(instr_at(pre)) == 0xF,
        op_nn(instr_at(pre)) == 0x0A,
        no_key_held(pre),
        instr_effect(advanced(pre), instr_at(pre), post),
    ensures
        post == pre,
{
    let mid = advanced(pre);
    assert(no_key_held(mid)) by {
        assert forall|k: int| 0 <= k < 16 implies #[trigger] mid.key_pressed@[k] != 1 by {
            assert(mid.key_pressed@[k] == pre.key_pressed@[k]);
        };
    };
    assert(ld_key_rel(mid, post, op_x(instr_at(pre)) as int));
    assert(post.pc == wrap16(wrap16(pre.pc + 2) - 2));
    assert(post.pc == pre.pc) by {
        let p = pre.pc as int;
        if p + 2 < 0x10000 {
            vstd::arithmetic::div_mod::lemma_small_mod((p + 2) as nat, 0x10000);
            vstd::arithmetic::div_mod::lemma_small_mod(p as nat, 0x10000);
        } else {
            vstd::arithmetic::div_mod::lemma_mod_sub_multiples_vanish(p + 2, 0x10000);
            vstd::arithmetic::div_mod::lemma_small_mod((p + 2 - 0x10000) as nat, 0x10000);
            vstd::arithmetic::div_mod::lemma_mod_add_multiples_vanish(p - 0x10000, 0x10000);
            vstd::arithmetic::div_mod::lemma_small_mod(p as nat, 0x10000);
        }
    };
    assert(post =~= pre);
}

/// Once at least one key is held, the same step advances the program counter
/// normally and stores the lowest held key's index into register `x`.
pub proof fn lemma_key_wait_stores(pre: CPU, post: CPU)
    requires
        op_family(instr_at(pre)) == 0xF,
        op_nn(instr_at(pre)) == 0x0A,
        !no_key_held(pre),
        instr_effect(advanced(pre), instr_at(pre), post),
    ensures
        post.pc == wrap16(pre.pc + 2),
        post.regs@ == pre.regs@.update(
            op_x(instr_at(pre)) as int,
            first_held_from(pre.key_pressed@, 0) as u8,
        ),
{
    let mid = advanced(pre);
    assert(!no_key_held(mid)) by {
        let k = choose|k: int| 0 <= k < 16 && #[trigger] pre.key_pressed@[k] == 1;
        assert(mid.key_pressed@[k] == 1);
    };
    assert(ld_key_rel(mid, post, op_x(instr_at(pre)) as int));
}

/// The value of a timer after `k` 60 Hz ticks from a start value `v`.
pub open spec fn timer_after(v: u8, k: nat) -> u8
    decreases k,
{
    if k == 0 {
        v
    } else {
        dec_toward_zero(timer_after(v, (k - 1) as nat))
    }
}

/// From any start value `v`, exactly `v` ticks bring a timer to zero, ticks
/// short of that leave exactly `v - k`, and every further tick leaves it at
/// zero.
pub proof fn lemma_timer_runs_down(v: u8, k: nat)
    ensures
        timer_after(v, k) == if k >= v {
            0u8
        } else {
            (v - k) as u8
        },
    decreases k,
{
    if k > 0 {
        lemma_timer_runs_down(v, (k - 1) as nat);
    }
}

} // verus!
