//! How many blocks the greedy layout of a zone takes.
//!
//! A zone is laid out from its base up, each time with the largest block
//! that starts aligned to its size and fits before the end. The orders
//! first rise with the alignment of the cursor, then stay at the largest
//! order, then fall with the room left; so the blocks number at most
//! twice the orders plus the largest blocks that fit. This bounds the pool
//! nodes an initialization needs.
use vstd::prelude::*;
use super::buddy_block::DEFAULT_MAX_ORDER;
use super::buddy_set::{block_bytes, lemma_block_bytes, lemma_block_bytes_divides};

verus! {

/// The largest order at most `o` whose blocks `x` is aligned to (`0` if none is).
pub open spec fn align_order(x: int, o: int, ps: int) -> int
    decreases o,
{
    if o <= 0 {
        0
    } else if x % block_bytes(o, ps) == 0 {
        o
    } else {
        align_order(x, o - 1, ps)
    }
}

/// The largest order at most `o` whose blocks fit in `len` bytes (`0` if none does).
pub open spec fn fit_order(len: int, o: int, ps: int) -> int
    decreases o,
{
    if o <= 0 {
        0
    } else if block_bytes(o, ps) <= len {
        o
    } else {
        fit_order(len, o - 1, ps)
    }
}

/// A bound on the blocks the greedy layout of `[x, e)` still takes.
pub open spec fn greedy_left(x: int, e: int, ps: int) -> int {
    let m = DEFAULT_MAX_ORDER as int;
    let a = align_order(x, m, ps);
    let r = fit_order(e - x, m, ps);
    if x >= e {
        0
    } else if r < a {
        r + 1
    } else {
        (e - x) / block_bytes(m, ps) + (m - a) + m + 2
    }
}

/// The nodes that laying out a zone `[base, end)` may take at most.
pub open spec fn layout_nodes(base: int, end: int, ps: int) -> int {
    (end - base) / block_bytes(DEFAULT_MAX_ORDER as int, ps) + 2 * DEFAULT_MAX_ORDER + 2
}

/// `x` aligned to blocks of order `b` is aligned to blocks of any lower order.
pub proof fn lemma_aligned_lower(x: int, a: int, b: int, ps: int)
    requires
        0 <= a <= b,
        ps > 0,
        x % block_bytes(b, ps) == 0,
    ensures
        x % block_bytes(a, ps) == 0,
{
    lemma_block_bytes_divides(a, b, ps);
    lemma_block_bytes(a, ps);
    let bb = block_bytes(b, ps);
    let ba = block_bytes(a, ps);
    vstd::arithmetic::div_mod::lemma_fundamental_div_mod(x, bb);
    vstd::arithmetic::div_mod::lemma_fundamental_div_mod(bb, ba);
    let q = bb / ba;
    let k = x / bb;
    assert(x == (k * q) * ba) by (nonlinear_arith)
        requires x == bb * k + 0, bb == ba * q + 0;
    vstd::arithmetic::div_mod::lemma_mod_multiples_basic(k * q, ba);
}

/// What `align_order` gives: an order `x` is aligned to, with no higher
/// one up to `o`.
pub proof fn lemma_align_order(x: int, o: int, ps: int)
    requires
        0 <= o,
        ps > 0,
        x % ps == 0,
    ensures
        0 <= align_order(x, o, ps) <= o,
        x % block_bytes(align_order(x, o, ps), ps) == 0,
        forall|o2: int| align_order(x, o, ps) < o2 <= o ==> x % #[trigger] block_bytes(o2, ps) != 0,
    decreases o,
{
    if o > 0 && x % block_bytes(o, ps) != 0 {
        lemma_align_order(x, o - 1, ps);
    }
    if o == 0 {
        crate::math::lemma_pow2_values();
        assert(vstd::arithmetic::power2::pow2(0nat) == 1);
        assert(block_bytes(0, ps) == vstd::arithmetic::power2::pow2(0nat) * ps);
        assert(block_bytes(0, ps) == ps);
    }
}

/// What `fit_order` gives: an order whose blocks fit, with no higher one
/// up to `o` fitting.
pub proof fn lemma_fit_order(len: int, o: int, ps: int)
    requires
        0 <= o,
        ps > 0,
    ensures
        0 <= fit_order(len, o, ps) <= o,
        len >= ps ==> block_bytes(fit_order(len, o, ps), ps) <= len,
        forall|o2: int| fit_order(len, o, ps) < o2 <= o ==> #[trigger] block_bytes(o2, ps) > len,
    decreases o,
{
    if o > 0 && block_bytes(o, ps) > len {
        lemma_fit_order(len, o - 1, ps);
    }
    if o == 0 {
        crate::math::lemma_pow2_values();
        assert(vstd::arithmetic::power2::pow2(0nat) == 1);
        assert(block_bytes(0, ps) == vstd::arithmetic::power2::pow2(0nat) * ps);
        assert(block_bytes(0, ps) == ps);
    }
}

/// Less room fits no larger block.
pub proof fn lemma_fit_order_mono(l1: int, l2: int, o: int, ps: int)
    requires
        0 <= o,
        ps > 0,
        ps <= l1 <= l2,
    ensures
        fit_order(l1, o, ps) <= fit_order(l2, o, ps),
{
    lemma_fit_order(l1, o, ps);
    lemma_fit_order(l2, o, ps);
    let f1 = fit_order(l1, o, ps);
    let f2 = fit_order(l2, o, ps);
    if f1 > f2 {
        assert(block_bytes(f1, ps) > l2);
    }
}

/// The order the greedy layout takes at `x`: the largest one whose block
/// is aligned at `x` and fits before `e` is the lower of the alignment
/// order and the fitting order.
pub proof fn lemma_greedy_choice(x: int, e: int, o: int, ps: int)
    requires
        ps > 0,
        x % ps == 0,
        x + ps <= e,
        0 <= o <= DEFAULT_MAX_ORDER,
        x % block_bytes(o, ps) == 0,
        block_bytes(o, ps) <= e - x,
        forall|o3: int| o < o3 <= DEFAULT_MAX_ORDER ==> !(x % #[trigger] block_bytes(o3, ps) == 0 && block_bytes(o3, ps) <= e - x),
    ensures
        o == vstd::math::min(align_order(x, DEFAULT_MAX_ORDER as int, ps), fit_order(e - x, DEFAULT_MAX_ORDER as int, ps)),
{
    let m = DEFAULT_MAX_ORDER as int;
    let a = align_order(x, m, ps);
    let r = fit_order(e - x, m, ps);
    lemma_align_order(x, m, ps);
    lemma_fit_order(e - x, m, ps);
    let lo = vstd::math::min(a, r);
    lemma_aligned_lower(x, lo, a, ps);
    lemma_block_bytes_divides(lo, r, ps);
    if o < lo {
        assert(!(x % block_bytes(lo, ps) == 0 && block_bytes(lo, ps) <= e - x));
    }
    if o > a {
        assert(x % block_bytes(o, ps) != 0);
    }
    if o > r {
        assert(block_bytes(o, ps) > e - x);
    }
}

/// Every step of the greedy layout uses up at least one of the blocks the
/// bound still allows.
pub proof fn lemma_greedy_step(x: int, e: int, ps: int)
    requires
        ps > 0,
        x % ps == 0,
        e % ps == 0,
        x + ps <= e,
    ensures
        ({
            let m = DEFAULT_MAX_ORDER as int;
            let o = vstd::math::min(align_order(x, m, ps), fit_order(e - x, m, ps));
            greedy_left(x + block_bytes(o, ps), e, ps) + 1 <= greedy_left(x, e, ps)
        }),
        greedy_left(x, e, ps) >= 1,
{
    let m = DEFAULT_MAX_ORDER as int;
    let a = align_order(x, m, ps);
    let r = fit_order(e - x, m, ps);
    let o = vstd::math::min(a, r);
    let bo = block_bytes(o, ps);
    let x2 = x + bo;
    let bm = block_bytes(m, ps);
    lemma_align_order(x, m, ps);
    lemma_fit_order(e - x, m, ps);
    lemma_block_bytes(o, ps);
    lemma_block_bytes(m, ps);
    lemma_block_bytes_divides(o, r, ps);
    lemma_aligned_lower(x, o, a, ps);
    assert(x2 <= e);
    assert(x2 % ps == 0) by {
        vstd::arithmetic::div_mod::lemma_fundamental_div_mod(bo, ps);
        crate::math::lemma_mod_add(x, bo, ps);
    }
    if x2 < e {
        crate::math::lemma_multiples_gap(x2, e, ps);
        lemma_align_order(x2, m, ps);
        lemma_fit_order(e - x2, m, ps);
        lemma_fit_order_mono(e - x2, e - x, m, ps);
    }
    let a2 = align_order(x2, m, ps);
    let r2 = fit_order(e - x2, m, ps);
    if r < a {
        // Past the largest blocks: each block leaves less than itself.
        lemma_block_bytes(r + 1, ps);
        assert(e - x < block_bytes(r + 1, ps));
        if x2 < e {
            assert(e - x2 < bo);
            if r2 >= r {
                lemma_block_bytes_divides(r, r2, ps);
            }
            assert(r2 < r);
            lemma_aligned_lower(x, r + 1, a, ps);
            lemma_block_bytes(r + 1, ps);
            assert(x2 % bo == 0) by {
                lemma_aligned_lower(x, r, r + 1, ps);
                vstd::arithmetic::div_mod::lemma_mod_self_0(bo);
                crate::math::lemma_mod_add(x, bo, bo);
            }
            if a2 < r {
                assert(x2 % block_bytes(r, ps) != 0);
            }
        }
    } else if a < m {
        // Rising: the cursor gains alignment.
        assert(o == a);
        assert(x % block_bytes(a + 1, ps) != 0);
        lemma_block_bytes(a + 1, ps);
        let b1 = block_bytes(a + 1, ps);
        assert(x2 % b1 == 0) by {
            vstd::arithmetic::div_mod::lemma_fundamental_div_mod(x, bo);
            let q = x / bo;
            assert(x == q * bo) by (nonlinear_arith) requires x == bo * q + 0;
            vstd::arithmetic::div_mod::lemma_fundamental_div_mod(q, 2);
            let h = q / 2;
            if q % 2 == 0 {
                assert(x == h * b1) by (nonlinear_arith) requires x == q * bo, q == 2 * h + 0, b1 == 2 * bo;
                vstd::arithmetic::div_mod::lemma_mod_multiples_basic(h, b1);
            }
            assert(q % 2 == 1);
            assert(x2 == (h + 1) * b1) by (nonlinear_arith) requires x == q * bo, q == 2 * h + 1, b1 == 2 * bo, x2 == x + bo;
            vstd::arithmetic::div_mod::lemma_mod_multiples_basic(h + 1, b1);
        }
        if x2 < e {
            if a2 < a + 1 {
                assert(x2 % block_bytes(a + 1, ps) != 0);
            }
            vstd::arithmetic::div_mod::lemma_div_is_ordered(e - x2, e - x, bm);
        }
    } else {
        // At the largest order: one largest block less.
        assert(o == m && a == m && r == m);
        if x2 < e {
            assert(x2 % bm == 0) by {
                vstd::arithmetic::div_mod::lemma_mod_self_0(bm);
                crate::math::lemma_mod_add(x, bm, bm);
            }
            assert(a2 == m);
            vstd::arithmetic::div_mod::lemma_div_plus_one(e - x2, bm);
            assert(e - x == (e - x2) + bm);
        }
    }
}

/// The greedy bound of a zone is within `layout_nodes`.
pub proof fn lemma_greedy_left_bound(x: int, e: int, ps: int)
    requires
        ps > 0,
        x % ps == 0,
        x <= e,
    ensures
        greedy_left(x, e, ps) <= layout_nodes(x, e, ps),
{
    let m = DEFAULT_MAX_ORDER as int;
    lemma_align_order(x, m, ps);
    lemma_block_bytes(m, ps);
    lemma_fit_order(e - x, m, ps);
    vstd::arithmetic::div_mod::lemma_div_pos_is_pos(e - x, block_bytes(m, ps));
}

} // verus!
