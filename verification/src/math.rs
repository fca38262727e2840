//! Powers of two, block orders and the alignment facts the allocators use.
use vstd::prelude::*;
use vstd::arithmetic::power2::{pow2, lemma_pow2_pos, lemma_pow2_unfold, lemma_pow2_adds, lemma_pow2_strictly_increases};
use vstd::arithmetic::div_mod::{lemma_fundamental_div_mod, lemma_mod_multiples_basic, lemma_div_multiples_vanish};

verus! {

/// `x` rounded down to a multiple of `m`.
pub open spec fn round_down(x: int, m: int) -> int {
    x - x % m
}

/// `x` rounded up to a multiple of `m`.
pub open spec fn round_up(x: int, m: int) -> int {
    if x % m == 0 {
        x
    } else {
        x - x % m + m
    }
}

/// Rounding up gives the least multiple of `m` at or above `x`.
pub proof fn lemma_round_up(x: int, m: int)
    requires
        m > 0,
    ensures
        round_up(x, m) % m == 0,
        x <= round_up(x, m) < x + m,
{
    lemma_fundamental_div_mod(x, m);
    vstd::arithmetic::div_mod::lemma_mod_bound(x, m);
    if x % m != 0 {
        lemma_mod_multiples_basic(x / m + 1, m);
        assert(x - x % m + m == (x / m + 1) * m) by (nonlinear_arith) requires x == m * (x / m) + x % m;
    }
}

/// `n` is a power of two that fits in a machine word.
pub open spec fn is_pow2(n: int) -> bool {
    exists|e: nat| e < 64 && #[trigger] pow2(e) == n
}

/// The exponent of a power of two.
pub open spec fn log2(n: int) -> nat {
    choose|e: nat| e < 64 && #[trigger] pow2(e) == n
}

/// The smallest order whose block holds `n` pages: the least `o` with `2^o >= n`.
pub open spec fn order_for(n: nat) -> nat {
    choose|o: nat| o <= 64 && #[trigger] pow2(o) >= n && (o == 0 || pow2((o - 1) as nat) < n)
}

/// The number of trailing zero bits of a machine word (64 for zero).
pub open spec fn trailing_zeros(x: nat) -> nat
    decreases x,
{
    if x == 0 {
        64
    } else if x % 2 == 1 {
        0
    } else {
        1 + trailing_zeros(x / 2)
    }
}

pub proof fn lemma_pow2_values()
    ensures
        pow2(0) == 1,
        pow2(1) == 2,
        pow2(63) == 0x8000_0000_0000_0000,
        pow2(64) == 0x1_0000_0000_0000_0000,
{
    vstd::arithmetic::power2::lemma2_to64();
    vstd::arithmetic::power2::lemma2_to64_rest();
}

/// A power of two is positive.
pub proof fn lemma_is_pow2_pos(n: int)
    requires is_pow2(n),
    ensures n >= 1,
{
    let e = choose|e: nat| e < 64 && #[trigger] pow2(e) == n;
    lemma_pow2_pos(e);
}

/// A machine word holds exactly the numbers below `2^BITS`.
pub proof fn lemma_usize_bits()
    ensures
        pow2(usize::BITS as nat) == usize::MAX + 1,
        usize::BITS <= 64,
{
    vstd::arithmetic::power2::lemma2_to64();
    assert(usize::BITS == 32 || usize::BITS == 64);
}

/// Powers of two are monotone.
pub proof fn lemma_pow2_le(a: nat, b: nat)
    requires a <= b,
    ensures pow2(a) <= pow2(b),
{
    if a < b {
        lemma_pow2_strictly_increases(a, b);
    }
}

/// A larger power of two is a multiple of a smaller one.
pub proof fn lemma_pow2_divides(a: nat, b: nat)
    requires a <= b,
    ensures
        pow2(b) % pow2(a) == 0,
        pow2(b) == pow2(a) * pow2((b - a) as nat),
{
    lemma_pow2_adds(a, (b - a) as nat);
    lemma_pow2_pos(a);
    lemma_pow2_pos((b - a) as nat);
    lemma_mod_multiples_basic(pow2((b - a) as nat) as int, pow2(a) as int);
    assert(pow2(a) * pow2((b - a) as nat) == pow2((b - a) as nat) * pow2(a)) by (nonlinear_arith);
}

/// Of two powers of two, the larger is a multiple of the smaller.
pub proof fn lemma_pow2_le_divides(a: int, b: int)
    requires
        is_pow2(a),
        is_pow2(b),
        a <= b,
    ensures
        b % a == 0,
        b == a * (b / a),
{
    let ea = choose|e: nat| e < 64 && #[trigger] pow2(e) == a;
    let eb = choose|e: nat| e < 64 && #[trigger] pow2(e) == b;
    if ea > eb {
        lemma_pow2_strictly_increases(eb, ea);
    }
    lemma_pow2_divides(ea, eb);
    lemma_pow2_pos(ea);
    lemma_fundamental_div_mod(b, a);
}

/// Divisibility is transitive.
pub proof fn lemma_mod_trans(x: int, m: int, d: int)
    requires
        d > 0,
        m > 0,
        x % m == 0,
        m % d == 0,
    ensures
        x % d == 0,
{
    lemma_fundamental_div_mod(x, m);
    lemma_fundamental_div_mod(m, d);
    let q1 = x / m;
    let q2 = m / d;
    assert(x == (q1 * q2) * d) by (nonlinear_arith)
        requires x == m * q1, m == d * q2;
    lemma_mod_multiples_basic(q1 * q2, d);
}

/// `x` is a multiple of `m` exactly when it equals `m` times its quotient.
pub proof fn lemma_mod_zero_mul(x: int, m: int)
    requires m > 0, x % m == 0,
    ensures x == (x / m) * m,
{
    lemma_fundamental_div_mod(x, m);
    assert(m * (x / m) == (x / m) * m) by (nonlinear_arith);
}

/// Sums and differences of multiples are multiples.
pub proof fn lemma_mod_add(a: int, b: int, m: int)
    requires m > 0, a % m == 0, b % m == 0,
    ensures (a + b) % m == 0, (a - b) % m == 0,
{
    lemma_mod_zero_mul(a, m);
    lemma_mod_zero_mul(b, m);
    let qa = a / m;
    let qb = b / m;
    assert(a + b == (qa + qb) * m) by (nonlinear_arith) requires a == qa * m, b == qb * m;
    assert(a - b == (qa - qb) * m) by (nonlinear_arith) requires a == qa * m, b == qb * m;
    lemma_mod_multiples_basic(qa + qb, m);
    lemma_mod_multiples_basic(qa - qb, m);
}

/// Two distinct multiples of `m` are at least `m` apart.
pub proof fn lemma_multiples_gap(a: int, b: int, m: int)
    requires m > 0, a % m == 0, b % m == 0, a < b,
    ensures a + m <= b,
{
    lemma_mod_zero_mul(a, m);
    lemma_mod_zero_mul(b, m);
    let qa = a / m;
    let qb = b / m;
    assert(qa < qb) by (nonlinear_arith) requires a == qa * m, b == qb * m, a < b, m > 0;
    assert(a + m <= b) by (nonlinear_arith) requires a == qa * m, b == qb * m, qa < qb, m > 0;
}

/// Rounding down to a multiple of `m` gives the multiple at or below `x`.
pub proof fn lemma_align_down_unique(x: int, b: int, m: int)
    requires m > 0, b % m == 0, b <= x < b + m,
    ensures x - x % m == b, x % m == x - b,
{
    lemma_mod_zero_mul(b, m);
    let q = b / m;
    lemma_fundamental_div_mod(x, m);
    assert(x == m * q + (x - b)) by (nonlinear_arith) requires b == q * m;
    vstd::arithmetic::div_mod::lemma_mod_multiples_vanish(q, x - b, m);
    vstd::arithmetic::div_mod::lemma_small_mod((x - b) as nat, m as nat);
}

/// The ranges `[a, a + la)` and `[b, b + lb)` share an address.
pub open spec fn ranges_overlap(a: int, la: int, b: int, lb: int) -> bool {
    a < b + lb && b < a + la
}

/// Two aligned blocks of sizes `m1 <= m2` overlap exactly when the larger one
/// starts at the smaller one's start rounded down to `m2`.
pub proof fn lemma_aligned_overlap(a: int, m1: int, b: int, m2: int)
    requires
        m1 > 0, m2 > 0,
        m2 % m1 == 0,
        a % m1 == 0,
        b % m2 == 0,
    ensures
        ranges_overlap(a, m1, b, m2) <==> (b <= a < b + m2),
        (b <= a < b + m2) <==> (a - a % m2 == b),
        (b <= a < b + m2) ==> a + m1 <= b + m2,
{
    lemma_mod_trans(b, m2, m1);
    if ranges_overlap(a, m1, b, m2) {
        if a < b {
            lemma_multiples_gap(a, b, m1);
        }
    }
    if b <= a < b + m2 {
        lemma_align_down_unique(a, b, m2);
        // the smaller block ends within the larger one
        lemma_mod_add(a, b, m1);
        if a + m1 > b + m2 {
            lemma_mod_add(b, m2, m1);
            lemma_multiples_gap(a, b + m2, m1);
        }
    }
    if a - a % m2 == b {
        lemma_fundamental_div_mod(a, m2);
        assert(0 <= a % m2 < m2) by {
            vstd::arithmetic::div_mod::lemma_mod_bound(a, m2);
        }
    }
}

/// Computes `2^e`.
pub fn pow2_usize(e: usize) -> (r: usize)
    requires pow2(e as nat) <= usize::MAX,
    ensures r == pow2(e as nat),
{
    let mut r: usize = 1;
    let mut i: usize = 0;
    proof {
        lemma_pow2_values();
    }
    while i < e
        invariant
            i <= e,
            pow2(e as nat) <= usize::MAX,
            r == pow2(i as nat),
        decreases e - i,
    {
        proof {
            lemma_pow2_unfold((i + 1) as nat);
            lemma_pow2_le((i + 1) as nat, e as nat);
        }
        r = r * 2;
        i = i + 1;
    }
    r
}

/// The order of a block that holds `n` pages: the least `o` with `2^o >= n`.
pub fn order_of(n: usize) -> (o: usize)
    requires n >= 1,
    ensures
        o <= 64,
        o == order_for(n as nat),
        pow2(o as nat) >= n,
        o == 0 || pow2((o - 1) as nat) < n,
{
    let mut o: usize = 0;
    let mut p: usize = 1;
    proof {
        lemma_pow2_values();
    }
    while p < n
        invariant
            o < 64,
            p == pow2(o as nat),
            n >= 1,
            o == 0 || pow2((o - 1) as nat) < n,
        decreases 64 - o,
    {
        proof {
            lemma_pow2_unfold((o + 1) as nat);
        }
        if p > usize::MAX / 2 {
            proof {
                lemma_pow2_values();
                lemma_pow2_le((o + 1) as nat, 64);
                assert(usize::MAX < pow2(64));
                lemma_order_unique((o + 1) as nat, n as nat);
            }
            return o + 1;
        }
        proof {
            if o + 1 >= 64 {
                lemma_pow2_le(64, (o + 1) as nat);
                lemma_pow2_values();
            }
        }
        p = p * 2;
        o = o + 1;
    }
    proof {
        lemma_order_unique(o as nat, n as nat);
    }
    o
}

/// `order_for` is pinned down by its two defining properties.
pub proof fn lemma_order_unique(o: nat, n: nat)
    requires
        o <= 64,
        pow2(o) >= n,
        o == 0 || pow2((o - 1) as nat) < n,
    ensures
        order_for(n) == o,
{
    assert(exists|k: nat| k <= 64 && #[trigger] pow2(k) >= n && (k == 0 || pow2((k - 1) as nat) < n));
    let k = order_for(n);
    if k < o {
        lemma_pow2_le(k, (o - 1) as nat);
    }
    if o < k {
        lemma_pow2_le(o, (k - 1) as nat);
    }
}

/// A count of at most `2^64` has an order of at most 64.
pub proof fn lemma_order_for_bound(n: nat)
    requires
        n <= pow2(64),
    ensures
        order_for(n) <= 64,
        pow2(order_for(n)) >= n,
{
    lemma_order_search(n, 64);
}

/// Searching down from an order `k` that holds `n` finds `order_for(n)`.
proof fn lemma_order_search(n: nat, k: nat)
    requires
        k <= 64,
        pow2(k) >= n,
    ensures
        order_for(n) <= k,
        pow2(order_for(n)) >= n,
    decreases k,
{
    if k == 0 || pow2((k - 1) as nat) < n {
        lemma_order_unique(k, n);
    } else {
        lemma_order_search(n, (k - 1) as nat);
    }
}

/// The order for `2^e` pages is `e`.
pub proof fn lemma_order_of_pow2(e: nat)
    requires e <= 64,
    ensures order_for(pow2(e)) == e,
{
    if e > 0 {
        lemma_pow2_strictly_increases((e - 1) as nat, e);
    }
    lemma_order_unique(e, pow2(e));
}

/// Counts the trailing zero bits of `x` (64 when `x` is zero).
pub fn trailing_zeros_usize(x: usize) -> (r: usize)
    ensures r == trailing_zeros(x as nat),
{
    if x == 0 {
        return 64;
    }
    let mut v = x;
    let mut c: usize = 0;
    proof {
        lemma_pow2_values();
        lemma_tz_bound(x as nat);
    }
    while v % 2 == 0
        invariant
            v > 0,
            v <= x,
            c <= 64,
            trailing_zeros(x as nat) < 64,
            c + trailing_zeros(v as nat) == trailing_zeros(x as nat),
        decreases v,
    {
        proof {
            assert(trailing_zeros(v as nat) == 1 + trailing_zeros((v / 2) as nat));
        }
        v = v / 2;
        c = c + 1;
    }
    c
}

proof fn lemma_tz_bound(x: nat)
    requires x < pow2(64),
    ensures trailing_zeros(x) <= 64, x > 0 ==> trailing_zeros(x) < 64,
{
    if x > 0 && trailing_zeros(x) >= 64 {
        lemma_tz_pow(x, 64);
    }
}

/// A number with at least `k` trailing zeros is a multiple of `2^k` (so at least `2^k`).
proof fn lemma_tz_pow(x: nat, k: nat)
    requires x > 0, trailing_zeros(x) >= k,
    ensures x >= pow2(k),
    decreases k,
{
    lemma_pow2_pos(k);
    if k > 0 {
        assert(x % 2 == 0);
        lemma_tz_pow(x / 2, (k - 1) as nat);
        lemma_pow2_unfold(k);
    } else {
        lemma_pow2_values();
    }
}

/// The trailing zeros of `2^e` number `e`.
pub proof fn lemma_tz_pow2(e: nat)
    requires e < 64,
    ensures trailing_zeros(pow2(e)) == e,
    decreases e,
{
    lemma_pow2_pos(e);
    if e == 0 {
        lemma_pow2_values();
    } else {
        lemma_pow2_unfold(e);
        lemma_tz_pow2((e - 1) as nat);
        assert(pow2(e) / 2 == pow2((e - 1) as nat));
    }
}

/// Decides whether `x` is a power of two.
pub fn is_power_of_two(x: usize) -> (r: bool)
    ensures r == is_pow2(x as int),
{
    if x == 0 {
        proof {
            if is_pow2(0) {
                let e = choose|e: nat| e < 64 && pow2(e) == 0;
                lemma_pow2_pos(e);
            }
        }
        return false;
    }
    let mut v = x;
    let mut e: usize = 0;
    proof {
        lemma_pow2_values();
    }
    while v % 2 == 0
        invariant
            v > 0,
            e < 64,
            x == v * pow2(e as nat),
            x <= usize::MAX,
        decreases v,
    {
        proof {
            lemma_pow2_unfold((e + 1) as nat);
            lemma_fundamental_div_mod(v as int, 2);
            assert(x == (v / 2) * pow2((e + 1) as nat)) by (nonlinear_arith)
                requires x == v * pow2(e as nat), v == 2 * (v / 2), pow2((e + 1) as nat) == 2 * pow2(e as nat);
            if e + 1 >= 64 {
                lemma_pow2_le(64, (e + 1) as nat);
                lemma_pow2_values();
                assert((v / 2) * pow2((e + 1) as nat) >= pow2((e + 1) as nat)) by (nonlinear_arith)
                    requires v / 2 >= 1;
            }
        }
        v = v / 2;
        e = e + 1;
    }
    proof {
        if v == 1 {
            assert(pow2(e as nat) == x);
        } else if is_pow2(x as int) {
            let k = choose|k: nat| k < 64 && pow2(k) == x;
            lemma_odd_times_pow2(v as nat, e as nat, k);
        }
    }
    v == 1
}

/// An odd multiple of `2^e` that is itself a power of two is `2^e`.
proof fn lemma_odd_times_pow2(v: nat, e: nat, k: nat)
    requires v % 2 == 1, v * pow2(e) == pow2(k),
    ensures v == 1,
    decreases e,
{
    lemma_pow2_pos(e);
    lemma_pow2_pos(k);
    if e == 0 {
        lemma_pow2_values();
        if k > 0 {
            lemma_pow2_unfold(k);
        }
    } else {
        lemma_pow2_unfold(e);
        if k == 0 {
            lemma_pow2_values();
            assert(v * pow2(e) >= 2) by (nonlinear_arith) requires v >= 1, pow2(e) >= 2;
        } else {
            lemma_pow2_unfold(k);
            assert(v * pow2((e - 1) as nat) == pow2((k - 1) as nat)) by (nonlinear_arith)
                requires v * pow2(e) == pow2(k), pow2(e) == 2 * pow2((e - 1) as nat), pow2(k) == 2 * pow2((k - 1) as nat);
            lemma_odd_times_pow2(v, (e - 1) as nat, (k - 1) as nat);
        }
    }
}

} // verus!
