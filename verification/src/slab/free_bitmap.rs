//! Free-object bitmaps of up to 512 objects: eight 64-bit words, bit `i`
//! of the bitmap set when object `i` is free.
use vstd::prelude::*;
use vstd::std_specs::bits::{u64_trailing_zeros, axiom_u64_trailing_zeros};
use vstd::set_lib::set_int_range;

verus! {

/// Number of 64-bit words in a free bitmap.
pub const FREE_BITMAP_WORDS: usize = 8;

/// Number of objects a free bitmap tracks.
pub const BITMAP_OBJECTS: usize = 512;

/// Bit `b` of the word `w` is set.
pub open spec fn bit_of(w: u64, b: int) -> bool {
    (w >> (b as u64)) & 1u64 == 1u64
}

/// Object `i` is marked free in the bitmap.
pub open spec fn is_set(bm: [u64; 8], i: int) -> bool {
    0 <= i < 512 && bit_of(bm[i / 64], i % 64)
}

/// The objects below `n` marked free.
pub open spec fn set_below(bm: [u64; 8], n: int) -> Set<int> {
    Set::new(|i: int| 0 <= i < n && is_set(bm, i))
}

pub(crate) proof fn lemma_clear_bit_word(w: u64, b: u64, j: u64)
    by (bit_vector)
    requires
        b < 64,
        j < 64,
    ensures
        (((w & !(1u64 << b)) >> j) & 1u64 == 1u64) <==> (j != b && (w >> j) & 1u64 == 1u64),
{
}

pub(crate) proof fn lemma_set_bit_word(w: u64, b: u64, j: u64)
    by (bit_vector)
    requires
        b < 64,
        j < 64,
    ensures
        (((w | (1u64 << b)) >> j) & 1u64 == 1u64) <==> (j == b || (w >> j) & 1u64 == 1u64),
{
}

proof fn lemma_zero_word()
    by (bit_vector)
    ensures
        forall|j: u64| j < 64 ==> (0u64 >> j) & 1u64 != 1u64,
{
}

/// Index arithmetic of bit positions.
proof fn lemma_index(w: int, b: int)
    requires
        0 <= w < 8,
        0 <= b < 64,
    ensures
        (w * 64 + b) / 64 == w,
        (w * 64 + b) % 64 == b,
        0 <= w * 64 + b < 512,
{
    vstd::arithmetic::div_mod::lemma_fundamental_div_mod_converse(w * 64 + b, 64, w, b);
}

/// An empty bitmap has no free object.
pub proof fn lemma_empty_bitmap(bm: [u64; 8])
    requires
        forall|k: int| 0 <= k < 8 ==> #[trigger] bm[k] == 0u64,
    ensures
        forall|i: int| !#[trigger] is_set(bm, i),
{
    lemma_zero_word();
    assert forall|i: int| !#[trigger] is_set(bm, i) by {
        if 0 <= i < 512 {
            assert(bm[i / 64] == 0u64);
            assert((0u64 >> ((i % 64) as u64)) & 1u64 != 1u64);
        }
    }
}

/// The free objects below `n` are finitely many, at most `n`.
pub proof fn lemma_set_below_finite(bm: [u64; 8], n: int)
    requires
        0 <= n,
    ensures
        set_below(bm, n).finite(),
        set_below(bm, n).len() <= n,
{
    vstd::set_lib::lemma_int_range(0, n);
    vstd::set_lib::lemma_len_subset(set_below(bm, n), set_int_range(0, n));
}

/// Find the lowest object marked free.
pub fn first_set(bm: &[u64; 8]) -> (r: Option<usize>)
    ensures
        r matches Some(i) ==> i < 512 && is_set(*bm, i as int) && forall|j: int| 0 <= j < i ==> !#[trigger] is_set(*bm, j),
        r is None ==> forall|j: int| !#[trigger] is_set(*bm, j),
{
    broadcast use axiom_u64_trailing_zeros;
    let mut word_idx: usize = 0;
    while word_idx < FREE_BITMAP_WORDS
        invariant
            word_idx <= 8,
            forall|j: int| 0 <= j < word_idx * 64 ==> !#[trigger] is_set(*bm, j),
        decreases 8 - word_idx,
    {
        let word = bm[word_idx];
        if word != 0 {
            let bit_pos = word.trailing_zeros();
            proof {
                lemma_index(word_idx as int, bit_pos as int);
                assert forall|j: int| 0 <= j < word_idx * 64 + bit_pos implies !#[trigger] is_set(*bm, j) by {
                    if j >= word_idx * 64 {
                        lemma_index(word_idx as int, j - word_idx * 64);
                        assert(((word >> ((j % 64) as u64)) & 1u64) == 0u64);
                    }
                }
            }
            return Some(word_idx * 64 + bit_pos as usize);
        }
        proof {
            assert forall|j: int| 0 <= j < (word_idx + 1) * 64 implies !#[trigger] is_set(*bm, j) by {
                if j >= word_idx * 64 {
                    lemma_index(word_idx as int, j - word_idx * 64);
                    lemma_zero_word();
                    assert((0u64 >> ((j % 64) as u64)) & 1u64 != 1u64);
                }
            }
        }
        word_idx = word_idx + 1;
    }
    None
}

/// Mark object `i` as taken.
pub fn clear_bit(bm: &mut [u64; 8], i: usize)
    requires
        i < 512,
    ensures
        forall|j: int| #[trigger] is_set(*final(bm), j) <==> j != i && is_set(*old(bm), j),
{
    let word_idx = i / 64;
    let bit_idx = (i % 64) as u64;
    let w = bm[word_idx];
    bm[word_idx] = w & !(1u64 << bit_idx);
    proof {
        assert forall|j: int| #[trigger] is_set(*bm, j) <==> j != i && is_set(*old(bm), j) by {
            if 0 <= j < 512 {
                let jb = (j % 64) as u64;
                if j / 64 == word_idx {
                    assert(jb == bit_idx <==> j == i) by {
                        vstd::arithmetic::div_mod::lemma_fundamental_div_mod(j, 64);
                        vstd::arithmetic::div_mod::lemma_fundamental_div_mod(i as int, 64);
                    }
                    lemma_clear_bit_word(w, bit_idx, jb);
                    assert(bm[j / 64] == w & !(1u64 << bit_idx));
                    assert(old(bm)[j / 64] == w);
                } else {
                    assert(bm[j / 64] == old(bm)[j / 64]);
                    if j == i {
                        assert(false);
                    }
                }
            }
        }
    }
}

/// Mark object `i` as free.
pub fn set_bit(bm: &mut [u64; 8], i: usize)
    requires
        i < 512,
    ensures
        forall|j: int| #[trigger] is_set(*final(bm), j) <==> j == i || is_set(*old(bm), j),
{
    let word_idx = i / 64;
    let bit_idx = (i % 64) as u64;
    let w = bm[word_idx];
    bm[word_idx] = w | (1u64 << bit_idx);
    proof {
        assert forall|j: int| #[trigger] is_set(*bm, j) <==> j == i || is_set(*old(bm), j) by {
            if 0 <= j < 512 {
                let jb = (j % 64) as u64;
                if j / 64 == word_idx {
                    assert(jb == bit_idx <==> j == i) by {
                        vstd::arithmetic::div_mod::lemma_fundamental_div_mod(j, 64);
                        vstd::arithmetic::div_mod::lemma_fundamental_div_mod(i as int, 64);
                    }
                    lemma_set_bit_word(w, bit_idx, jb);
                    assert(bm[j / 64] == w | (1u64 << bit_idx));
                    assert(old(bm)[j / 64] == w);
                } else {
                    assert(bm[j / 64] == old(bm)[j / 64]);
                    if j == i {
                        assert(false);
                    }
                }
            }
        }
    }
}

/// Test whether object `i` is marked free.
pub fn test_bit(bm: &[u64; 8], i: usize) -> (r: bool)
    requires
        i < 512,
    ensures
        r == is_set(*bm, i as int),
{
    let word_idx = i / 64;
    let bit_idx = (i % 64) as u64;
    (bm[word_idx] >> bit_idx) & 1u64 == 1u64
}

pub(crate) proof fn lemma_full_word(j: u64)
    by (bit_vector)
    requires
        j < 64,
    ensures
        (0xffff_ffff_ffff_ffffu64 >> j) & 1u64 == 1u64,
{
}

proof fn lemma_low_mask(r: u64, j: u64)
    by (bit_vector)
    requires
        0 < r < 64,
        j < 64,
    ensures
        ((((1u64 << r) - 1u64) as u64 >> j) & 1u64 == 1u64) <==> j < r,
{
}

/// A bitmap marking exactly the objects below `n` as free.
pub fn bitmap_below(n: usize) -> (bm: [u64; 8])
    requires
        n <= 512,
    ensures
        forall|i: int| #[trigger] is_set(bm, i) <==> 0 <= i < n,
{
    let mut bm = [0xffff_ffff_ffff_ffffu64; 8];
    if n < BITMAP_OBJECTS {
        let full_words = n / 64;
        let rem_bits = n % 64;
        let mut i: usize = 0;
        while i < FREE_BITMAP_WORDS
            invariant
                i <= 8,
                n < 512,
                full_words == n / 64,
                rem_bits == n % 64,
                forall|k: int| 0 <= k < 8 && (k >= i || k < full_words) ==> #[trigger] bm[k] == 0xffff_ffff_ffff_ffffu64,
                forall|k: int| 0 <= k < i && k > full_words ==> #[trigger] bm[k] == 0u64,
                i > full_words ==> (rem_bits == 0 ==> bm[full_words as int] == 0u64),
                i > full_words ==> (rem_bits > 0 ==> bm[full_words as int] == ((1u64 << (rem_bits as u64)) - 1u64) as u64),
            decreases 8 - i,
        {
            if i >= full_words {
                if i == full_words {
                    if rem_bits == 0 {
                        bm[i] = 0;
                    } else {
                        proof {
                            assert(1u64 << (rem_bits as u64) >= 1u64) by (bit_vector)
                                requires rem_bits < 64;
                        }
                        bm[i] = bm[i] & ((1u64 << (rem_bits as u64)) - 1);
                        proof {
                            let m = ((1u64 << (rem_bits as u64)) - 1u64) as u64;
                            assert(0xffff_ffff_ffff_ffffu64 & m == m) by (bit_vector);
                        }
                    }
                } else {
                    bm[i] = 0;
                }
            }
            i = i + 1;
        }
    }
    proof {
        assert forall|i: int| #[trigger] is_set(bm, i) <==> 0 <= i < n by {
            if 0 <= i < 512 {
                let w = i / 64;
                let b = i % 64;
                vstd::arithmetic::div_mod::lemma_fundamental_div_mod(i, 64);
                if n >= 512 {
                    lemma_full_word(b as u64);
                } else {
                    let fw = n / 64;
                    let rb = n % 64;
                    vstd::arithmetic::div_mod::lemma_fundamental_div_mod(n as int, 64);
                    if w < fw {
                        lemma_full_word(b as u64);
                    } else if w > fw {
                        lemma_zero_word();
                        assert((0u64 >> (b as u64)) & 1u64 != 1u64);
                    } else if rb == 0 {
                        lemma_zero_word();
                        assert((0u64 >> (b as u64)) & 1u64 != 1u64);
                    } else {
                        lemma_low_mask(rb as u64, b as u64);
                    }
                }
            }
        }
    }
    bm
}

} // verus!
