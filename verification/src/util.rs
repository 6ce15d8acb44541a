//! Bit-level helpers for 64-bit masks, with the model of a mask as a set of
//! bit positions.

use std::collections::BTreeMap;
use vstd::prelude::*;

verus! {

/// Bit `i` of `x` is set.
pub open spec fn has_bit(x: u64, i: int) -> bool {
    0 <= i < 64 && (x >> (i as u64)) & 1 == 1
}

/// Number of set bits of `x` at positions below `n`.
pub open spec fn count_bits(x: u64, n: int) -> int
    decreases n,
{
    if n <= 0 {
        0
    } else {
        count_bits(x, n - 1) + if has_bit(x, n - 1) { 1int } else { 0int }
    }
}

/// Number of set bits of `x`.
pub open spec fn popcount(x: u64) -> int {
    count_bits(x, 64)
}

/// The field of `v` that starts at bit `shift` and is selected by `mask`.
pub open spec fn field(v: u64, shift: int, mask: u64) -> int {
    ((v >> (shift as u64)) & mask) as int
}

proof fn lemma_swar_stages(x: u64, a: u64, b: u64, c: u64, d: u64, e: u64, r: u64, s: u64)
    by (bit_vector)
    requires
        a == (x & 0x5555555555555555) + ((x & 0xaaaaaaaaaaaaaaaa) >> 1),
        b == (a & 0x3333333333333333) + ((a & 0xcccccccccccccccc) >> 2),
        c == (b & 0x0f0f0f0f0f0f0f0f) + ((b & 0xf0f0f0f0f0f0f0f0) >> 4),
        d == (c & 0x00ff00ff00ff00ff) + ((c & 0xff00ff00ff00ff00) >> 8),
        e == (d & 0x0000ffff0000ffff) + ((d & 0xffff0000ffff0000) >> 16),
        r == (e & 0x00000000ffffffff) + ((e & 0xffffffff00000000) >> 32),
        s < 64,
    ensures
        (x >> s) & 1 == 0 || (x >> s) & 1 == 1,
        s % 2 == 0 ==> (a >> s) & 3 == ((x >> s) & 1) + ((x >> ((s + 1) as u64)) & 1),
        s % 4 == 0 ==> (b >> s) & 0xf == ((a >> s) & 3) + ((a >> ((s + 2) as u64)) & 3),
        s % 8 == 0 ==> (c >> s) & 0xff == ((b >> s) & 0xf) + ((b >> ((s + 4) as u64)) & 0xf),
        s % 16 == 0 ==> (d >> s) & 0xffff == ((c >> s) & 0xff) + ((c >> ((s + 8) as u64)) & 0xff),
        s % 32 == 0 ==> (e >> s) & 0xffffffff == ((d >> s) & 0xffff) + ((d >> ((s + 16) as u64))
            & 0xffff),
        r == ((e >> 0) & 0xffffffff) + ((e >> 32) & 0xffffffff),
{
}

proof fn lemma_swar_no_overflow(x: u64)
    by (bit_vector)
    ensures
        (x & 0x5555555555555555) + ((x & 0xaaaaaaaaaaaaaaaa) >> 1) <= 0xffff_ffff_ffff_ffff,
        (x & 0x3333333333333333) + ((x & 0xcccccccccccccccc) >> 2) <= 0xffff_ffff_ffff_ffff,
        (x & 0x0f0f0f0f0f0f0f0f) + ((x & 0xf0f0f0f0f0f0f0f0) >> 4) <= 0xffff_ffff_ffff_ffff,
        (x & 0x00ff00ff00ff00ff) + ((x & 0xff00ff00ff00ff00) >> 8) <= 0xffff_ffff_ffff_ffff,
        (x & 0x0000ffff0000ffff) + ((x & 0xffff0000ffff0000) >> 16) <= 0xffff_ffff_ffff_ffff,
        (x & 0x00000000ffffffff) + ((x & 0xffffffff00000000) >> 32) <= 0xffff_ffff_ffff_ffff,
{
}

/// Number of set bits of `x` at positions from `lo` up to, not including, `hi`.
pub open spec fn count_range(x: u64, lo: int, hi: int) -> int {
    count_bits(x, hi) - count_bits(x, lo)
}

proof fn lemma_swar_counts(x: u64, a: u64, b: u64, c: u64, d: u64, e: u64, r: u64)
    requires
        a == (x & 0x5555555555555555) + ((x & 0xaaaaaaaaaaaaaaaa) >> 1),
        b == (a & 0x3333333333333333) + ((a & 0xcccccccccccccccc) >> 2),
        c == (b & 0x0f0f0f0f0f0f0f0f) + ((b & 0xf0f0f0f0f0f0f0f0) >> 4),
        d == (c & 0x00ff00ff00ff00ff) + ((c & 0xff00ff00ff00ff00) >> 8),
        e == (d & 0x0000ffff0000ffff) + ((d & 0xffff0000ffff0000) >> 16),
        r == (e & 0x00000000ffffffff) + ((e & 0xffffffff00000000) >> 32),
    ensures
        r == popcount(x),
{
    assert forall|s: int| 0 <= s < 64 implies #[trigger] field(x, s, 1) == count_range(
        x,
        s,
        s + 1,
    ) by {
        lemma_swar_stages(x, a, b, c, d, e, r, s as u64);
    }
    assert forall|s: int| 0 <= s < 64 && s % 2 == 0 implies #[trigger] field(a, s, 3)
        == count_range(x, s, s + 2) by {
        lemma_swar_stages(x, a, b, c, d, e, r, s as u64);
        assert(field(a, s, 3) == field(x, s, 1) + field(x, s + 1, 1));
    }
    assert forall|s: int| 0 <= s < 64 && s % 4 == 0 implies #[trigger] field(b, s, 0xf)
        == count_range(x, s, s + 4) by {
        lemma_swar_stages(x, a, b, c, d, e, r, s as u64);
        assert(field(b, s, 0xf) == field(a, s, 3) + field(a, s + 2, 3));
    }
    assert forall|s: int| 0 <= s < 64 && s % 8 == 0 implies #[trigger] field(c, s, 0xff)
        == count_range(x, s, s + 8) by {
        lemma_swar_stages(x, a, b, c, d, e, r, s as u64);
        assert(field(c, s, 0xff) == field(b, s, 0xf) + field(b, s + 4, 0xf));
    }
    assert forall|s: int| 0 <= s < 64 && s % 16 == 0 implies #[trigger] field(d, s, 0xffff)
        == count_range(x, s, s + 16) by {
        lemma_swar_stages(x, a, b, c, d, e, r, s as u64);
        assert(field(d, s, 0xffff) == field(c, s, 0xff) + field(c, s + 8, 0xff));
    }
    assert forall|s: int| 0 <= s < 64 && s % 32 == 0 implies #[trigger] field(e, s, 0xffffffff)
        == count_range(x, s, s + 32) by {
        lemma_swar_stages(x, a, b, c, d, e, r, s as u64);
        assert(field(e, s, 0xffffffff) == field(d, s, 0xffff) + field(d, s + 16, 0xffff));
    }
    lemma_swar_stages(x, a, b, c, d, e, r, 0);
    assert(r == field(e, 0, 0xffffffff) + field(e, 32, 0xffffffff));
    assert(count_bits(x, 0) == 0);
}

/// Counts the set bits of a 64-bit word.
pub fn popcnt64(x: u64) -> (r: usize)
    ensures
        r == popcount(x),
        r <= 64,
{
    proof {
        lemma_swar_no_overflow(x);
    }
    let a: u64 = (x & 0x5555555555555555) + ((x & 0xaaaaaaaaaaaaaaaa) >> 1);
    proof {
        lemma_swar_no_overflow(a);
    }
    let b: u64 = (a & 0x3333333333333333) + ((a & 0xcccccccccccccccc) >> 2);
    proof {
        lemma_swar_no_overflow(b);
    }
    let c: u64 = (b & 0x0f0f0f0f0f0f0f0f) + ((b & 0xf0f0f0f0f0f0f0f0) >> 4);
    proof {
        lemma_swar_no_overflow(c);
    }
    let d: u64 = (c & 0x00ff00ff00ff00ff) + ((c & 0xff00ff00ff00ff00) >> 8);
    proof {
        lemma_swar_no_overflow(d);
    }
    let e: u64 = (d & 0x0000ffff0000ffff) + ((d & 0xffff0000ffff0000) >> 16);
    proof {
        lemma_swar_no_overflow(e);
    }
    let r: u64 = (e & 0x00000000ffffffff) + ((e & 0xffffffff00000000) >> 32);
    proof {
        lemma_swar_counts(x, a, b, c, d, e, r);
        lemma_count_bits_bounds(x, 64);
    }
    r as usize
}

/// `count_bits` lies between zero and the number of positions counted.
pub proof fn lemma_count_bits_bounds(x: u64, n: int)
    requires
        0 <= n,
    ensures
        0 <= count_bits(x, n) <= n,
    decreases n,
{
    if n > 0 {
        lemma_count_bits_bounds(x, n - 1);
    }
}

proof fn lemma_bit_algebra_bv(a: u64, b: u64, i: u64)
    by (bit_vector)
    requires
        i < 64,
    ensures
        (((a & b) >> i) & 1 == 1) == ((a >> i) & 1 == 1 && (b >> i) & 1 == 1),
        (((a | b) >> i) & 1 == 1) == ((a >> i) & 1 == 1 || (b >> i) & 1 == 1),
        (((a ^ b) >> i) & 1 == 1) == (((a >> i) & 1 == 1) != ((b >> i) & 1 == 1)),
        (((!a) >> i) & 1 == 1) == !((a >> i) & 1 == 1),
        (0u64 >> i) & 1 == 0,
        a != b ==> a ^ b != 0,
        (a >> 0) & 1 == a & 1,
        a != 0 && a & 1 != 1 ==> a >> 1 != 0 && a >> 1 < a,
        a >> 1 == a / 2,
        1u64 << 0u64 == 1u64,
{
}

proof fn lemma_bit_shift_bv(x: u64, d: u64, i: u64)
    by (bit_vector)
    requires
        i < 64,
        d < 64,
    ensures
        (((1u64 << d) >> i) & 1 == 1) == (i == d),
        (((x << d) >> i) & 1 == 1) == (i >= d && (x >> ((i - d) as u64)) & 1 == 1),
        (((x >> d) >> i) & 1 == 1) == (i + d < 64 && (x >> ((i + d) as u64)) & 1 == 1),
        ((1u64 << d) >> i != 0) == (i <= d),
        ((1u64 << d) >> i == 1) == (i == d),
{
}

/// OR may be regrouped and reordered.
pub proof fn lemma_or_rearrange(a: u64, b: u64, c: u64)
    by (bit_vector)
    ensures
        (a | b) | c == a | (c | b),
        0u64 | a == a,
        a | 0u64 == a,
        a | b == b | a,
{
}

/// The bits of `a & b`, `a | b`, `a ^ b`, `!a` and `0`, position by position.
pub proof fn lemma_bit_algebra(a: u64, b: u64)
    ensures
        forall|i: int| #[trigger] has_bit(a & b, i) == (has_bit(a, i) && has_bit(b, i)),
        forall|i: int| #[trigger] has_bit(a | b, i) == (has_bit(a, i) || has_bit(b, i)),
        forall|i: int| #[trigger] has_bit(a ^ b, i) == (has_bit(a, i) != has_bit(b, i)),
        forall|i: int| 0 <= i < 64 ==> #[trigger] has_bit(!a, i) == !has_bit(a, i),
        forall|i: int| !#[trigger] has_bit(0, i),
{
    assert forall|i: int| #[trigger] has_bit(a & b, i) == (has_bit(a, i) && has_bit(b, i)) by {
        if 0 <= i < 64 {
            lemma_bit_algebra_bv(a, b, i as u64);
        }
    }
    assert forall|i: int| #[trigger] has_bit(a | b, i) == (has_bit(a, i) || has_bit(b, i)) by {
        if 0 <= i < 64 {
            lemma_bit_algebra_bv(a, b, i as u64);
        }
    }
    assert forall|i: int| #[trigger] has_bit(a ^ b, i) == (has_bit(a, i) != has_bit(b, i)) by {
        if 0 <= i < 64 {
            lemma_bit_algebra_bv(a, b, i as u64);
        }
    }
    assert forall|i: int| 0 <= i < 64 implies #[trigger] has_bit(!a, i) == !has_bit(a, i) by {
        lemma_bit_algebra_bv(a, b, i as u64);
    }
    assert forall|i: int| !#[trigger] has_bit(0, i) by {
        if 0 <= i < 64 {
            lemma_bit_algebra_bv(a, b, i as u64);
        }
    }
}

/// The bits of `1 << d`, `x << d` and `x >> d`, position by position.
pub proof fn lemma_bit_shift(x: u64, d: int)
    requires
        0 <= d < 64,
    ensures
        forall|i: int| #[trigger] has_bit(1u64 << (d as u64), i) == (i == d),
        forall|i: int| #[trigger]
            has_bit(x << (d as u64), i) == (d <= i < 64 && has_bit(x, i - d)),
        forall|i: int| #[trigger] has_bit(x >> (d as u64), i) == (0 <= i && has_bit(x, i + d)),
{
    assert forall|i: int| #[trigger] has_bit(1u64 << (d as u64), i) == (i == d) by {
        if 0 <= i < 64 {
            lemma_bit_shift_bv(x, d as u64, i as u64);
        }
    }
    assert forall|i: int| #[trigger]
        has_bit(x << (d as u64), i) == (d <= i < 64 && has_bit(x, i - d)) by {
        if 0 <= i < 64 {
            lemma_bit_shift_bv(x, d as u64, i as u64);
        }
    }
    assert forall|i: int| #[trigger]
        has_bit(x >> (d as u64), i) == (0 <= i && has_bit(x, i + d)) by {
        if 0 <= i < 64 {
            lemma_bit_shift_bv(x, d as u64, i as u64);
        }
    }
}

/// A word other than zero has a set bit; its position is returned.
pub proof fn lemma_nonzero_has_bit(z: u64) -> (i: int)
    requires
        z != 0,
    ensures
        has_bit(z, i),
    decreases z,
{
    lemma_bit_algebra_bv(z, z, 0);
    if z & 1 == 1 {
        0
    } else {
        let j = lemma_nonzero_has_bit(z >> 1);
        lemma_bit_shift(z, 1);
        j + 1
    }
}

/// Two words with the same bits are equal.
pub proof fn lemma_bits_equal(x: u64, y: u64)
    requires
        forall|i: int| 0 <= i < 64 ==> has_bit(x, i) == has_bit(y, i),
    ensures
        x == y,
{
    if x != y {
        lemma_bit_algebra_bv(x, y, 0);
        lemma_bit_algebra(x, y);
        let i = lemma_nonzero_has_bit(x ^ y);
        assert(has_bit(x, i) != has_bit(y, i));
    }
}

/// A word without bits below `n` counts zero there, and conversely.
pub proof fn lemma_count_zero(x: u64, n: int)
    requires
        0 <= n,
    ensures
        count_bits(x, n) == 0 <==> forall|i: int| 0 <= i < n ==> !has_bit(x, i),
    decreases n,
{
    if n > 0 {
        lemma_count_zero(x, n - 1);
        lemma_count_bits_bounds(x, n - 1);
        if count_bits(x, n) == 0 {
            assert forall|i: int| 0 <= i < n implies !has_bit(x, i) by {
                if i < n - 1 {
                }
            }
        }
    }
}

/// Where every bit of `a` below `n` is a bit of `b`, `a` counts no more than
/// `b` there, and the same only if they agree on every such bit.
pub proof fn lemma_count_subset(a: u64, b: u64, n: int)
    requires
        0 <= n,
        forall|i: int| 0 <= i < n && has_bit(a, i) ==> has_bit(b, i),
    ensures
        count_bits(a, n) <= count_bits(b, n),
        count_bits(a, n) == count_bits(b, n) ==> forall|i: int|
            0 <= i < n ==> has_bit(a, i) == has_bit(b, i),
    decreases n,
{
    if n > 0 {
        lemma_count_subset(a, b, n - 1);
        if count_bits(a, n) == count_bits(b, n) {
            assert forall|i: int| 0 <= i < n implies has_bit(a, i) == has_bit(b, i) by {
                if i < n - 1 {
                }
            }
        }
    }
}

/// The bits of two words, counted below `n`: those of either and those of
/// both are together as many as those of the one and those of the other.
pub proof fn lemma_count_or(a: u64, b: u64, n: int)
    ensures
        count_bits(a | b, n) + count_bits(a & b, n) == count_bits(a, n) + count_bits(b, n),
    decreases n,
{
    lemma_bit_algebra(a, b);
    if n > 0 {
        lemma_count_or(a, b, n - 1);
    }
}

/// Two words that have together as many bits as the one and the other share none.
pub proof fn lemma_apart(a: u64, b: u64)
    requires
        popcount(a) + popcount(b) == popcount(a | b),
    ensures
        forall|i: int| !(has_bit(a, i) && has_bit(b, i)),
{
    lemma_count_or(a, b, 64);
    lemma_count_zero(a & b, 64);
    lemma_bit_algebra(a, b);
    assert(count_bits(a & b, 64) == 0);
    assert forall|i: int| !(has_bit(a, i) && has_bit(b, i)) by {
        if has_bit(a, i) && has_bit(b, i) {
            assert(has_bit(a & b, i));
            assert(0 <= i < 64);
        }
    }
}

/// Two words that agree on every bit below `n` count the same there.
pub proof fn lemma_count_agree(a: u64, b: u64, n: int)
    requires
        forall|i: int| 0 <= i < n ==> has_bit(a, i) == has_bit(b, i),
    ensures
        count_bits(a, n) == count_bits(b, n),
    decreases n,
{
    if n > 0 {
        lemma_count_agree(a, b, n - 1);
    }
}

/// A word whose only bit below `n` is `p` counts one there.
pub proof fn lemma_count_single(x: u64, p: int, n: int)
    requires
        0 <= p,
        forall|i: int| 0 <= i < n ==> has_bit(x, i) == (i == p),
    ensures
        count_bits(x, n) == if p < n { 1int } else { 0int },
    decreases n,
{
    if n > 0 {
        lemma_count_single(x, p, n - 1);
    }
}

/// A word with exactly one set bit is a power of two; the position of the bit is returned.
pub proof fn lemma_single_bit_position(x: u64) -> (p: int)
    requires
        popcount(x) == 1,
    ensures
        0 <= p < 64,
        x == 1u64 << (p as u64),
        forall|i: int| has_bit(x, i) == (i == p),
{
    let p = lemma_count_one_witness(x, 64);
    lemma_bit_shift(0, p);
    lemma_bits_equal(x, 1u64 << (p as u64));
    p
}

proof fn lemma_count_one_witness(x: u64, n: int) -> (p: int)
    requires
        0 <= n <= 64,
        count_bits(x, n) == 1,
    ensures
        0 <= p < n,
        forall|i: int| 0 <= i < n ==> has_bit(x, i) == (i == p),
    decreases n,
{
    if has_bit(x, n - 1) {
        lemma_count_zero(x, n - 1);
        n - 1
    } else {
        lemma_count_one_witness(x, n - 1)
    }
}

/// A power of two has exactly one set bit.
pub proof fn lemma_popcount_power_of_two(p: int)
    requires
        0 <= p < 64,
    ensures
        popcount(1u64 << (p as u64)) == 1,
{
    lemma_bit_shift(0, p);
    lemma_count_single(1u64 << (p as u64), p, 64);
}

/// The position of the single set bit of `x`, or nothing where `x` has none or several.
pub fn onehot(x: u64) -> (r: Option<usize>)
    ensures
        r is Some <==> popcount(x) == 1,
        r matches Some(i) ==> i < 64 && x == 1u64 << i,
{
    if popcnt64(x) == 1 {
        let ghost p = lemma_single_bit_position(x);
        let mut output: u64 = 0;
        let mut scaling: u64 = 32;
        proof {
            lemma_bit_shift_bv(0, p as u64, 0);
        }
        while x >> output != 1 && scaling != 0
            invariant
                0 <= p < 64,
                x == 1u64 << (p as u64),
                output <= p,
                scaling == 32 || scaling == 16 || scaling == 8 || scaling == 4 || scaling == 2
                    || scaling == 1 || scaling == 0,
                p < output + (if scaling == 0 { 1int } else { 2 * scaling }),
                output + 2 * scaling <= 64,
            decreases scaling,
        {
            proof {
                lemma_bit_shift_bv(0, p as u64, (output + scaling) as u64);
                lemma_bit_shift_bv(0, p as u64, output);
            }
            if x >> (output + scaling) != 0 {
                output += scaling
            }
            proof {
                lemma_bit_algebra_bv(scaling, scaling, 0);
            }
            scaling >>= 1;
        }
        proof {
            lemma_bit_shift_bv(0, p as u64, output);
        }
        Some(output as usize)
    } else {
        None
    }
}

/// Bit 0 of a word is its value modulo two.
pub proof fn lemma_low_bit(x: u64)
    ensures
        has_bit(x, 0) == (x & 1 == 1),
{
    lemma_bit_algebra_bv(x, x, 0);
}

/// A word with a set bit is not zero.
pub proof fn lemma_has_bit_nonzero(x: u64, i: int)
    requires
        has_bit(x, i),
    ensures
        x != 0,
{
    lemma_bit_algebra(0, 0);
}

/// Each element is less than the next.
pub open spec fn strictly_increasing(s: Seq<usize>) -> bool {
    forall|i: int, j: int| 0 <= i < j < s.len() ==> s[i] < s[j]
}

/// The word 1 has the bit 0 and no other.
pub proof fn lemma_bit_zero()
    ensures
        forall|i: int| has_bit(1u64, i) == (i == 0),
{
    lemma_bit_shift(0, 0);
    lemma_bit_algebra_bv(0, 0, 0);
    assert(1u64 << (0int as u64) == 1u64);
}

/// `u64::reverse_bits` of the standard library: the word with its bits in
/// the opposite order, so that bit `i` of the result is bit `63 - i` of `x`.
#[verifier::external_body]
pub(crate) fn reverse_bits(x: u64) -> (r: u64)
    ensures
        forall|i: int| 0 <= i < 64 ==> has_bit(r, i) == has_bit(x, 63 - i),
{
    x.reverse_bits()
}

/// How often `x` is among the first `n` elements of `s`.
pub open spec fn occurrences_of(s: Seq<usize>, n: int, x: usize) -> int
    decreases n,
{
    if n <= 0 {
        0
    } else {
        occurrences_of(s, n - 1, x) + if s[n - 1] == x { 1int } else { 0int }
    }
}

/// An element is among the first `n` exactly if it occurs there once or more.
pub proof fn lemma_occurrences(s: Seq<usize>, n: int, x: usize)
    requires
        0 <= n <= s.len(),
    ensures
        0 <= occurrences_of(s, n, x) <= n,
        occurrences_of(s, n, x) > 0 <==> exists|k: int| 0 <= k < n && s[k] == x,
    decreases n,
{
    if n > 0 {
        lemma_occurrences(s, n - 1, x);
        if exists|k: int| 0 <= k < n - 1 && s[k] == x {
            let k = choose|k: int| 0 <= k < n - 1 && s[k] == x;
            assert(0 <= k < n && s[k] == x);
        }
        if exists|k: int| 0 <= k < n && s[k] == x {
            let k = choose|k: int| 0 <= k < n && s[k] == x;
            if k < n - 1 {
                assert(0 <= k < n - 1 && s[k] == x);
            }
        }
    }
}

/// How often `x` is among the first `n` elements of `s`.
pub open spec fn count_in(s: Seq<usize>, n: usize, x: usize) -> int {
    occurrences_of(s, n as int, x)
}

/// How often `x` is among the elements of `s`.
pub open spec fn total_in(s: Seq<usize>, x: usize) -> int {
    occurrences_of(s, s.len() as int, x)
}

proof fn lemma_count_in(s: Seq<usize>, n: usize, x: usize)
    requires
        n <= s.len(),
    ensures
        0 <= count_in(s, n, x) <= n,
        n < s.len() ==> s[n as int] == x ==> occurrences_of(s, n + 1, x) == count_in(s, n, x) + 1,
        n < s.len() ==> s[n as int] != x ==> occurrences_of(s, n + 1, x) == count_in(s, n, x),
        n == s.len() ==> (count_in(s, n, x) > 0 <==> s.contains(x)),
        n == s.len() ==> count_in(s, n, x) == total_in(s, x),
{
    lemma_occurrences(s, n as int, x);
}

/// For each size that occurs among `sizes`, how often it occurs.
pub fn get_population_distribution(sizes: &Vec<usize>) -> (r: BTreeMap<usize, usize>)
    ensures
        forall|x: usize| r@.contains_key(x) <==> sizes@.contains(x),
        forall|x: usize| r@.contains_key(x) ==> r@[x] == total_in(sizes@, x),
{
    broadcast use vstd::laws_cmp::group_laws_cmp;
    broadcast use vstd::std_specs::btree::group_btree_axioms;

    let mut size_map: BTreeMap<usize, usize> = BTreeMap::new();
    let mut i: usize = 0;
    while i < sizes.len()
        invariant
            0 <= i <= sizes.len(),
            forall|x: usize| size_map@.contains_key(x) <==> count_in(sizes@, i, x) > 0,
            forall|x: usize| size_map@.contains_key(x) ==> size_map@[x] == count_in(sizes@, i, x),
        decreases sizes.len() - i,
    {
        broadcast use vstd::laws_cmp::group_laws_cmp;
        broadcast use vstd::std_specs::btree::group_btree_axioms;

        let size: usize = sizes[i];
        proof {
            lemma_count_in(sizes@, i, size);
        }
        assert(vstd::laws_cmp::obeys_cmp::<usize>());
        let count: usize = match size_map.get(&size) {
            Some(count) => *count,
            None => 0,
        };
        assert(count == count_in(sizes@, i, size));
        let _ = size_map.insert(size, count + 1);
        i += 1;
    }
    proof {
        assert forall|x: usize|
            (size_map@.contains_key(x) <==> sizes@.contains(x)) && count_in(sizes@, i, x)
                == total_in(sizes@, x) by {
            lemma_count_in(sizes@, i, x);
        }
    }
    size_map
}

} // verus!
