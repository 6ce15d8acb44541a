//! Sets of distinct digits with a given size and sum, as 10-bit masks.

use crate::error::SolveError;
use crate::util::{
    count_bits, has_bit, lemma_bit_algebra, lemma_bit_shift, lemma_bits_equal, lemma_count_zero,
    lemma_nonzero_has_bit, popcount, strictly_increasing,
};
use vstd::prelude::*;

verus! {

/// Sum of the positions of the set bits of `x` below `n`.
pub open spec fn weight_bits(x: u64, n: int) -> int
    decreases n,
{
    if n <= 0 {
        0
    } else {
        weight_bits(x, n - 1) + if has_bit(x, n - 1) { n - 1 } else { 0int }
    }
}

/// Sum of the digits that the mask `x` holds.
pub open spec fn digit_sum(x: u64) -> int {
    weight_bits(x, 64)
}

/// Every bit of `x` stands for a digit from `lo` to 9.
pub open spec fn digits_from(x: u64, lo: int) -> bool {
    forall|i: int| has_bit(x, i) ==> lo <= i <= 9
}

/// `m` is a set of `k` distinct digits of 1 to 9 that add up to `s`.
pub open spec fn is_combination(m: u64, k: int, s: int) -> bool {
    digits_from(m, 1) && popcount(m) == k && digit_sum(m) == s
}

/// Each mask of `tail` with the bit `d` added.
pub open spec fn with_digit(d: int, tail: Seq<u64>) -> Seq<u64> {
    Seq::new(tail.len(), |i: int| tail[i] | (1u64 << (d as u64)))
}

/// The sets of `k` distinct digits from `lo` to 9 that add up to `s`, those
/// with the smaller digits first.
pub open spec fn combinations_from(k: nat, s: int, lo: int) -> Seq<u64>
    decreases k, 10 - lo,
{
    if k == 0 {
        if s == 0 {
            seq![0u64]
        } else {
            Seq::empty()
        }
    } else if lo < 1 || lo > 9 {
        Seq::empty()
    } else {
        with_digit(lo, combinations_from((k - 1) as nat, s - lo, lo + 1)) + combinations_from(
            k,
            s,
            lo + 1,
        )
    }
}

/// The sets of `k` distinct digits of 1 to 9 that add up to `s`.
pub open spec fn combinations(k: nat, s: int) -> Seq<u64> {
    combinations_from(k, s, 1)
}

/// The bitwise OR of the first `n` masks of `list`.
pub open spec fn union_of(list: Seq<u64>, n: int) -> u64
    decreases n,
{
    if n <= 0 {
        0
    } else {
        union_of(list, n - 1) | list[n - 1]
    }
}

/// The digits that occur in some set of `k` distinct digits adding up to `s`.
pub open spec fn combinations_union(k: nat, s: int) -> u64 {
    union_of(combinations(k, s), combinations(k, s).len() as int)
}

/// 1 + 2 + ... + n.
pub open spec fn triangle(n: int) -> int
    decreases n,
{
    if n <= 0 {
        0
    } else {
        n + triangle(n - 1)
    }
}

/// Adding a bit that was not set raises the count by one and the weight by its position.
pub proof fn lemma_add_bit(m: u64, d: int, n: int)
    requires
        0 <= d < 64,
        !has_bit(m, d),
    ensures
        count_bits(m | (1u64 << (d as u64)), n) == count_bits(m, n) + if d < n { 1int } else { 0 },
        weight_bits(m | (1u64 << (d as u64)), n) == weight_bits(m, n) + if d < n { d } else { 0 },
    decreases n,
{
    if n > 0 {
        lemma_add_bit(m, d, n - 1);
        lemma_bit_algebra(m, 1u64 << (d as u64));
        lemma_bit_shift(0, d);
    }
}

/// Masks that agree on every bit below `n` weigh the same there.
pub proof fn lemma_weight_agree(a: u64, b: u64, n: int)
    requires
        forall|i: int| 0 <= i < n ==> has_bit(a, i) == has_bit(b, i),
    ensures
        weight_bits(a, n) == weight_bits(b, n),
    decreases n,
{
    if n > 0 {
        lemma_weight_agree(a, b, n - 1);
    }
}

/// Every mask of `combinations_from(k, s, lo)` has `k` digits, all from `lo`
/// to 9, that add up to `s`.
pub proof fn lemma_combinations_from_sound(k: nat, s: int, lo: int, j: int)
    requires
        1 <= lo,
        0 <= j < combinations_from(k, s, lo).len(),
    ensures
        digits_from(combinations_from(k, s, lo)[j], lo),
        popcount(combinations_from(k, s, lo)[j]) == k,
        digit_sum(combinations_from(k, s, lo)[j]) == s,
    decreases k, 10 - lo,
{
    let m = combinations_from(k, s, lo)[j];
    if k == 0 {
        lemma_bit_algebra(0, 0);
        lemma_count_zero(0, 64);
        lemma_weight_agree(0, 0, 64);
        lemma_weight_zero(0, 64);
    } else if lo > 9 {
    } else {
        let first = combinations_from((k - 1) as nat, s - lo, lo + 1);
        if j < first.len() {
            let t = first[j];
            lemma_combinations_from_sound((k - 1) as nat, s - lo, lo + 1, j);
            assert(m == t | (1u64 << (lo as u64)));
            lemma_add_bit(t, lo, 64);
            lemma_bit_algebra(t, 1u64 << (lo as u64));
            lemma_bit_shift(0, lo);
        } else {
            lemma_combinations_from_sound(k, s, lo + 1, j - first.len());
        }
    }
}

/// No weight is negative.
pub proof fn lemma_weight_nonnegative(x: u64, n: int)
    ensures
        weight_bits(x, n) >= 0,
    decreases n,
{
    if n > 0 {
        lemma_weight_nonnegative(x, n - 1);
    }
}

/// A mask without bits below `n` weighs zero there.
pub proof fn lemma_weight_zero(x: u64, n: int)
    requires
        forall|i: int| 0 <= i < n ==> !has_bit(x, i),
    ensures
        weight_bits(x, n) == 0,
    decreases n,
{
    if n > 0 {
        lemma_weight_zero(x, n - 1);
    }
}

/// Every set of `k` distinct digits from `lo` to 9 that adds up to `s` occurs
/// in `combinations_from(k, s, lo)`.
pub proof fn lemma_combinations_from_complete(m: u64, k: nat, s: int, lo: int)
    requires
        1 <= lo,
        digits_from(m, lo),
        popcount(m) == k,
        digit_sum(m) == s,
    ensures
        combinations_from(k, s, lo).contains(m),
    decreases k, 10 - lo,
{
    if k == 0 {
        lemma_count_zero(m, 64);
        lemma_bit_algebra(0, 0);
        lemma_bits_equal(m, 0);
        lemma_weight_zero(m, 64);
        assert(combinations_from(k, s, lo)[0] == m);
    } else if lo > 9 {
        assert forall|i: int| 0 <= i < 64 implies !has_bit(m, i) by {}
        lemma_count_zero(m, 64);
    } else {
        let first = with_digit(lo, combinations_from((k - 1) as nat, s - lo, lo + 1));
        let second = combinations_from(k, s, lo + 1);
        if has_bit(m, lo) {
            let bit = 1u64 << (lo as u64);
            let t = m & !bit;
            lemma_bit_algebra(m, !bit);
            lemma_bit_algebra(bit, 0);
            lemma_bit_shift(0, lo);
            assert forall|i: int| 0 <= i < 64 implies has_bit(t, i) == (has_bit(m, i) && i
                != lo) by {}
            lemma_bit_algebra(t, bit);
            lemma_bits_equal(m, t | bit);
            lemma_add_bit(t, lo, 64);
            lemma_combinations_from_complete(t, (k - 1) as nat, s - lo, lo + 1);
            let inner = combinations_from((k - 1) as nat, s - lo, lo + 1);
            let j = choose|j: int| 0 <= j < inner.len() && inner[j] == t;
            assert(first[j] == m);
            assert(combinations_from(k, s, lo)[j] == m);
        } else {
            lemma_combinations_from_complete(m, k, s, lo + 1);
            let j = choose|j: int| 0 <= j < second.len() && second[j] == m;
            assert(combinations_from(k, s, lo)[first.len() + j] == m);
        }
    }
}

/// What the list of combinations holds: exactly the sets of `k` distinct
/// digits of 1 to 9 that add up to `s`.
pub proof fn lemma_combinations_exact(k: nat, s: int)
    ensures
        forall|m: u64| combinations(k, s).contains(m) <==> is_combination(m, k as int, s),
{
    assert forall|m: u64| combinations(k, s).contains(m) implies is_combination(
        m,
        k as int,
        s,
    ) by {
        let j = choose|j: int| 0 <= j < combinations(k, s).len() && combinations(k, s)[j] == m;
        lemma_combinations_from_sound(k, s, 1, j);
    }
    assert forall|m: u64| is_combination(m, k as int, s) implies combinations(k, s).contains(
        m,
    ) by {
        lemma_combinations_from_complete(m, k, s, 1);
    }
}

/// The largest sum that `k` distinct digits can have: 9 + 8 + ... down `k` terms.
pub open spec fn max_sum(k: int) -> int
    decreases k,
{
    if k <= 0 {
        0
    } else {
        (10 - k) + max_sum(k - 1)
    }
}

/// There are no `k` distinct digits among fewer than `k`.
pub proof fn lemma_too_few_digits(k: nat, s: int, lo: int)
    requires
        1 <= lo,
        1 <= k,
        k > 10 - lo,
    ensures
        combinations_from(k, s, lo).len() == 0,
    decreases k, 10 - lo,
{
    if lo <= 9 {
        lemma_too_few_digits((k - 1) as nat, s - lo, lo + 1);
        lemma_too_few_digits(k, s, lo + 1);
    }
}

/// No `k` distinct digits add up to more than 9 + 8 + ... down `k` terms.
pub proof fn lemma_sum_too_large(k: nat, s: int, lo: int)
    requires
        1 <= lo,
        s > max_sum(k as int),
    ensures
        combinations_from(k, s, lo).len() == 0,
    decreases k, 10 - lo,
{
    if k == 0 {
    } else if k > 10 - lo {
        lemma_too_few_digits(k, s, lo);
    } else if lo <= 9 {
        lemma_sum_too_large((k - 1) as nat, s - lo, lo + 1);
        lemma_sum_too_large(k, s, lo + 1);
    }
}

/// No `k` distinct digits from `lo` up add up to less than `lo + (lo + 1) + ...`.
pub proof fn lemma_sum_too_small(k: nat, s: int, lo: int)
    requires
        1 <= lo,
        1 <= k,
        s < triangle(k as int) + k * (lo - 1),
    ensures
        combinations_from(k, s, lo).len() == 0,
    decreases k, 10 - lo,
{
    if lo <= 9 {
        let next = lo + 1;
        assert(k * (next - 1) == k * (lo - 1) + k) by (nonlinear_arith)
            requires
                next == lo + 1,
        ;
        assert((k - 1) * (next - 1) == k * (lo - 1) + k - lo) by (nonlinear_arith)
            requires
                next == lo + 1,
        ;
        assert(triangle(k as int) == k + triangle(k - 1));
        lemma_sum_too_small(k, s, next);
        if k == 1 {
            assert(triangle(0) == 0);
            assert(k * (lo - 1) == lo - 1) by (nonlinear_arith)
                requires
                    k == 1,
            ;
            assert(combinations_from(0, s - lo, next).len() == 0);
        } else {
            lemma_sum_too_small((k - 1) as nat, s - lo, next);
        }
    }
}

/// The sets of one digit from `lo` up that add up to `s`: the digit `s` itself, if it is one.
pub proof fn lemma_single_digit(s: int, lo: int)
    requires
        1 <= lo <= 10,
    ensures
        combinations_from(1, s, lo) =~= if lo <= s <= 9 {
            seq![1u64 << (s as u64)]
        } else {
            Seq::empty()
        },
    decreases 10 - lo,
{
    if lo <= 9 {
        lemma_single_digit(s, lo + 1);
        crate::util::lemma_or_rearrange(1u64 << (lo as u64), 0, 0);
        assert(combinations_from(0, s - lo, lo + 1) =~= if s == lo {
            seq![0u64]
        } else {
            Seq::empty()
        });
    }
}

/// Each mask of `list` with the bits of `accum` added.
pub open spec fn prefixed(accum: u64, list: Seq<u64>) -> Seq<u64> {
    Seq::new(list.len(), |i: int| list[i] | accum)
}

proof fn lemma_forced_sums(k: int)
    requires
        1 <= k <= 9,
    ensures
        (9 - (k - 1)) * (k - 1) + k * (k - 1) / 2 == max_sum(k - 1),
        k * (k - 1) / 2 == triangle(k - 1),
        triangle(k) == triangle(k - 1) + k,
        0 <= (9 - (k - 1)) * (k - 1) <= 81,
        0 <= k * (k - 1) <= 72,
{
    reveal_with_fuel(max_sum, 10);
    reveal_with_fuel(triangle, 10);
    if k == 1 {
        assert((9 - (k - 1)) * (k - 1) == 0 && k * (k - 1) == 0) by (nonlinear_arith)
            requires
                k == 1,
        ;
    }
    if k == 2 {
        assert((9 - (k - 1)) * (k - 1) == 8 && k * (k - 1) == 2) by (nonlinear_arith)
            requires
                k == 2,
        ;
    }
    if k == 3 {
        assert((9 - (k - 1)) * (k - 1) == 14 && k * (k - 1) == 6) by (nonlinear_arith)
            requires
                k == 3,
        ;
    }
    if k == 4 {
        assert((9 - (k - 1)) * (k - 1) == 18 && k * (k - 1) == 12) by (nonlinear_arith)
            requires
                k == 4,
        ;
    }
    if k == 5 {
        assert((9 - (k - 1)) * (k - 1) == 20 && k * (k - 1) == 20) by (nonlinear_arith)
            requires
                k == 5,
        ;
    }
    if k == 6 {
        assert((9 - (k - 1)) * (k - 1) == 20 && k * (k - 1) == 30) by (nonlinear_arith)
            requires
                k == 6,
        ;
    }
    if k == 7 {
        assert((9 - (k - 1)) * (k - 1) == 18 && k * (k - 1) == 42) by (nonlinear_arith)
            requires
                k == 7,
        ;
    }
    if k == 8 {
        assert((9 - (k - 1)) * (k - 1) == 14 && k * (k - 1) == 56) by (nonlinear_arith)
            requires
                k == 8,
        ;
    }
    if k == 9 {
        assert((9 - (k - 1)) * (k - 1) == 8 && k * (k - 1) == 72) by (nonlinear_arith)
            requires
                k == 9,
        ;
    }
}

fn enumerate_from(
    num_cells: usize,
    sum: usize,
    current_value: usize,
    accum: u64,
    output: &mut Vec<u64>,
)
    requires
        1 <= num_cells <= 9,
        1 <= current_value <= 10,
    ensures
        final(output)@ == old(output)@ + prefixed(
            accum,
            combinations_from(num_cells as nat, sum as int, current_value as int),
        ),
    decreases num_cells,
{
    let ghost k = num_cells as nat;
    let ghost s = sum as int;
    let ghost cur = current_value as int;
    if num_cells == 1 {
        proof {
            lemma_single_digit(s, cur);
        }
        if current_value <= sum && sum <= 9 {
            output.push(accum | (1u64 << sum));
            proof {
                crate::util::lemma_or_rearrange(accum, 1u64 << sum, 0);
            }
            assert(output@ =~= old(output)@ + prefixed(accum, combinations_from(k, s, cur)));
        } else {
            assert(output@ =~= old(output)@ + prefixed(accum, combinations_from(k, s, cur)));
        }
    } else {
        proof {
            lemma_forced_sums(k as int);
        }
        let forced_max: usize = (9 - (num_cells - 1)) * (num_cells - 1) + num_cells * (num_cells
            - 1) / 2;
        let lower_limit: usize = if forced_max < sum {
            if sum - forced_max < 9 {
                sum - forced_max
            } else {
                9
            }
        } else {
            1
        };
        let forced_min: usize = num_cells * (num_cells - 1) / 2;
        if forced_min < sum {
            let upper_limit: usize = if sum - forced_min < 9 {
                sum - forced_min
            } else {
                9
            };
            let start: usize = if current_value < lower_limit {
                lower_limit
            } else {
                current_value
            };
            proof {
                lemma_skip_low(k, s, cur, start as int);
            }
            let mut i: usize = start;
            while i <= upper_limit
                invariant
                    2 <= num_cells <= 9,
                    k == num_cells,
                    s == sum,
                    1 <= start <= i <= 10,
                    upper_limit <= 9,
                    upper_limit <= sum,
                    output@ + prefixed(accum, combinations_from(k, s, i as int)) == old(output)@
                        + prefixed(accum, combinations_from(k, s, cur)),
                decreases upper_limit + 1 - i,
            {
                let ghost before = output@;
                enumerate_from(num_cells - 1, sum - i, i + 1, accum | (1u64 << i), output);
                proof {
                    let inner = combinations_from((k - 1) as nat, s - i, i + 1);
                    let rest = combinations_from(k, s, i + 1);
                    let bit = 1u64 << i;
                    assert forall|j: int| 0 <= j < inner.len() implies (inner[j] | bit) | accum
                        == inner[j] | (accum | bit) by {
                        crate::util::lemma_or_rearrange(inner[j], bit, accum);
                    }
                    assert(prefixed(accum, combinations_from(k, s, i as int)) =~= prefixed(
                        accum | bit,
                        inner,
                    ) + prefixed(accum, rest));
                    assert(output@ + prefixed(accum, rest) =~= before + prefixed(
                        accum,
                        combinations_from(k, s, i as int),
                    ));
                }
                i += 1;
            }
            proof {
                if i <= 9 {
                    assert(k * i == k * (i - 1) + k) by (nonlinear_arith)
                        requires
                            k >= 1,
                    ;
                    assert(k * (i - 1) >= i - 1) by (nonlinear_arith)
                        requires
                            k >= 1,
                            i >= 1,
                    ;
                    lemma_sum_too_small(k, s, i as int);
                }
                assert(prefixed(accum, combinations_from(k, s, i as int)) =~= Seq::empty());
                assert(output@ =~= old(output)@ + prefixed(accum, combinations_from(k, s, cur)));
            }
        } else {
            proof {
                assert(k * (cur - 1) >= 0) by (nonlinear_arith)
                    requires
                        k >= 1,
                        cur >= 1,
                ;
                if cur <= 9 {
                    lemma_sum_too_small(k, s, cur);
                }
                assert(output@ =~= old(output)@ + prefixed(accum, combinations_from(k, s, cur)));
            }
        }
    }
}

/// Sets whose least digit is too small to reach `s` with the largest digits beside it drop out.
proof fn lemma_skip_low(k: nat, s: int, cur: int, start: int)
    requires
        2 <= k <= 9,
        1 <= cur <= start <= 10,
        cur == start || s - (start - 1) > max_sum(k - 1),
    ensures
        combinations_from(k, s, start) == combinations_from(k, s, cur),
    decreases start - cur,
{
    if cur < start {
        lemma_skip_low(k, s, cur + 1, start);
        lemma_sum_too_large((k - 1) as nat, s - cur, cur + 1);
        assert(combinations_from(k, s, cur) =~= combinations_from(k, s, cur + 1));
    }
}

/// The sets of `num_cells` distinct digits of 1 to 9 that add up to `sum`, as
/// masks, those with the smaller digits first. The list is empty where there
/// is no such set.
pub fn get_combinations(num_cells: usize, sum: usize) -> (r: Result<Vec<u64>, SolveError>)
    ensures
        r is Ok,
        r.unwrap()@ == combinations(num_cells as nat, sum as int),
        forall|i: int|
            0 <= i < r.unwrap()@.len() ==> is_combination(
                #[trigger] r.unwrap()@[i],
                num_cells as int,
                sum as int,
            ),
        forall|m: u64|
            is_combination(m, num_cells as int, sum as int) ==> r.unwrap()@.contains(m),
{
    let mut output: Vec<u64> = Vec::new();
    let ghost k = num_cells as nat;
    let ghost s = sum as int;
    proof {
        lemma_combinations_exact(k, s);
    }
    if num_cells == 0 {
        if sum == 0 {
            output.push(0);
        }
        assert(output@ =~= combinations(k, s));
    } else if num_cells > 9 {
        proof {
            lemma_too_few_digits(k, s, 1);
        }
        assert(output@ =~= combinations(k, s));
    } else {
        enumerate_from(num_cells, sum, 1, 0, &mut output);
        proof {
            let list = combinations(k, s);
            assert forall|j: int| 0 <= j < list.len() implies list[j] | 0u64 == list[j] by {
                crate::util::lemma_or_rearrange(list[j], 0, 0);
            }
            assert(output@ =~= combinations(k, s));
        }
    }
    Ok(output)
}

/// A digit is in the union of the first `n` masks exactly if it is in one of them.
pub proof fn lemma_union_bits(list: Seq<u64>, n: int)
    requires
        0 <= n <= list.len(),
    ensures
        forall|d: int|
            has_bit(union_of(list, n), d) <==> exists|j: int|
                0 <= j < n && has_bit(#[trigger] list[j], d),
    decreases n,
{
    lemma_bit_algebra(0, 0);
    if n > 0 {
        lemma_union_bits(list, n - 1);
        lemma_bit_algebra(union_of(list, n - 1), list[n - 1]);
        assert forall|d: int| has_bit(union_of(list, n), d) implies exists|j: int|
            0 <= j < n && has_bit(#[trigger] list[j], d) by {
            if has_bit(list[n - 1], d) {
            } else {
                let j = choose|j: int| 0 <= j < n - 1 && has_bit(#[trigger] list[j], d);
                assert(has_bit(list[j], d));
            }
        }
    }
}

/// The union of the sets of `num_cells` distinct digits that add up to
/// `sum`: the mask of every digit that occurs in one of them, and 0 where
/// there is no such set.
pub fn get_combinations_union(num_cells: usize, sum: usize) -> (r: Result<u64, SolveError>)
    ensures
        r == Ok::<u64, SolveError>(combinations_union(num_cells as nat, sum as int)),
{
    let list = match get_combinations(num_cells, sum) {
        Ok(list) => list,
        Err(e) => { return Err(e); },
    };
    let mut accum: u64 = 0;
    let mut i: usize = 0;
    while i < list.len()
        invariant
            0 <= i <= list.len(),
            accum == union_of(list@, i as int),
        decreases list.len() - i,
    {
        accum = accum | list[i];
        i += 1;
    }
    Ok(accum)
}

/// The cells are at least one, and all in one row or all in one column.
pub open spec fn shares_line(cells: Seq<usize>) -> bool {
    cells.len() > 0 && ((forall|i: int|
        0 <= i < cells.len() ==> #[trigger] cells[i] / 9 == cells[0] / 9) || (forall|i: int|
        0 <= i < cells.len() ==> #[trigger] cells[i] % 9 == cells[0] % 9))
}

/// Whether the rules of Sudoku alone keep the digits of these cells distinct:
/// they all lie in one row or in one column.
pub fn cage_can_have_uniqueness(cells: &Vec<usize>) -> (r: bool)
    ensures
        r == shares_line(cells@),
{
    if cells.len() == 0 {
        return false;
    }
    let row: usize = cells[0] / 9;
    let col: usize = cells[0] % 9;
    let mut same_row = true;
    let mut same_col = true;
    let mut i: usize = 0;
    while i < cells.len()
        invariant
            0 <= i <= cells.len(),
            cells.len() > 0,
            row == cells[0] / 9,
            col == cells[0] % 9,
            same_row == (forall|j: int| 0 <= j < i ==> #[trigger] cells[j] / 9 == row),
            same_col == (forall|j: int| 0 <= j < i ==> #[trigger] cells[j] % 9 == col),
        decreases cells.len() - i,
    {
        if cells[i] / 9 != row {
            same_row = false;
        }
        if cells[i] % 9 != col {
            same_col = false;
        }
        i += 1;
    }
    same_row || same_col
}

/// The set bits of a mask, handed out one by one from the lowest up.
pub struct PossibleValues {
    bitmask: u64,
    index: usize,
}

impl PossibleValues {
    /// The position `p` is still to be handed out.
    pub closed spec fn pending(&self, p: int) -> bool {
        self.index <= p && has_bit(self.bitmask, p - self.index)
    }

    /// No position to be handed out is 64 or more.
    pub closed spec fn wf(&self) -> bool {
        self.index <= 64 && forall|j: int| has_bit(self.bitmask, j) ==> self.index + j < 64
    }

    /// The number of positions that have not been looked at yet.
    pub closed spec fn unseen(&self) -> int {
        64 - self.index
    }

    /// All set bits of `bitmask` are to be handed out.
    pub fn new(bitmask: u64) -> (r: Self)
        ensures
            r.wf(),
            forall|p: int| r.pending(p) == has_bit(bitmask, p),
    {
        Self { bitmask, index: 0 }
    }

    /// Hands out the lowest position that is left, if there is one.
    pub fn next(&mut self) -> (r: Option<usize>)
        requires
            old(self).wf(),
        ensures
            final(self).wf(),
            0 <= final(self).unseen() <= old(self).unseen(),
            r is Some ==> final(self).unseen() < old(self).unseen(),
            r is None ==> (forall|p: int| !old(self).pending(p)) && (forall|p: int|
                !final(self).pending(p)),
            r matches Some(i) ==> i < 64 && old(self).pending(i as int) && (forall|p: int|
                final(self).pending(p) == (old(self).pending(p) && p > i)) && (forall|p: int|
                old(self).pending(p) ==> p >= i),
    {
        if self.bitmask == 0 {
            proof {
                lemma_bit_algebra(0, 0);
            }
            None
        } else {
            let mut i: usize = self.index;
            let mut mask: u64 = self.bitmask;
            proof {
                let j = lemma_nonzero_has_bit(mask);
            }
            while mask & 1 != 1
                invariant
                    mask != 0,
                    i < 64,
                    self.index <= i,
                    forall|j: int| has_bit(mask, j) ==> i + j < 64,
                    forall|p: int| old(self).pending(p) == (i <= p && has_bit(mask, p - i)),
                    *self == *old(self),
                decreases 64 - i,
            {
                proof {
                    lemma_bit_shift(mask, 1);
                    crate::util::lemma_low_bit(mask);
                    let j = lemma_nonzero_has_bit(mask);
                    assert(has_bit(mask >> 1, j - 1));
                    crate::util::lemma_has_bit_nonzero(mask >> 1, j - 1);
                    assert forall|p: int| old(self).pending(p) == (i + 1 <= p && has_bit(
                        mask >> 1,
                        p - (i + 1),
                    )) by {
                        if p == i {
                        }
                    }
                }
                mask = mask >> 1;
                i += 1;
            }
            proof {
                lemma_bit_shift(mask, 1);
                crate::util::lemma_low_bit(mask);
            }
            self.bitmask = mask >> 1;
            self.index = i + 1;
            Some(i)
        }
    }

    /// The positions that are left, in ascending order.
    pub fn collect(self) -> (r: Vec<usize>)
        requires
            self.wf(),
        ensures
            strictly_increasing(r@),
            forall|p: int| self.pending(p) <==> exists|j: int| 0 <= j < r@.len() && r@[j] == p,
    {
        let mut it = self;
        let mut out: Vec<usize> = Vec::new();
        loop
            invariant
                it.wf(),
                strictly_increasing(out@),
                forall|j: int| 0 <= j < out@.len() ==> self.pending(out@[j] as int),
                forall|j: int, p: int| 0 <= j < out@.len() && it.pending(p) ==> out@[j] < p,
                forall|p: int|
                    self.pending(p) ==> it.pending(p) || exists|j: int|
                        0 <= j < out@.len() && out@[j] == p,
                forall|p: int| it.pending(p) ==> self.pending(p),
            decreases it.unseen(),
        {
            let ghost before = it;
            let ghost prev = out@;
            match it.next() {
                None => {
                    return out;
                },
                Some(i) => {
                    out.push(i);
                    proof {
                        assert forall|p: int| self.pending(p) implies it.pending(p) || exists|
                            j: int,
                        |
                            0 <= j < out@.len() && out@[j] == p by {
                            if before.pending(p) {
                                if p == i {
                                    assert(out@[prev.len() as int] == p);
                                }
                            } else {
                                let j = choose|j: int| 0 <= j < prev.len() && prev[j] == p;
                                assert(out@[j] == p);
                            }
                        }
                    }
                },
            }
        }
    }
}

} // verus!
