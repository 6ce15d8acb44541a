//! Cages: sets of cells with a target sum, their set algebra, and the rules
//! by which a cage narrows the domains of its cells.

use crate::cell::Cell;
use crate::combinations::{
    cage_can_have_uniqueness, combinations, combinations_union, get_combinations,
    get_combinations_union, is_combination, lemma_combinations_exact, lemma_union_bits,
    shares_line,
};
use crate::error::SolveError;
use crate::grid::{
    board_wf, cells_sum, cells_wf, digits_mask, is_grid, lemma_digits_mask, narrows, within,
    CageView,
};
use crate::util::{has_bit, lemma_bit_algebra, popcount, strictly_increasing};
use vstd::prelude::*;
use vstd::relations::{sorted_by, total_ordering};
use vstd::seq_lib::{
    lemma_multiset_commutative, lemma_sorted_unique, to_multiset_build, to_multiset_insert,
};

verus! {

/// The order of cell indices.
pub open spec fn index_leq() -> spec_fn(usize, usize) -> bool {
    |a: usize, b: usize| a <= b
}

/// `s` in ascending order.
pub open spec fn sorted(s: Seq<usize>) -> Seq<usize> {
    s.sort_by(index_leq())
}

/// What pins down `sorted(s)`: it is ascending and holds what `s` holds, each as often.
pub proof fn lemma_sorted(s: Seq<usize>, t: Seq<usize>)
    ensures
        total_ordering(index_leq()),
        sorted_by(sorted(s), index_leq()),
        sorted(s).to_multiset() == s.to_multiset(),
        sorted_by(t, index_leq()) && t.to_multiset() == s.to_multiset() ==> t == sorted(s),
{
    assert(total_ordering(index_leq()));
    s.lemma_sort_by_ensures(index_leq());
    if sorted_by(t, index_leq()) && t.to_multiset() == s.to_multiset() {
        lemma_sorted_unique(t, sorted(s), index_leq());
    }
}

/// The indices of `v` in ascending order.
pub fn sort_indices(v: &Vec<usize>) -> (r: Vec<usize>)
    ensures
        r@ == sorted(v@),
{
    let mut out: Vec<usize> = Vec::new();
    let mut i: usize = 0;
    assert(out@ =~= v@.take(0));
    while i < v.len()
        invariant
            0 <= i <= v.len(),
            sorted_by(out@, index_leq()),
            out@.to_multiset() == v@.take(i as int).to_multiset(),
        decreases v.len() - i,
    {
        let x: usize = v[i];
        let mut pos: usize = 0;
        while pos < out.len() && out[pos] <= x
            invariant
                0 <= pos <= out.len(),
                forall|j: int| 0 <= j < pos ==> out@[j] <= x,
            decreases out.len() - pos,
        {
            pos += 1;
        }
        let ghost before = out@;
        out.insert(pos, x);
        proof {
            to_multiset_insert(before, pos as int, x);
            to_multiset_build(v@.take(i as int), x);
            assert(v@.take(i + 1) =~= v@.take(i as int).push(x));
            assert forall|a: int, b: int| 0 <= a < b < out@.len() implies #[trigger] index_leq()(
                out@[a],
                out@[b],
            ) by {
                if a < pos && b > pos {
                    assert(index_leq()(before[a], before[b - 1]));
                } else if a > pos {
                    assert(index_leq()(before[a - 1], before[b - 1]));
                } else if b < pos {
                    assert(index_leq()(before[a], before[b]));
                } else if a == pos {
                    if pos < before.len() {
                        assert(index_leq()(before[pos as int], before[b - 1]) || b - 1 == pos);
                    }
                }
            }
        }
        i += 1;
    }
    proof {
        assert(v@.take(v.len() as int) =~= v@);
        lemma_sorted(v@, out@);
    }
    out
}

/// A copy of the indices of `v`.
pub fn copy_indices(v: &Vec<usize>) -> (r: Vec<usize>)
    ensures
        r@ == v@,
{
    let mut out: Vec<usize> = Vec::new();
    let mut i: usize = 0;
    while i < v.len()
        invariant
            0 <= i <= v.len(),
            out@ == v@.take(i as int),
        decreases v.len() - i,
    {
        out.push(v[i]);
        assert(v@.take(i + 1) =~= v@.take(i as int).push(v@[i as int]));
        i += 1;
    }
    assert(v@.take(v.len() as int) =~= v@);
    out
}

/// Cells whose digits must add up to `sum`, and be distinct where
/// `uniqueness` is set.
#[derive(Debug, Clone, PartialEq, Eq, PartialOrd, Ord)]
pub struct Cage {
    pub cells: Vec<usize>,
    pub sum: usize,
    pub uniqueness: bool,
}

impl View for Cage {
    type V = CageView;

    open spec fn view(&self) -> CageView {
        CageView { cells: self.cells@, sum: self.sum as int, uniqueness: self.uniqueness }
    }
}

/// No cell is in `s` twice, and each is a cell of the board.
pub open spec fn distinct_cells(s: Seq<usize>) -> bool {
    s.no_duplicates() && forall|i: int| 0 <= i < s.len() ==> #[trigger] s[i] < 81
}

/// Sorting cells that are distinct and on the board gives well-formed cells.
pub proof fn lemma_sorted_cells_wf(s: Seq<usize>)
    requires
        distinct_cells(s),
    ensures
        cells_wf(sorted(s)),
{
    let t = sorted(s);
    lemma_sorted(s, t);
    broadcast use vstd::seq_lib::group_to_multiset_ensures;

    s.lemma_multiset_has_no_duplicates();
    t.lemma_multiset_has_no_duplicates_conv();
    assert forall|i: int, j: int| 0 <= i < j < t.len() implies t[i] < t[j] by {
        assert(index_leq()(t[i], t[j]));
    }
    assert forall|i: int| 0 <= i < t.len() implies #[trigger] t[i] < 81 by {
        assert(t.to_multiset().count(t[i]) > 0);
        assert(s.to_multiset().count(t[i]) > 0);
        assert(s.contains(t[i]));
    }
}

/// `x` is among the first `n` elements of `s`.
pub open spec fn in_prefix(s: Seq<usize>, n: int, x: usize) -> bool {
    exists|p: int| 0 <= p < n && s[p] == x
}

/// Ascending cells, each pushed element above the rest, stay ascending.
proof fn lemma_push_increasing(s: Seq<usize>, x: usize)
    requires
        strictly_increasing(s),
        forall|k: int| 0 <= k < s.len() ==> s[k] < x,
    ensures
        strictly_increasing(s.push(x)),
{
}

/// Two ascending lists that hold each other's elements piece by piece: the
/// pieces `x` and `y`, put together and sorted, give back `a`.
proof fn lemma_pieces_round_trip(x: Seq<usize>, y: Seq<usize>, a: Seq<usize>)
    requires
        strictly_increasing(a),
        x.to_multiset().add(y.to_multiset()) == a.to_multiset(),
    ensures
        sorted(x + y) == a,
{
    lemma_multiset_commutative(x, y);
    assert(sorted_by(a, index_leq()));
    lemma_sorted(x + y, a);
}

/// Each element of `s` is among the first `n` of `a`.
pub open spec fn all_in_prefix(s: Seq<usize>, a: Seq<usize>, n: int) -> bool {
    forall|k: int| 0 <= k < s.len() ==> in_prefix(a, n, #[trigger] s[k])
}

/// No element of `s` is in `b`.
pub open spec fn none_in(s: Seq<usize>, b: Seq<usize>) -> bool {
    forall|k: int| 0 <= k < s.len() ==> !b.contains(#[trigger] s[k])
}

/// Each of the first `n` elements of `a` is in `s1` or in `s2`.
pub open spec fn covered(a: Seq<usize>, n: int, s1: Seq<usize>, s2: Seq<usize>) -> bool {
    forall|p: int| 0 <= p < n ==> s1.contains(#[trigger] a[p]) || s2.contains(a[p])
}

proof fn lemma_prefix_grows(s: Seq<usize>, a: Seq<usize>, n: int)
    requires
        all_in_prefix(s, a, n),
        0 <= n < a.len(),
    ensures
        all_in_prefix(s, a, n + 1),
        all_in_prefix(s.push(a[n]), a, n + 1),
{
    assert forall|k: int| 0 <= k < s.len() implies in_prefix(a, n + 1, #[trigger] s[k]) by {
        let p = choose|p: int| 0 <= p < n && a[p] == s[k];
        assert(0 <= p < n + 1 && a[p] == s[k]);
    }
    let t = s.push(a[n]);
    assert forall|k: int| 0 <= k < t.len() implies in_prefix(a, n + 1, #[trigger] t[k]) by {
        if k < s.len() {
            assert(t[k] == s[k]);
            assert(in_prefix(a, n + 1, s[k]));
        } else {
            assert(0 <= n < n + 1 && a[n] == t[k]);
        }
    }
}

proof fn lemma_below_next(s: Seq<usize>, a: Seq<usize>, n: int)
    requires
        all_in_prefix(s, a, n),
        strictly_increasing(a),
        strictly_increasing(s),
        0 <= n < a.len(),
    ensures
        strictly_increasing(s.push(a[n])),
{
    assert forall|k: int| 0 <= k < s.len() implies s[k] < a[n] by {
        assert(in_prefix(a, n, s[k]));
        let p = choose|p: int| 0 <= p < n && a[p] == s[k];
    }
    lemma_push_increasing(s, a[n]);
}

proof fn lemma_contains_after_push(s: Seq<usize>, x: usize)
    ensures
        s.push(x).contains(x),
        forall|y: usize| s.contains(y) ==> #[trigger] s.push(x).contains(y),
{
    assert(s.push(x)[s.len() as int] == x);
    assert forall|y: usize| s.contains(y) implies #[trigger] s.push(x).contains(y) by {
        let k = choose|k: int| 0 <= k < s.len() && s[k] == y;
        assert(s.push(x)[k] == y);
    }
}

proof fn lemma_covered_step(a: Seq<usize>, n: int, s1: Seq<usize>, s2: Seq<usize>, first: bool)
    requires
        covered(a, n, s1, s2),
        0 <= n < a.len(),
    ensures
        first ==> covered(a, n + 1, s1.push(a[n]), s2),
        !first ==> covered(a, n + 1, s1, s2.push(a[n])),
        forall|x: usize| covered(a, n, s1.push(x), s2),
        forall|x: usize| covered(a, n, s1, s2.push(x)),
{
    lemma_contains_after_push(s1, a[n]);
    lemma_contains_after_push(s2, a[n]);
    assert forall|x: usize| covered(a, n, s1.push(x), s2) by {
        lemma_contains_after_push(s1, x);
    }
    assert forall|x: usize| covered(a, n, s1, s2.push(x)) by {
        lemma_contains_after_push(s2, x);
    }
}

proof fn lemma_none_in_push(s: Seq<usize>, b: Seq<usize>, x: usize)
    requires
        none_in(s, b),
        !b.contains(x),
    ensures
        none_in(s.push(x), b),
{
    let t = s.push(x);
    assert forall|k: int| 0 <= k < t.len() implies !b.contains(#[trigger] t[k]) by {
        if k < s.len() {
            assert(t[k] == s[k]);
        }
    }
}

/// An element below `s[n]` and above all before it is not in the ascending `s`.
proof fn lemma_absent(s: Seq<usize>, n: int, x: usize)
    requires
        strictly_increasing(s),
        0 <= n <= s.len(),
        forall|p: int| 0 <= p < n ==> s[p] < x,
        n < s.len() ==> x < s[n],
    ensures
        !s.contains(x),
{
    if s.contains(x) {
        let k = choose|k: int| 0 <= k < s.len() && s[k] == x;
        if k > n {
            assert(s[n] < s[k]);
        }
    }
}

proof fn lemma_pieces_start(a: Seq<usize>)
    ensures
        Seq::<usize>::empty().to_multiset().add(Seq::<usize>::empty().to_multiset()) == a.take(
            0,
        ).to_multiset(),
{
    broadcast use vstd::multiset::group_multiset_axioms;
    broadcast use vstd::seq_lib::group_to_multiset_ensures;

    assert(a.take(0) =~= Seq::<usize>::empty());
    assert(Seq::<usize>::empty().to_multiset().add(Seq::<usize>::empty().to_multiset())
        =~= Seq::<usize>::empty().to_multiset());
}

proof fn lemma_pieces_push(x: Seq<usize>, y: Seq<usize>, a: Seq<usize>, n: int, first: bool)
    requires
        0 <= n < a.len(),
        x.to_multiset().add(y.to_multiset()) == a.take(n).to_multiset(),
    ensures
        first ==> x.push(a[n]).to_multiset().add(y.to_multiset()) == a.take(n + 1).to_multiset(),
        !first ==> x.to_multiset().add(y.push(a[n]).to_multiset()) == a.take(n + 1).to_multiset(),
{
    broadcast use vstd::multiset::group_multiset_axioms;

    to_multiset_build(x, a[n]);
    to_multiset_build(y, a[n]);
    to_multiset_build(a.take(n), a[n]);
    assert(a.take(n + 1) =~= a.take(n).push(a[n]));
    if first {
        assert(x.push(a[n]).to_multiset().add(y.to_multiset()) =~= a.take(n + 1).to_multiset());
    } else {
        assert(x.to_multiset().add(y.push(a[n]).to_multiset()) =~= a.take(n + 1).to_multiset());
    }
}

/// From what the three lists hold piece by piece to what they hold in all.
proof fn lemma_pieces_exact(
    a: Seq<usize>,
    b: Seq<usize>,
    inter: Seq<usize>,
    da: Seq<usize>,
    db: Seq<usize>,
)
    requires
        all_in_prefix(inter, a, a.len() as int),
        all_in_prefix(inter, b, b.len() as int),
        all_in_prefix(da, a, a.len() as int),
        all_in_prefix(db, b, b.len() as int),
        none_in(da, b),
        none_in(db, a),
        covered(a, a.len() as int, inter, da),
        covered(b, b.len() as int, inter, db),
    ensures
        forall|x: usize| inter.contains(x) <==> a.contains(x) && b.contains(x),
        forall|x: usize| da.contains(x) <==> a.contains(x) && !b.contains(x),
        forall|x: usize| db.contains(x) <==> b.contains(x) && !a.contains(x),
{
    assert forall|x: usize| inter.contains(x) <==> a.contains(x) && b.contains(x) by {
        if inter.contains(x) {
            let k = choose|k: int| 0 <= k < inter.len() && inter[k] == x;
            assert(in_prefix(a, a.len() as int, inter[k]));
            assert(in_prefix(b, b.len() as int, inter[k]));
        }
        if a.contains(x) && b.contains(x) {
            let p = choose|p: int| 0 <= p < a.len() && a[p] == x;
            assert(inter.contains(a[p]) || da.contains(a[p]));
            if da.contains(x) {
                let k = choose|k: int| 0 <= k < da.len() && da[k] == x;
                assert(!b.contains(da[k]));
            }
        }
    }
    assert forall|x: usize| da.contains(x) <==> a.contains(x) && !b.contains(x) by {
        if da.contains(x) {
            let k = choose|k: int| 0 <= k < da.len() && da[k] == x;
            assert(in_prefix(a, a.len() as int, da[k]));
            assert(!b.contains(da[k]));
        }
        if a.contains(x) && !b.contains(x) {
            let p = choose|p: int| 0 <= p < a.len() && a[p] == x;
            assert(inter.contains(a[p]) || da.contains(a[p]));
        }
    }
    assert forall|x: usize| db.contains(x) <==> b.contains(x) && !a.contains(x) by {
        if db.contains(x) {
            let k = choose|k: int| 0 <= k < db.len() && db[k] == x;
            assert(in_prefix(b, b.len() as int, db[k]));
            assert(!a.contains(db[k]));
        }
        if b.contains(x) && !a.contains(x) {
            let p = choose|p: int| 0 <= p < b.len() && b[p] == x;
            assert(inter.contains(b[p]) || db.contains(b[p]));
        }
    }
}

/// What every rule by which a cage narrows the board keeps to: the board
/// stays well-formed, no cell gains a digit, cells outside the cage stay as
/// they are, and every grid within the board that meets the cage stays
/// within it.
pub open spec fn narrowed_by(cage: CageView, before: Seq<Cell>, after: Seq<Cell>) -> bool {
    &&& board_wf(after)
    &&& narrows(after, before)
    &&& forall|i: int|
        0 <= i < 81 && !cage.cells.contains(i as usize) ==> #[trigger] after[i] == before[i]
    &&& forall|g: Seq<int>|
        is_grid(g) && within(before, g) && #[trigger] cage.satisfied_by(g) ==> within(after, g)
}

/// No grid within the board meets the cage.
pub open spec fn refuted_by(cage: CageView, board: Seq<Cell>) -> bool {
    forall|g: Seq<int>| is_grid(g) && within(board, g) ==> !#[trigger] cage.satisfied_by(g)
}

/// A grid that meets a cage of distinct digits uses only digits that occur
/// in some set of as many distinct digits with the cage's sum.
pub proof fn lemma_uniform_combination(cage: CageView, g: Seq<int>)
    requires
        cage.wf(),
        cage.uniqueness,
        is_grid(g),
        cage.satisfied_by(g),
    ensures
        combinations(cage.cells.len(), cage.sum).len() > 0,
        forall|k: int|
            0 <= k < cage.cells.len() ==> has_bit(
                combinations_union(cage.cells.len(), cage.sum),
                g[#[trigger] cage.cells[k] as int],
            ),
{
    let n = cage.cells.len();
    let m = digits_mask(g, cage.cells, n as int);
    lemma_digits_mask(g, cage.cells, n as int);
    assert(is_combination(m, n as int, cage.sum)) by {
        assert forall|d: int| has_bit(m, d) implies 1 <= d <= 9 by {
            let k = choose|k: int| 0 <= k < n && g[#[trigger] cage.cells[k] as int] == d;
            assert(cage.cells[k] < 81);
        }
    }
    lemma_combinations_exact(n, cage.sum);
    let list = combinations(n, cage.sum);
    assert(list.contains(m));
    let j = choose|j: int| 0 <= j < list.len() && list[j] == m;
    lemma_union_bits(list, list.len() as int);
    assert forall|k: int| 0 <= k < n implies has_bit(
        combinations_union(n, cage.sum),
        g[#[trigger] cage.cells[k] as int],
    ) by {
        assert(has_bit(list[j], g[cage.cells[k] as int]));
    }
}

/// Cells that are not among the first `n` of the cage include those outside the cage.
proof fn lemma_frame_from_prefix(cells: Seq<usize>, n: int, after: Seq<Cell>, before: Seq<Cell>)
    requires
        0 <= n <= cells.len(),
        forall|j: int|
            0 <= j < 81 && !in_prefix(cells, n, j as usize) ==> #[trigger] after[j] == before[j],
    ensures
        forall|i: int|
            0 <= i < 81 && !cells.contains(i as usize) ==> #[trigger] after[i] == before[i],
{
    assert forall|i: int| 0 <= i < 81 && !cells.contains(i as usize) implies #[trigger] after[i]
        == before[i] by {
        if in_prefix(cells, n, i as usize) {
            let p = choose|p: int| 0 <= p < n && cells[p] == i as usize;
            assert(cells.contains(i as usize));
        }
    }
}

/// Where no grid meets the cage, every grid that does stays within any board.
proof fn lemma_keeps_from_refuted(cage: CageView, before: Seq<Cell>, after: Seq<Cell>)
    requires
        refuted_by(cage, before),
    ensures
        forall|g: Seq<int>|
            is_grid(g) && within(before, g) && #[trigger] cage.satisfied_by(g) ==> within(
                after,
                g,
            ),
{
}

/// Whether the first `n` of the cells can hold digits that add up to `s`.
pub open spec fn reachable_sum(board: Seq<Cell>, cells: Seq<usize>, n: int, s: int) -> bool
    decreases n,
{
    if n <= 0 {
        s == 0
    } else {
        exists|d: int|
            1 <= d <= 9 && #[trigger] board[cells[n - 1] as int].has(d) && reachable_sum(
                board,
                cells,
                n - 1,
                s - d,
            )
    }
}

/// The number of digits that the first `n` of the cells may hold, all told.
pub open spec fn freedom(board: Seq<Cell>, cells: Seq<usize>, n: int) -> int
    decreases n,
{
    if n <= 0 {
        0
    } else {
        freedom(board, cells, n - 1) + popcount(board[cells[n - 1] as int].bits())
    }
}

/// The sum of the digits of those of the first `n` cells that have one digit left.
pub open spec fn solved_sum(board: Seq<Cell>, cells: Seq<usize>, n: int) -> int
    decreases n,
{
    if n <= 0 {
        0
    } else {
        solved_sum(board, cells, n - 1) + if popcount(board[cells[n - 1] as int].bits()) == 1 {
            crate::combinations::digit_sum(board[cells[n - 1] as int].bits())
        } else {
            0
        }
    }
}

/// The digit `d` is the one digit left of one of the first `n` cells.
pub open spec fn solved_digit(board: Seq<Cell>, cells: Seq<usize>, n: int, d: int) -> bool {
    exists|k: int|
        0 <= k < n && popcount(board[#[trigger] cells[k] as int].bits()) == 1
            && board[cells[k] as int].has(
            d,
        )
}

/// Ascending cells of the board are at most 81.
pub proof fn lemma_cells_len(cells: Seq<usize>)
    requires
        cells_wf(cells),
    ensures
        cells.len() <= 81,
{
    lemma_cells_at_least_index(cells, cells.len() as int);
    if cells.len() > 0 {
        assert(cells[cells.len() - 1] < 81);
    }
}

proof fn lemma_cells_at_least_index(cells: Seq<usize>, n: int)
    requires
        cells_wf(cells),
        0 <= n <= cells.len(),
    ensures
        forall|k: int| 0 <= k < n ==> cells[k] >= k,
    decreases n,
{
    if n > 0 {
        lemma_cells_at_least_index(cells, n - 1);
        if n > 1 {
            assert(cells[n - 2] < cells[n - 1]);
        }
    }
}

/// The only digit of a cell with one digit left is the sum of its digits.
pub proof fn lemma_single_digit_sum(bits: u64, d: int)
    requires
        0 <= d < 64,
        bits == 1u64 << (d as u64),
    ensures
        crate::combinations::digit_sum(bits) == d,
        popcount(bits) == 1,
{
    lemma_bit_algebra(0, 0);
    crate::util::lemma_or_rearrange(bits, 0, 0);
    crate::combinations::lemma_add_bit(0, d, 64);
    crate::util::lemma_count_zero(0, 64);
    crate::combinations::lemma_weight_zero(0, 64);
}

/// Only sums of zero and more can be reached.
proof fn lemma_reachable_nonnegative(board: Seq<Cell>, cells: Seq<usize>, n: int, s: int)
    requires
        reachable_sum(board, cells, n, s),
    ensures
        s >= 0,
    decreases n,
{
    if n > 0 {
        let d = choose|d: int|
            1 <= d <= 9 && #[trigger] board[cells[n - 1] as int].has(d) && reachable_sum(
                board,
                cells,
                n - 1,
                s - d,
            );
        lemma_reachable_nonnegative(board, cells, n - 1, s - d);
    }
}

/// The sum of the settled digits does not go down as more cells are counted.
proof fn lemma_solved_sum_grows(board: Seq<Cell>, cells: Seq<usize>, n: int, m: int)
    requires
        n <= m,
    ensures
        solved_sum(board, cells, n) <= solved_sum(board, cells, m),
    decreases m - n,
{
    if n < m {
        lemma_solved_sum_grows(board, cells, n, m - 1);
        if m > 0 {
            crate::combinations::lemma_weight_nonnegative(board[cells[m - 1] as int].bits(), 64);
        }
    }
}

/// The lists agree before the position `p`, where `a` ends or holds the smaller cell.
pub open spec fn cells_differ_at(a: Seq<usize>, b: Seq<usize>, p: int) -> bool {
    &&& 0 <= p <= a.len()
    &&& p < b.len()
    &&& forall|k: int| 0 <= k < p ==> a[k] == b[k]
    &&& p == a.len() || a[p] < b[p]
}

/// `a` comes before `b` as words are ordered by their letters.
pub open spec fn cells_before(a: Seq<usize>, b: Seq<usize>) -> bool {
    exists|p: int| cells_differ_at(a, b, p)
}

/// The order of cages: by cells, then by sum, then by uniqueness.
pub open spec fn cage_before(a: CageView, b: CageView) -> bool {
    cells_before(a.cells, b.cells) || (a.cells == b.cells && (a.sum < b.sum || (a.sum == b.sum
        && !a.uniqueness && b.uniqueness)))
}

/// The first position from `p` on at which two different lists differ, or one of them ends.
proof fn lemma_find_difference(a: Seq<usize>, b: Seq<usize>, p: int) -> (q: int)
    requires
        0 <= p <= a.len(),
        p <= b.len(),
        forall|k: int| 0 <= k < p ==> a[k] == b[k],
        a != b,
    ensures
        p <= q <= a.len(),
        q <= b.len(),
        forall|k: int| 0 <= k < q ==> a[k] == b[k],
        q < a.len() || q < b.len(),
        q < a.len() && q < b.len() ==> a[q] != b[q],
    decreases a.len() - p,
{
    if p == a.len() || p == b.len() {
        if p == a.len() && p == b.len() {
            assert(a =~= b);
        }
        p
    } else if a[p] != b[p] {
        p
    } else {
        lemma_find_difference(a, b, p + 1)
    }
}

/// Of two different lists of cells one comes before the other, and not the other way round.
pub proof fn lemma_cells_order(a: Seq<usize>, b: Seq<usize>)
    ensures
        a == b || cells_before(a, b) || cells_before(b, a),
        !(cells_before(a, b) && cells_before(b, a)),
        !cells_before(a, a),
{
    lemma_no_difference(a);
    if a != b {
        let q = lemma_find_difference(a, b, 0);
        if q == a.len() || (q < b.len() && a[q] < b[q]) {
            assert(cells_differ_at(a, b, q));
        } else {
            assert(cells_differ_at(b, a, q));
        }
    }
    if cells_before(a, b) && cells_before(b, a) {
        let p = choose|p: int| cells_differ_at(a, b, p);
        let q = choose|q: int| cells_differ_at(b, a, q);
        if p < q {
            assert(b[p] == a[p]);
        } else if q < p {
            assert(a[q] == b[q]);
        }
    }
}

/// A list before a list that is before a third is before the third.
pub proof fn lemma_cells_before_transitive(a: Seq<usize>, b: Seq<usize>, c: Seq<usize>)
    requires
        cells_before(a, b),
        cells_before(b, c),
    ensures
        cells_before(a, c),
{
    let p = choose|p: int| cells_differ_at(a, b, p);
    let q = choose|q: int| cells_differ_at(b, c, q);
    if p <= q {
        assert forall|k: int| 0 <= k < p implies a[k] == c[k] by {
            assert(a[k] == b[k] && b[k] == c[k]);
        }
        if p < q {
            assert(b[p] == c[p]);
        }
        assert(cells_differ_at(a, c, p));
    } else {
        assert forall|k: int| 0 <= k < q implies a[k] == c[k] by {
            assert(a[k] == b[k] && b[k] == c[k]);
        }
        assert(a[q] == b[q]);
        assert(cells_differ_at(a, c, q));
    }
}

/// The order of cages puts any two different cages one before the other,
/// never both ways, and carries through a chain.
pub proof fn lemma_cage_order(a: CageView, b: CageView, c: CageView)
    ensures
        a == b || cage_before(a, b) || cage_before(b, a),
        !(cage_before(a, b) && cage_before(b, a)),
        !cage_before(a, a),
        cage_before(a, b) && cage_before(b, c) ==> cage_before(a, c),
{
    lemma_cells_order(a.cells, b.cells);
    lemma_cells_order(a.cells, a.cells);
    lemma_cells_order(b.cells, c.cells);
    lemma_cells_order(a.cells, c.cells);
    if cage_before(a, b) && cage_before(b, c) {
        if cells_before(a.cells, b.cells) && cells_before(b.cells, c.cells) {
            lemma_cells_before_transitive(a.cells, b.cells, c.cells);
        }
    }
    if a != b && a.cells == b.cells {
        assert(a.sum != b.sum || a.uniqueness != b.uniqueness);
    }
}

/// Where the lists first differ at `p` and `a` is not the smaller there, `a` is not before `b`.
proof fn lemma_first_difference(a: Seq<usize>, b: Seq<usize>, p: int)
    requires
        0 <= p <= b.len(),
        p <= a.len(),
        forall|k: int| 0 <= k < p ==> a[k] == b[k],
        p < a.len(),
        p == b.len() || a[p] > b[p],
    ensures
        !cells_before(a, b),
        a != b,
{
    if cells_before(a, b) {
        let q = choose|q: int| cells_differ_at(a, b, q);
        if q < p {
        } else if q > p {
            assert(a[p] == b[p]);
        }
    }
    if a == b {
        assert(a.len() == b.len());
    }
}

/// No list comes before itself.
proof fn lemma_no_difference(a: Seq<usize>)
    ensures
        !cells_before(a, a),
{
    if cells_before(a, a) {
        let q = choose|q: int| cells_differ_at(a, a, q);
    }
}

/// A list in which each element is above the one before it is ascending.
pub proof fn lemma_steps_increasing(s: Seq<usize>)
    requires
        forall|k: int| 0 < k < s.len() ==> s[k - 1] < #[trigger] s[k],
    ensures
        forall|i: int, j: int| 0 <= i < j < s.len() ==> s[i] < s[j],
{
    assert forall|i: int, j: int| 0 <= i < j < s.len() implies s[i] < s[j] by {
        lemma_steps_pair(s, i, j);
    }
}

proof fn lemma_steps_pair(s: Seq<usize>, i: int, j: int)
    requires
        forall|k: int| 0 < k < s.len() ==> s[k - 1] < #[trigger] s[k],
        0 <= i < j < s.len(),
    ensures
        s[i] < s[j],
    decreases j - i,
{
    if i + 1 < j {
        lemma_steps_pair(s, i, j - 1);
    }
    assert(s[j - 1] < s[j]);
}

/// The board with each cell of the list narrowed to the digits of `allowed`.
pub open spec fn kept(board: Seq<Cell>, cells: Seq<usize>, allowed: u64) -> Seq<Cell> {
    Seq::new(
        board.len(),
        |j: int|
            if cells.contains(j as usize) {
                Cell::of_bits(board[j].bits() & allowed)
            } else {
                board[j]
            },
    )
}

/// The board with the two cells of the cage narrowed: the first to the
/// digits that some digit of the second completes to the cage's sum, then
/// the second to those that some digit left in the first completes to it.
pub open spec fn paired(board: Seq<Cell>, cage: CageView) -> Seq<Cell> {
    let first = cage.cells[0] as int;
    let second = cage.cells[1] as int;
    let a = Cell::of_bits(board[first].bits() & board[second].complement(cage.sum));
    let b = Cell::of_bits(board[second].bits() & a.complement(cage.sum));
    board.update(first, a).update(second, b)
}

/// Some cell of the list holds none of the digits of `allowed`.
pub open spec fn starves(cells: Seq<usize>, board: Seq<Cell>, allowed: u64) -> bool {
    exists|k: int|
        0 <= k < cells.len() && (#[trigger] board[cells[k] as int]).bits() & allowed == 0
}

/// Some digit of the first cell of the cage and some digit of the second
/// add up to the cage's sum.
pub open spec fn pair_completes(board: Seq<Cell>, cage: CageView) -> bool {
    exists|d: int| #[trigger]
        board[cage.cells[0] as int].has(d) && board[cage.cells[1] as int].has(cage.sum - d)
}

/// In a cage of two cells with distinct digits, each digit of either cell
/// has in the other cell the digit that completes it to the sum.
pub open spec fn pair_closed(board: Seq<Cell>, cage: CageView) -> bool {
    cage.uniqueness && cage.cells.len() == 2 ==> forall|d: int|
        (#[trigger] board[cage.cells[0] as int].has(d) ==> board[cage.cells[1] as int].has(
            cage.sum - d,
        )) && (#[trigger] board[cage.cells[1] as int].has(d) ==> board[cage.cells[0] as int].has(
            cage.sum - d,
        ))
}

impl Cage {
    /// A cage of the given cells, put in ascending order. Its digits must be
    /// distinct where that is asked for, or where the cells share a row or a
    /// column.
    pub fn new(cells: Vec<usize>, sum: usize, uniqueness: bool) -> (r: Self)
        ensures
            r@.cells == sorted(cells@),
            r@.sum == sum,
            r@.uniqueness == (uniqueness || shares_line(sorted(cells@))),
            distinct_cells(cells@) ==> r@.wf(),
    {
        let sorted_cells = sort_indices(&cells);
        let line = cage_can_have_uniqueness(&sorted_cells);
        proof {
            if distinct_cells(cells@) {
                lemma_sorted_cells_wf(cells@);
            }
        }
        Cage { cells: sorted_cells, sum, uniqueness: uniqueness || line }
    }

    /// The cage without cells, with sum zero: merging with it changes nothing.
    pub fn empty() -> (r: Self)
        ensures
            r@.cells == Seq::<usize>::empty(),
            r@.sum == 0,
            !r@.uniqueness,
            r@.wf(),
    {
        Cage { cells: Vec::new(), sum: 0, uniqueness: false }
    }

    /// A copy of the cage.
    pub fn duplicate(&self) -> (r: Self)
        ensures
            r@ == self@,
    {
        Cage { cells: copy_indices(&self.cells), sum: self.sum, uniqueness: self.uniqueness }
    }

    /// The cells of both cages in ascending order, with the sum of their sums.
    /// The digits of the result must be distinct only where its cells share a
    /// row or a column.
    pub fn merge(&self, other: &Self) -> (r: Self)
        requires
            self.sum + other.sum <= usize::MAX,
        ensures
            r@.cells == sorted(self@.cells + other@.cells),
            r@.sum == self@.sum + other@.sum,
            r@.uniqueness == shares_line(r@.cells),
    {
        let mut all = copy_indices(&self.cells);
        let mut i: usize = 0;
        while i < other.cells.len()
            invariant
                0 <= i <= other.cells.len(),
                all@ == self.cells@ + other.cells@.take(i as int),
            decreases other.cells.len() - i,
        {
            all.push(other.cells[i]);
            assert(other.cells@.take(i + 1) =~= other.cells@.take(i as int).push(
                other.cells@[i as int],
            ));
            assert(all@ =~= self.cells@ + other.cells@.take(i + 1));
            i += 1;
        }
        assert(other.cells@.take(other.cells.len() as int) =~= other.cells@);
        let cells = sort_indices(&all);
        let uniqueness = cage_can_have_uniqueness(&cells);
        Cage { cells, sum: self.sum + other.sum, uniqueness }
    }

    /// With `A` the cells of `self` and `B` those of `other`: the cells in
    /// both, those in `A` alone and those in `B` alone, each list ascending.
    pub fn get_intersection_and_difference(&self, other: &Self) -> (r: (
        Vec<usize>,
        Vec<usize>,
        Vec<usize>,
    ))
        requires
            strictly_increasing(self@.cells),
            strictly_increasing(other@.cells),
        ensures
            strictly_increasing(r.0@),
            strictly_increasing(r.1@),
            strictly_increasing(r.2@),
            forall|x: usize|
                r.0@.contains(x) <==> self@.cells.contains(x) && other@.cells.contains(x),
            forall|x: usize|
                r.1@.contains(x) <==> self@.cells.contains(x) && !other@.cells.contains(x),
            forall|x: usize|
                r.2@.contains(x) <==> other@.cells.contains(x) && !self@.cells.contains(x),
            sorted(r.0@ + r.1@) == self@.cells,
            sorted(r.0@ + r.2@) == other@.cells,
    {
        let mut intersection: Vec<usize> = Vec::new();
        let mut difference_a: Vec<usize> = Vec::new();
        let mut difference_b: Vec<usize> = Vec::new();
        let ghost a = self.cells@;
        let ghost b = other.cells@;
        let mut i: usize = 0;
        let mut j: usize = 0;
        proof {
            lemma_pieces_start(a);
            lemma_pieces_start(b);
        }
        while i < self.cells.len() || j < other.cells.len()
            invariant
                a == self.cells@,
                b == other.cells@,
                strictly_increasing(a),
                strictly_increasing(b),
                0 <= i <= a.len(),
                0 <= j <= b.len(),
                strictly_increasing(intersection@),
                strictly_increasing(difference_a@),
                strictly_increasing(difference_b@),
                i < a.len() ==> forall|q: int| 0 <= q < j ==> b[q] < a[i as int],
                j < b.len() ==> forall|p: int| 0 <= p < i ==> a[p] < b[j as int],
                all_in_prefix(intersection@, a, i as int),
                all_in_prefix(intersection@, b, j as int),
                all_in_prefix(difference_a@, a, i as int),
                all_in_prefix(difference_b@, b, j as int),
                none_in(difference_a@, b),
                none_in(difference_b@, a),
                covered(a, i as int, intersection@, difference_a@),
                covered(b, j as int, intersection@, difference_b@),
                intersection@.to_multiset().add(difference_a@.to_multiset()) == a.take(
                    i as int,
                ).to_multiset(),
                intersection@.to_multiset().add(difference_b@.to_multiset()) == b.take(
                    j as int,
                ).to_multiset(),
            decreases a.len() - i + b.len() - j,
        {
            let ghost inter0 = intersection@;
            let ghost da0 = difference_a@;
            let ghost db0 = difference_b@;
            let take_a = i < self.cells.len() && (j >= other.cells.len() || self.cells[i]
                <= other.cells[j]);
            let take_b = j < other.cells.len() && (i >= self.cells.len() || other.cells[j]
                <= self.cells[i]);
            if take_a && take_b {
                let x: usize = self.cells[i];
                proof {
                    lemma_below_next(inter0, a, i as int);
                    lemma_prefix_grows(inter0, a, i as int);
                    lemma_prefix_grows(inter0, b, j as int);
                    lemma_prefix_grows(da0, a, i as int);
                    lemma_prefix_grows(db0, b, j as int);
                    lemma_covered_step(a, i as int, inter0, da0, true);
                    lemma_covered_step(b, j as int, inter0, db0, true);
                    lemma_pieces_push(inter0, da0, a, i as int, true);
                    lemma_pieces_push(inter0, db0, b, j as int, true);
                    if i + 1 < a.len() {
                        assert forall|q: int| 0 <= q < j + 1 implies b[q] < a[i + 1] by {
                            assert(a[i as int] < a[i + 1]);
                        }
                    }
                    if j + 1 < b.len() {
                        assert forall|p: int| 0 <= p < i + 1 implies a[p] < b[j + 1] by {
                            assert(b[j as int] < b[j + 1]);
                        }
                    }
                }
                intersection.push(x);
                i += 1;
                j += 1;
            } else if take_a {
                let x: usize = self.cells[i];
                proof {
                    lemma_below_next(da0, a, i as int);
                    lemma_prefix_grows(inter0, a, i as int);
                    lemma_prefix_grows(da0, a, i as int);
                    lemma_covered_step(a, i as int, inter0, da0, false);
                    lemma_pieces_push(inter0, da0, a, i as int, false);
                    lemma_absent(b, j as int, x);
                    lemma_none_in_push(da0, b, x);
                    if i + 1 < a.len() {
                        assert forall|q: int| 0 <= q < j implies b[q] < a[i + 1] by {
                            assert(a[i as int] < a[i + 1]);
                        }
                    }
                }
                difference_a.push(x);
                i += 1;
            } else {
                let x: usize = other.cells[j];
                proof {
                    lemma_below_next(db0, b, j as int);
                    lemma_prefix_grows(inter0, b, j as int);
                    lemma_prefix_grows(db0, b, j as int);
                    lemma_covered_step(b, j as int, inter0, db0, false);
                    lemma_pieces_push(inter0, db0, b, j as int, false);
                    lemma_absent(a, i as int, x);
                    lemma_none_in_push(db0, a, x);
                    if j + 1 < b.len() {
                        assert forall|p: int| 0 <= p < i implies a[p] < b[j + 1] by {
                            assert(b[j as int] < b[j + 1]);
                        }
                    }
                }
                difference_b.push(x);
                j += 1;
            }
        }
        proof {
            assert(a.take(a.len() as int) =~= a);
            assert(b.take(b.len() as int) =~= b);
            lemma_pieces_round_trip(intersection@, difference_a@, a);
            lemma_pieces_round_trip(intersection@, difference_b@, b);
            lemma_pieces_exact(a, b, intersection@, difference_a@, difference_b@);
        }
        (intersection, difference_a, difference_b)
    }

    /// Keeps in every cell of a cage of distinct digits only the digits that
    /// occur in some set of as many distinct digits with the cage's sum. Says
    /// whether a cell changed. A cage whose digits need not be distinct is
    /// passed over.
    pub fn restrict_by_uniform_combination(&self, board: &mut [Cell; 81]) -> (r: Result<
        bool,
        SolveError,
    >)
        requires
            self@.wf(),
            board_wf(old(board)@),
        ensures
            narrowed_by(self@, old(board)@, final(board)@),
            r is Err ==> r == Err::<bool, SolveError>(SolveError::Contradiction) && refuted_by(
                self@,
                old(board)@,
            ),
            !self.uniqueness ==> r == Ok::<bool, SolveError>(false),
            r is Err <==> self.uniqueness && (combinations(
                self.cells.len() as nat,
                self.sum as int,
            ).len() == 0 || starves(
                self@.cells,
                old(board)@,
                combinations_union(self.cells.len() as nat, self.sum as int),
            )),
            r matches Ok(progress) ==> progress == (final(board)@ != old(board)@) && (
            self.uniqueness ==> forall|k: int|
                0 <= k < self.cells.len() ==> (#[trigger] final(
                    board)@[self.cells[k] as int]).bits()
                    == old(board)@[self.cells[k] as int].bits() & combinations_union(
                    self.cells.len() as nat,
                    self.sum as int,
                )),
            r is Ok && self.uniqueness ==> final(board)@ == kept(
                old(board)@,
                self@.cells,
                combinations_union(self.cells.len() as nat, self.sum as int),
            ),
    {
        if !self.uniqueness {
            return Ok(false);
        }
        let ghost n = self.cells.len() as nat;
        let ghost cage = self@;
        proof {
            assert forall|g: Seq<int>|
                is_grid(g) && within(board@, g) && #[trigger] cage.satisfied_by(
                    g,
                ) implies combinations(n, cage.sum).len() > 0 && forall|k: int|
                0 <= k < n ==> has_bit(
                    combinations_union(n, cage.sum),
                    g[#[trigger] cage.cells[k] as int],
                ) by {
                lemma_uniform_combination(cage, g);
            }
        }
        let sets = match get_combinations(self.cells.len(), self.sum) {
            Ok(sets) => sets,
            Err(e) => {
                return Err(e);
            },
        };
        if sets.len() == 0 {
            return Err(SolveError::Contradiction);
        }
        let allowed = match get_combinations_union(self.cells.len(), self.sum) {
            Ok(u) => u,
            Err(e) => {
                return Err(e);
            },
        };
        let mut progress = false;
        let mut i: usize = 0;
        while i < self.cells.len()
            invariant
                0 <= i <= self.cells.len(),
                self@ == cage,
                cage.wf(),
                cage.uniqueness,
                n == self.cells.len(),
                allowed == combinations_union(n, cage.sum),
                board_wf(old(board)@),
                board_wf(board@),
                narrows(board@, old(board)@),
                forall|j: int|
                    0 <= j < 81 && !in_prefix(cage.cells, i as int, j as usize)
                        ==> #[trigger] board@[j] == old(board)@[j],
                forall|k: int|
                    0 <= k < i ==> (#[trigger] board@[cage.cells[k] as int]).bits() == old(
                        board,
                    )@[cage.cells[k] as int].bits() & allowed,
                progress == (board@ != old(board)@),
                forall|g: Seq<int>|
                    is_grid(g) && within(old(board)@, g) && #[trigger] cage.satisfied_by(g)
                        ==> forall|k: int|
                        0 <= k < n ==> has_bit(allowed, g[#[trigger] cage.cells[k] as int]),
            decreases self.cells.len() - i,
        {
            let c: usize = self.cells[i];
            let before = board[c];
            let mut cell = board[c];
            let ghost prev = board@;
            proof {
                assert(!in_prefix(cage.cells, i as int, c)) by {
                    if in_prefix(cage.cells, i as int, c) {
                        let p = choose|p: int| 0 <= p < i && cage.cells[p] == c;
                        assert(cage.cells[p] < cage.cells[i as int]);
                    }
                }
                assert(prev[c as int] == old(board)@[c as int]);
                lemma_bit_algebra(before.bits(), allowed);
            }
            match cell.restrict_to(allowed) {
                Ok(()) => {},
                Err(e) => {
                    proof {
                        assert forall|g: Seq<int>|
                            is_grid(g) && within(old(board)@,
                                g) implies !#[trigger] cage.satisfied_by(
                            g,
                        ) by {
                            if cage.satisfied_by(g) {
                                let d = g[cage.cells[i as int] as int];
                                assert(old(board)@[c as int].has(d));
                                assert(has_bit(allowed, d));
                                assert(has_bit(before.bits() & allowed, d));
                                crate::util::lemma_has_bit_nonzero(before.bits() & allowed, d);
                            }
                        }
                        lemma_frame_from_prefix(cage.cells, i as int, board@, old(board)@);
                        lemma_keeps_from_refuted(cage, old(board)@, board@);
                        assert(old(board)@[cage.cells[i as int] as int].bits() & allowed == 0);
                    }
                    return Err(e);
                },
            }
            if cell != before {
                progress = true;
            }
            board[c] = cell;
            proof {
                assert(board@ =~= prev.update(c as int, cell));
                assert forall|j: int|
                    0 <= j < 81 && !in_prefix(
                        cage.cells,
                        i + 1,
                        j as usize,
                    ) implies #[trigger] board@[j] == old(board)@[j] by {
                    if j == c {
                        assert(0 <= i < i + 1 && cage.cells[i as int] == j as usize);
                    } else {
                        if in_prefix(cage.cells, i as int, j as usize) {
                            let p = choose|p: int| 0 <= p < i && cage.cells[p] == j as usize;
                            assert(0 <= p < i + 1 && cage.cells[p] == j as usize);
                        }
                    }
                }
                assert forall|k: int| 0 <= k < i + 1 implies (
                    #[trigger] board@[cage.cells[k] as int]).bits()
                    == old(board)@[cage.cells[k] as int].bits() & allowed by {
                    if k < i {
                        assert(cage.cells[k] < cage.cells[i as int]);
                        assert(prev[cage.cells[k] as int].bits() == old(
                            board,
                        )@[cage.cells[k] as int].bits() & allowed);
                    }
                }
                if cell != before {
                    assert(board@[c as int] != old(board)@[c as int]);
                } else {
                    assert(board@ =~= prev);
                }
            }
            i += 1;
        }
        proof {
            lemma_frame_from_prefix(cage.cells, cage.cells.len() as int, board@, old(board)@);
            assert forall|g: Seq<int>|
                is_grid(g) && within(old(board)@, g) && #[trigger] cage.satisfied_by(
                    g,
                ) implies within(board@, g) by {
                assert forall|j: int| 0 <= j < 81 implies (#[trigger] board@[j]).has(g[j]) by {
                    assert(old(board)@[j].has(g[j]));
                    if cage.cells.contains(j as usize) {
                        let k = choose|k: int| 0 <= k < cage.cells.len() && cage.cells[k] == j;
                        assert(has_bit(allowed, g[cage.cells[k] as int]));
                        assert(board@[cage.cells[k] as int].bits() == old(
                            board,
                        )@[cage.cells[k] as int].bits() & allowed);
                        lemma_bit_algebra(old(board)@[j].bits(), allowed);
                    }
                }
            }
            assert(board@ =~= kept(old(board)@, cage.cells, allowed)) by {
                assert forall|j: int| 0 <= j < 81 implies board@[j] == kept(
                    old(board)@,
                    cage.cells,
                    allowed,
                )[j] by {
                    if cage.cells.contains(j as usize) {
                        let k = choose|k: int| 0 <= k < cage.cells.len() && cage.cells[k] == j;
                        assert(board@[cage.cells[k] as int].bits() == old(
                            board,
                        )@[cage.cells[k] as int].bits() & allowed);
                        crate::cell::lemma_of_bits(old(board)@[j].bits() & allowed);
                        crate::cell::lemma_cell_by_bits(
                            board@[j],
                            Cell::of_bits(old(board)@[j].bits() & allowed),
                        );
                    }
                }
            }
            assert(!starves(cage.cells, old(board)@, allowed)) by {
                if starves(cage.cells, old(board)@, allowed) {
                    let k = choose|k: int|
                        0 <= k < cage.cells.len() && (#[trigger] old(
                            board,
                        )@[cage.cells[k] as int]).bits() & allowed == 0;
                    assert(board@[cage.cells[k] as int].bits() == 0);
                    assert(cage.cells[k] < 81);
                    assert(board@[cage.cells[k] as int].wf());
                }
            }
        }
        Ok(progress)
    }

    /// The sums below 64 that the cells of the cage can reach with digits of
    /// their domains, as a mask; whether the digits are distinct is not looked at.
    pub fn get_possible_sums(&self, board: &[Cell; 81]) -> (r: u64)
        requires
            self@.wf(),
        ensures
            forall|s: int|
                has_bit(r, s) <==> 0 <= s < 64 && reachable_sum(
                    board@,
                    self@.cells,
                    self@.cells.len() as int,
                    s,
                ),
    {
        let mut accum: u64 = 1;
        let mut i: usize = 0;
        proof {
            crate::util::lemma_bit_zero();
        }
        while i < self.cells.len()
            invariant
                0 <= i <= self.cells.len(),
                self@.wf(),
                forall|s: int|
                    has_bit(accum, s) <==> 0 <= s < 64 && reachable_sum(
                        board@,
                        self@.cells,
                        i as int,
                        s,
                    ),
            decreases self.cells.len() - i,
        {
            let ghost prev = accum;
            let c: usize = self.cells[i];
            accum = board[c].fold_possible_sums(accum);
            proof {
                let cell = board@[c as int];
                assert forall|s: int|
                    has_bit(accum, s) <==> 0 <= s < 64 && reachable_sum(
                        board@,
                        self@.cells,
                        i + 1,
                        s,
                    ) by {
                    if has_bit(accum, s) {
                        let d = choose|d: int|
                            1 <= d <= 9 && #[trigger] cell.has(d) && has_bit(prev, s - d);
                        assert(reachable_sum(board@, self@.cells, i as int, s - d));
                    }
                    if 0 <= s < 64 && reachable_sum(board@, self@.cells, i + 1, s) {
                        let d = choose|d: int|
                            1 <= d <= 9 && #[trigger] cell.has(d) && reachable_sum(
                                board@,
                                self@.cells,
                                i as int,
                                s - d,
                            );
                        lemma_reachable_nonnegative(board@, self@.cells, i as int, s - d);
                        assert(has_bit(prev, s - d));
                    }
                }
            }
            i += 1;
        }
        accum
    }

    /// What is left of the sum once the digits of the cells with one digit
    /// left are taken off, or nothing where they come to more than the sum.
    pub fn get_remaining_sum(&self, board: &[Cell; 81]) -> (r: Option<usize>)
        requires
            self@.wf(),
        ensures
            r matches Some(left) ==> left == self.sum - solved_sum(
                board@,
                self@.cells,
                self@.cells.len() as int,
            ),
            r is None ==> self.sum < solved_sum(board@, self@.cells, self@.cells.len() as int),
    {
        let mut left: usize = self.sum;
        let mut i: usize = 0;
        while i < self.cells.len()
            invariant
                0 <= i <= self.cells.len(),
                self@.wf(),
                left == self.sum - solved_sum(board@, self@.cells, i as int),
            decreases self.cells.len() - i,
        {
            let c: usize = self.cells[i];
            match board[c].get_solution() {
                Some(digit) => {
                    proof {
                        lemma_single_digit_sum(board@[c as int].bits(), digit as int);
                    }
                    if digit > left {
                        proof {
                            lemma_solved_sum_grows(
                                board@,
                                self@.cells,
                                i + 1,
                                self@.cells.len() as int,
                            );
                        }
                        return None;
                    }
                    left -= digit;
                },
                None => {},
            }
            i += 1;
        }
        Some(left)
    }

    /// The digits of 1 to 9 that no cell of the cage with one digit left holds.
    pub fn get_remaining_numbers(&self, board: &[Cell; 81]) -> (r: u64)
        requires
            self@.wf(),
        ensures
            forall|d: int|
                has_bit(r, d) <==> 1 <= d <= 9 && !solved_digit(
                    board@,
                    self@.cells,
                    self@.cells.len() as int,
                    d,
                ),
    {
        let mut accum: u64 = crate::cell::ALL_DIGITS;
        let mut i: usize = 0;
        proof {
            crate::cell::lemma_digit_mask();
        }
        while i < self.cells.len()
            invariant
                0 <= i <= self.cells.len(),
                self@.wf(),
                forall|d: int|
                    has_bit(accum, d) <==> 1 <= d <= 9 && !solved_digit(
                        board@,
                        self@.cells,
                        i as int,
                        d,
                    ),
            decreases self.cells.len() - i,
        {
            let ghost prev = accum;
            let c: usize = self.cells[i];
            match board[c].get_solution() {
                Some(digit) => {
                    accum = accum & !(1u64 << digit);
                    proof {
                        lemma_bit_algebra(prev, !(1u64 << digit));
                        lemma_bit_algebra(1u64 << digit, 0);
                        crate::util::lemma_bit_shift(0, digit as int);
                    }
                },
                None => {},
            }
            proof {
                let cells = self@.cells;
                assert forall|d: int|
                    has_bit(accum, d) <==> 1 <= d <= 9 && !solved_digit(
                        board@,
                        cells,
                        i + 1,
                        d,
                    ) by {
                    if solved_digit(board@, cells, i + 1, d) {
                        let k = choose|k: int|
                            0 <= k < i + 1 && popcount(board@[#[trigger] cells[k] as int].bits())
                                == 1 && board@[cells[k] as int].has(d);
                        if k < i {
                            assert(solved_digit(board@, cells, i as int, d));
                        }
                    }
                    if solved_digit(board@, cells, i as int, d) {
                        let k = choose|k: int|
                            0 <= k < i && popcount(board@[#[trigger] cells[k] as int].bits()) == 1
                                && board@[cells[k] as int].has(d);
                        assert(0 <= k < i + 1);
                    }
                    if 1 <= d <= 9 && !has_bit(accum, d) && has_bit(prev, d) {
                        assert(popcount(board@[cells[i as int] as int].bits()) == 1);
                    }
                }
            }
            i += 1;
        }
        accum
    }

    /// The number of digits that the cells of the cage may hold, all told.
    pub fn get_degrees_of_freedom(&self, board: &[Cell; 81]) -> (r: usize)
        requires
            self@.wf(),
        ensures
            r == freedom(board@, self@.cells, self@.cells.len() as int),
    {
        let mut total: usize = 0;
        let mut i: usize = 0;
        proof {
            lemma_cells_len(self@.cells);
        }
        while i < self.cells.len()
            invariant
                0 <= i <= self.cells.len(),
                self.cells.len() <= 81,
                self@.wf(),
                total == freedom(board@, self@.cells, i as int),
                total <= 64 * i,
            decreases self.cells.len() - i,
        {
            let c: usize = self.cells[i];
            let count = board[c].num_possible_solutions();
            proof {
                crate::util::lemma_count_bits_bounds(board@[c as int].bits(), 64);
            }
            total += count;
            i += 1;
        }
        total
    }

    /// In a cage of two cells with distinct digits, keeps in each cell only
    /// the digits that some digit of the other cell completes to the sum: first
    /// in the first cell, then in the second against what the first has left.
    /// Says whether a cell changed. Any other cage is passed over.
    pub fn restrict_by_combination(&self, board: &mut [Cell; 81]) -> (r: Result<bool, SolveError>)
        requires
            self@.wf(),
            board_wf(old(board)@),
        ensures
            narrowed_by(self@, old(board)@, final(board)@),
            r is Err ==> r == Err::<bool, SolveError>(SolveError::Contradiction) && refuted_by(
                self@,
                old(board)@,
            ),
            !(self.uniqueness && self.cells.len() == 2) ==> r == Ok::<bool, SolveError>(false),
            r is Err <==> self.uniqueness && self.cells.len() == 2 && !pair_completes(
                old(board)@,
                self@,
            ),
            r matches Ok(progress) ==> progress == (final(board)@ != old(board)@),
            r is Ok && self.uniqueness && self.cells.len() == 2 ==> final(board)@ == paired(
                old(board)@,
                self@,
            ),
            r is Ok ==> pair_closed(final(board)@, self@),
            r is Ok && self.uniqueness && self.cells.len() == 2 ==> {
                let first = self.cells[0] as int;
                let second = self.cells[1] as int;
                &&& forall|d: int|
                    final(board)@[first].has(d) <==> old(board)@[first].has(d) && old(
                        board,
                    )@[second].has(self.sum - d)
                &&& forall|d: int|
                    final(board)@[second].has(d) <==> old(board)@[second].has(d) && final(
                        board)@[first].has(self.sum - d)
            },
    {
        if !self.uniqueness || self.cells.len() != 2 {
            return Ok(false);
        }
        let ghost cage = self@;
        let first: usize = self.cells[0];
        let second: usize = self.cells[1];
        assert(first < second);
        let old_a = board[first];
        let old_b = board[second];
        let mut a = old_a;
        let mut b = old_b;
        proof {
            reveal_with_fuel(cells_sum, 3);
            crate::cell::lemma_domain_digits(old_a.bits());
            crate::cell::lemma_domain_digits(old_b.bits());
            assert forall|g: Seq<int>|
                is_grid(g) && within(old(board)@, g) && #[trigger] cage.satisfied_by(
                    g,
                ) implies g[first as int] + g[second as int] == cage.sum && old_a.has(
                g[first as int],
            ) && old_b.has(g[second as int]) by {
                assert(old(board)@[first as int].has(g[first as int]));
                assert(old(board)@[second as int].has(g[second as int]));
            }
            assert(cage.cells[0] == first && cage.cells[1] == second);
            assert(cage.cells.contains(first));
            assert(cage.cells.contains(second));
        }
        let mask_a = old_b.complement_to_sum(self.sum);
        proof {
            lemma_bit_algebra(old_a.bits(), mask_a);
        }
        match a.restrict_to(mask_a) {
            Ok(()) => {},
            Err(e) => {
                proof {
                    assert(!pair_completes(old(board)@, cage)) by {
                        if pair_completes(old(board)@, cage) {
                            let d = choose|d: int| #[trigger]
                                old(board)@[cage.cells[0] as int].has(d) && old(
                                    board,
                                )@[cage.cells[1] as int].has(cage.sum - d);
                            assert(old_a.has(d) && old_b.has(cage.sum - d));
                            assert(has_bit(old_a.bits() & mask_a, d));
                            crate::util::lemma_has_bit_nonzero(old_a.bits() & mask_a, d);
                        }
                    }
                    assert forall|g: Seq<int>|
                        is_grid(g) && within(old(board)@, g) implies !#[trigger] cage.satisfied_by(
                        g,
                    ) by {
                        if cage.satisfied_by(g) {
                            assert(has_bit(old_a.bits() & mask_a, g[first as int]));
                            crate::util::lemma_has_bit_nonzero(
                                old_a.bits() & mask_a,
                                g[first as int],
                            );
                        }
                    }
                }
                return Err(e);
            },
        }
        board[first] = a;
        let mask_b = a.complement_to_sum(self.sum);
        proof {
            lemma_bit_algebra(old_b.bits(), mask_b);
        }
        let ghost mid = board@;
        match b.restrict_to(mask_b) {
            Ok(()) => {},
            Err(e) => {
                proof {
                    assert(!pair_completes(old(board)@, cage)) by {
                        if pair_completes(old(board)@, cage) {
                            let d = choose|d: int| #[trigger]
                                old(board)@[cage.cells[0] as int].has(d) && old(
                                    board,
                                )@[cage.cells[1] as int].has(cage.sum - d);
                            assert(old_a.has(d) && old_b.has(cage.sum - d));
                            assert(a.has(d));
                            assert(has_bit(old_b.bits() & mask_b, cage.sum - d));
                            crate::util::lemma_has_bit_nonzero(
                                old_b.bits() & mask_b,
                                cage.sum - d,
                            );
                        }
                    }
                    assert forall|g: Seq<int>|
                        is_grid(g) && within(old(board)@, g) implies !#[trigger] cage.satisfied_by(
                        g,
                    ) by {
                        if cage.satisfied_by(g) {
                            assert(a.has(g[first as int]));
                            assert(has_bit(old_b.bits() & mask_b, g[second as int]));
                            crate::util::lemma_has_bit_nonzero(
                                old_b.bits() & mask_b,
                                g[second as int],
                            );
                        }
                    }
                }
                return Err(e);
            },
        }
        board[second] = b;
        proof {
            assert forall|g: Seq<int>|
                is_grid(g) && within(old(board)@, g) && #[trigger] cage.satisfied_by(
                    g,
                ) implies within(board@, g) by {
                assert forall|j: int| 0 <= j < 81 implies (#[trigger] board@[j]).has(g[j]) by {
                    assert(old(board)@[j].has(g[j]));
                }
            }
            assert(board@ =~= paired(old(board)@, cage)) by {
                crate::cell::lemma_of_bits(old_a.bits() & mask_a);
                crate::cell::lemma_cell_by_bits(a, Cell::of_bits(old_a.bits() & mask_a));
                crate::cell::lemma_of_bits(old_b.bits() & mask_b);
                crate::cell::lemma_cell_by_bits(b, Cell::of_bits(old_b.bits() & mask_b));
                assert(board@ =~= old(board)@.update(first as int, a).update(second as int, b));
            }
            assert(pair_completes(old(board)@, cage)) by {
                crate::cell::lemma_domain_digits(a.bits());
                let d = choose|d: int| has_bit(a.bits(), d);
                assert(a.has(d));
                assert(old_a.has(d) && old_b.has(cage.sum - d));
            }
            if a == old_a && b == old_b {
                assert(board@ =~= old(board)@);
            } else if a != old_a {
                assert(board@[first as int] != old(board)@[first as int]);
            } else {
                assert(board@[second as int] != old(board)@[second as int]);
            }
        }
        Ok(a != old_a || b != old_b)
    }

    /// Whether the two cages have the same cells, sum and uniqueness.
    pub fn same(&self, other: &Self) -> (r: bool)
        ensures
            r == (self@ == other@),
    {
        if self.sum != other.sum || self.uniqueness != other.uniqueness || self.cells.len()
            != other.cells.len() {
            return false;
        }
        let mut i: usize = 0;
        while i < self.cells.len()
            invariant
                0 <= i <= self.cells.len(),
                self.cells.len() == other.cells.len(),
                forall|k: int| 0 <= k < i ==> self.cells@[k] == other.cells@[k],
            decreases self.cells.len() - i,
        {
            if self.cells[i] != other.cells[i] {
                return false;
            }
            i += 1;
        }
        assert(self@.cells =~= other@.cells);
        true
    }

    /// Whether this cage comes before the other in the order of cages: by
    /// their cells, as words are ordered by their letters; then by sum; then
    /// a cage without uniqueness before one with.
    pub fn precedes(&self, other: &Self) -> (r: bool)
        ensures
            r == cage_before(self@, other@),
    {
        let mut i: usize = 0;
        while i < self.cells.len() && i < other.cells.len()
            invariant
                0 <= i <= self.cells.len(),
                i <= other.cells.len(),
                forall|k: int| 0 <= k < i ==> self.cells@[k] == other.cells@[k],
            decreases self.cells.len() - i,
        {
            if self.cells[i] < other.cells[i] {
                assert(cells_differ_at(self@.cells, other@.cells, i as int));
                return true;
            }
            if self.cells[i] > other.cells[i] {
                proof {
                    lemma_first_difference(self@.cells, other@.cells, i as int);
                }
                return false;
            }
            i += 1;
        }
        if self.cells.len() < other.cells.len() {
            assert(cells_differ_at(self@.cells, other@.cells, i as int));
            return true;
        }
        if self.cells.len() > other.cells.len() {
            proof {
                lemma_first_difference(self@.cells, other@.cells, i as int);
            }
            return false;
        }
        proof {
            assert(self@.cells =~= other@.cells);
            lemma_no_difference(self@.cells);
        }
        self.sum < other.sum || (self.sum == other.sum && !self.uniqueness && other.uniqueness)
    }

    /// Whether the cells are ascending without repeats and each a cell of the board.
    pub fn is_well_formed(&self) -> (r: bool)
        ensures
            r == self@.wf(),
    {
        let mut i: usize = 0;
        while i < self.cells.len()
            invariant
                0 <= i <= self.cells.len(),
                forall|k: int| 0 <= k < i ==> #[trigger] self.cells@[k] < 81,
                forall|k: int| 0 < k < i ==> self.cells@[k - 1] < #[trigger] self.cells@[k],
            decreases self.cells.len() - i,
        {
            if self.cells[i] >= 81 {
                return false;
            }
            if i > 0 && self.cells[i - 1] >= self.cells[i] {
                assert(!(self.cells@[i - 1] < self.cells@[i as int]));
                return false;
            }
            i += 1;
        }
        proof {
            lemma_steps_increasing(self.cells@);
        }
        true
    }
}

} // verus!
