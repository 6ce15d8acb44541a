//! Splitting a cage of distinct digits in two where some of its cells can
//! hold, between them, only as many digits as they are.

use crate::cage::{index_leq, lemma_sorted, narrowed_by, refuted_by, sorted, Cage};
use crate::cell::Cell;
use crate::combinations::{
    combinations, combinations_union, digit_sum, lemma_add_bit, lemma_combinations_from_sound,
    lemma_union_bits, weight_bits,
};
use crate::error::SolveError;
use crate::grid::{
    board_wf, cells_distinct, cells_sum, cells_wf, digits_mask, is_grid, lemma_digits_mask,
    lemma_narrows_transitive, narrows, within, CageView,
};
use crate::util::{
    count_bits, has_bit, lemma_bit_algebra, lemma_bit_shift, lemma_bits_equal,
    lemma_count_subset, popcnt64, popcount,
};
use vstd::prelude::*;

verus! {

/// The cells at those of the first `n` positions whose bit in `sel` is set,
/// where `want` holds, or clear, where it does not.
pub open spec fn picked(cells: Seq<usize>, sel: u64, n: int, want: bool) -> Seq<usize>
    decreases n,
{
    if n <= 0 {
        Seq::empty()
    } else if has_bit(sel, n - 1) == want {
        picked(cells, sel, n - 1, want).push(cells[n - 1])
    } else {
        picked(cells, sel, n - 1, want)
    }
}

/// The digits that the cells at the positions of `sel` below `n` may hold between them.
pub open spec fn domains_union(board: Seq<Cell>, cells: Seq<usize>, sel: u64, n: int) -> u64
    decreases n,
{
    if n <= 0 {
        0
    } else if has_bit(sel, n - 1) {
        domains_union(board, cells, sel, n - 1) | board[cells[n - 1] as int].bits()
    } else {
        domains_union(board, cells, sel, n - 1)
    }
}

/// A digit is in `domains_union` exactly if a cell at a chosen position may hold it.
pub proof fn lemma_domains_union_bits(board: Seq<Cell>, cells: Seq<usize>, sel: u64, n: int)
    ensures
        forall|d: int|
            has_bit(domains_union(board, cells, sel, n), d) <==> exists|k: int|
                0 <= k < n && has_bit(sel, k) && #[trigger] board[cells[k] as int].has(d),
    decreases n,
{
    lemma_bit_algebra(0, 0);
    if n > 0 {
        lemma_domains_union_bits(board, cells, sel, n - 1);
        let prev = domains_union(board, cells, sel, n - 1);
        let last = board[cells[n - 1] as int];
        lemma_bit_algebra(prev, last.bits());
        assert forall|d: int|
            has_bit(domains_union(board, cells, sel, n), d) <==> exists|k: int|
                0 <= k < n && has_bit(sel, k) && #[trigger] board[cells[k] as int].has(d) by {
            if has_bit(domains_union(board, cells, sel, n), d) {
                if has_bit(prev, d) {
                    let k = choose|k: int|
                        0 <= k < n - 1 && has_bit(sel, k) && #[trigger] board[cells[k] as int].has(
                            d,
                        );
                    assert(0 <= k < n && has_bit(sel, k) && board[cells[k] as int].has(d));
                } else {
                    assert(has_bit(sel, n - 1) && board[cells[n - 1] as int].has(d));
                }
            }
            if exists|k: int|
                0 <= k < n && has_bit(sel, k) && #[trigger] board[cells[k] as int].has(d) {
                let k = choose|k: int|
                    0 <= k < n && has_bit(sel, k) && #[trigger] board[cells[k] as int].has(d);
                if k < n - 1 {
                    assert(has_bit(prev, d));
                }
            }
        }
    }
}

/// `x` is the cell at one of the first `n` positions, one asked for.
pub open spec fn at_position(cells: Seq<usize>, sel: u64, n: int, want: bool, x: usize) -> bool {
    exists|k: int| 0 <= k < n && has_bit(sel, k) == want && #[trigger] cells[k] == x
}

/// What `picked` holds: the cells at the positions asked for, in their order.
pub proof fn lemma_picked(cells: Seq<usize>, sel: u64, n: int, want: bool)
    requires
        0 <= n <= cells.len(),
        cells_wf(cells),
    ensures
        cells_wf(picked(cells, sel, n, want)),
        picked(cells, sel, n, want).len() <= n,
        forall|j: int|
            0 <= j < picked(cells, sel, n, want).len() ==> at_position(
                cells,
                sel,
                n,
                want,
                #[trigger] picked(cells, sel, n, want)[j],
            ),
        forall|k: int|
            0 <= k < n && has_bit(sel, k) == want ==> picked(cells, sel, n, want).contains(
                #[trigger] cells[k],
            ),
    decreases n,
{
    if n > 0 {
        lemma_picked(cells, sel, n - 1, want);
        let prev = picked(cells, sel, n - 1, want);
        let cur = picked(cells, sel, n, want);
        assert forall|j: int| 0 <= j < prev.len() implies at_position(
            cells,
            sel,
            n,
            want,
            #[trigger] prev[j],
        ) by {
            assert(at_position(cells, sel, n - 1, want, prev[j]));
            let k = choose|k: int|
                0 <= k < n - 1 && has_bit(sel, k) == want && #[trigger] cells[k] == prev[j];
            assert(0 <= k < n && has_bit(sel, k) == want && cells[k] == prev[j]);
        }
        if has_bit(sel, n - 1) == want {
            assert forall|j: int| 0 <= j < cur.len() implies at_position(
                cells,
                sel,
                n,
                want,
                #[trigger] cur[j],
            ) by {
                if j < prev.len() {
                    assert(cur[j] == prev[j]);
                } else {
                    assert(has_bit(sel, n - 1) == want && cells[n - 1] == cur[j]);
                }
            }
            assert forall|i: int, j: int| 0 <= i < j < cur.len() implies cur[i] < cur[j] by {
                if j == prev.len() {
                    assert(at_position(cells, sel, n - 1, want, prev[i]));
                    let k = choose|k: int|
                        0 <= k < n - 1 && has_bit(sel, k) == want && #[trigger] cells[k]
                            == prev[i];
                    assert(cells[k] < cells[n - 1]);
                } else {
                    assert(prev[i] < prev[j]);
                }
            }
            assert forall|j: int| 0 <= j < cur.len() implies #[trigger] cur[j] < 81 by {
                if j < prev.len() {
                    assert(prev[j] < 81);
                }
            }
            assert forall|k: int| 0 <= k < n && has_bit(sel, k) == want implies cur.contains(
                #[trigger] cells[k],
            ) by {
                if k < n - 1 {
                    assert(prev.contains(cells[k]));
                    let j = choose|j: int| 0 <= j < prev.len() && prev[j] == cells[k];
                    assert(cur[j] == cells[k]);
                } else {
                    assert(cur[prev.len() as int] == cells[k]);
                }
            }
        }
    }
}

/// As many cells are picked as there are positions asked for.
pub proof fn lemma_picked_len(cells: Seq<usize>, sel: u64, n: int)
    requires
        0 <= n <= 64,
    ensures
        picked(cells, sel, n, true).len() == count_bits(sel, n),
        picked(cells, sel, n, false).len() == n - count_bits(sel, n),
    decreases n,
{
    if n > 0 {
        lemma_picked_len(cells, sel, n - 1);
    }
}

/// The sum over a list of cells looks only at the cells counted.
pub proof fn lemma_cells_sum_prefix(g: Seq<int>, s: Seq<usize>, t: Seq<usize>, n: int)
    requires
        0 <= n <= s.len(),
        n <= t.len(),
        forall|k: int| 0 <= k < n ==> s[k] == t[k],
    ensures
        cells_sum(g, s, n) == cells_sum(g, t, n),
    decreases n,
{
    if n > 0 {
        lemma_cells_sum_prefix(g, s, t, n - 1);
    }
}

/// The sum over the cells is the sum over those picked and the sum over the others.
pub proof fn lemma_split_sum(g: Seq<int>, cells: Seq<usize>, sel: u64, n: int)
    requires
        0 <= n <= cells.len(),
    ensures
        cells_sum(g, cells, n) == cells_sum(
            g,
            picked(cells, sel, n, true),
            picked(cells, sel, n, true).len() as int,
        ) + cells_sum(
            g,
            picked(cells, sel, n, false),
            picked(cells, sel, n, false).len() as int,
        ),
    decreases n,
{
    if n > 0 {
        lemma_split_sum(g, cells, sel, n - 1);
        let want = has_bit(sel, n - 1);
        let prev = picked(cells, sel, n - 1, want);
        let cur = picked(cells, sel, n, want);
        lemma_cells_sum_prefix(g, cur, prev, prev.len() as int);
    }
}

/// Cells with distinct digits: those picked among them have distinct digits too.
pub proof fn lemma_picked_distinct(g: Seq<int>, cells: Seq<usize>, sel: u64, want: bool)
    requires
        cells_wf(cells),
        cells_distinct(g, cells),
    ensures
        cells_distinct(g, picked(cells, sel, cells.len() as int, want)),
{
    let n = cells.len() as int;
    let sub = picked(cells, sel, n, want);
    lemma_picked(cells, sel, n, want);
    assert forall|i: int, j: int| 0 <= i < j < sub.len() implies g[#[trigger] sub[i] as int]
        != g[#[trigger] sub[j] as int] by {
        assert(at_position(cells, sel, n, want, sub[i]));
        assert(at_position(cells, sel, n, want, sub[j]));
        let p = choose|k: int|
            0 <= k < n && has_bit(sel, k) == want && #[trigger] cells[k] == sub[i];
        let q = choose|k: int|
            0 <= k < n && has_bit(sel, k) == want && #[trigger] cells[k] == sub[j];
        assert(sub[i] < sub[j]);
        if p < q {
            assert(g[cells[p] as int] != g[cells[q] as int]);
        } else if q < p {
            assert(g[cells[q] as int] != g[cells[p] as int]);
        }
    }
}

/// The cells at the positions of `sel` can hold, between them, just the
/// digits of `values`, which are as many as the cells.
pub open spec fn hidden_set(cage: CageView, board: Seq<Cell>, sel: u64, values: u64) -> bool {
    &&& cage.wf()
    &&& cage.uniqueness
    &&& cage.cells.len() <= 64
    &&& popcount(values) == count_bits(sel, cage.cells.len() as int)
    &&& forall|k: int, d: int|
        0 <= k < cage.cells.len() && has_bit(sel, k) && (#[trigger] board[cage.cells[k] as int].has(
            d,
        )) ==> has_bit(values, d)
}

/// A grid that meets a cage with a hidden set gives the digits of the set to
/// the cells of the set, each once, and other digits to the other cells.
pub proof fn lemma_hidden_set_keeps(
    cage: CageView,
    board: Seq<Cell>,
    sel: u64,
    values: u64,
    g: Seq<int>,
)
    requires
        hidden_set(cage, board, sel, values),
        is_grid(g),
        within(board, g),
        cage.satisfied_by(g),
    ensures
        forall|k: int|
            0 <= k < cage.cells.len() ==> has_bit(values, g[#[trigger] cage.cells[k] as int])
                == has_bit(sel, k),
        cells_sum(
            g,
            picked(cage.cells, sel, cage.cells.len() as int, true),
            picked(cage.cells, sel, cage.cells.len() as int, true).len() as int,
        ) == digit_sum(values),
        cells_sum(
            g,
            picked(cage.cells, sel, cage.cells.len() as int, false),
            picked(cage.cells, sel, cage.cells.len() as int, false).len() as int,
        ) == cage.sum - digit_sum(values),
{
    let cells = cage.cells;
    let n = cells.len() as int;
    let c1 = picked(cells, sel, n, true);
    lemma_picked(cells, sel, n, true);
    lemma_picked_len(cells, sel, n);
    lemma_picked_distinct(g, cells, sel, true);
    lemma_split_sum(g, cells, sel, n);
    let m = digits_mask(g, c1, c1.len() as int);
    lemma_digits_mask(g, c1, c1.len() as int);
    assert forall|d: int| 0 <= d < 64 && has_bit(m, d) implies has_bit(values, d) by {
        let j = choose|j: int| 0 <= j < c1.len() && g[#[trigger] c1[j] as int] == d;
        assert(at_position(cells, sel, n, true, c1[j]));
        let k = choose|k: int| 0 <= k < n && has_bit(sel, k) == true && #[trigger] cells[k]
            == c1[j];
        assert(cells[k] < 81);
        assert(board[cells[k] as int].has(g[cells[k] as int]));
    }
    lemma_count_subset(m, values, 64);
    lemma_bits_equal(m, values);
    assert forall|k: int| 0 <= k < n implies has_bit(values, g[#[trigger] cells[k] as int])
        == has_bit(sel, k) by {
        assert(cells[k] < 81);
        assert(board[cells[k] as int].has(g[cells[k] as int]));
        if has_bit(sel, k) {
        } else if has_bit(values, g[cells[k] as int]) {
            let d = g[cells[k] as int];
            let j = choose|j: int| 0 <= j < c1.len() && g[#[trigger] c1[j] as int] == d;
            assert(at_position(cells, sel, n, true, c1[j]));
            let p = choose|p: int|
                0 <= p < n && has_bit(sel, p) == true && #[trigger] cells[p] == c1[j];
            if p < k {
                assert(g[cells[p] as int] != g[cells[k] as int]);
            } else {
                assert(g[cells[k] as int] != g[cells[p] as int]);
            }
        }
    }
}

/// Where the cells of a set hold only digits of `values` and the other cells
/// hold none of them, a grid that meets the two parts of the cage meets the cage.
pub proof fn lemma_hidden_set_sound(
    cage: CageView,
    first: CageView,
    second: CageView,
    board: Seq<Cell>,
    sel: u64,
    values: u64,
    g: Seq<int>,
)
    requires
        cage.wf(),
        first.cells == picked(cage.cells, sel, cage.cells.len() as int, true),
        second.cells == picked(cage.cells, sel, cage.cells.len() as int, false),
        first.uniqueness,
        second.uniqueness,
        first.sum + second.sum == cage.sum,
        forall|k: int, d: int|
            0 <= k < cage.cells.len() && (#[trigger] board[cage.cells[k] as int].has(d))
                ==> has_bit(values, d) == has_bit(sel, k),
        is_grid(g),
        within(board, g),
        first.satisfied_by(g),
        second.satisfied_by(g),
    ensures
        cage.satisfied_by(g),
{
    let cells = cage.cells;
    let n = cells.len() as int;
    lemma_split_sum(g, cells, sel, n);
    lemma_picked(cells, sel, n, true);
    lemma_picked(cells, sel, n, false);
    assert forall|p: int, q: int| 0 <= p < q < n implies g[#[trigger] cells[p] as int]
        != g[#[trigger] cells[q] as int] by {
        assert(cells[p] < cells[q]);
        assert(cells[p] < 81 && cells[q] < 81);
        assert(board[cells[p] as int].has(g[cells[p] as int]));
        assert(board[cells[q] as int].has(g[cells[q] as int]));
        if has_bit(sel, p) == has_bit(sel, q) {
            let part = if has_bit(sel, p) { first.cells } else { second.cells };
            assert(part.contains(cells[p]));
            assert(part.contains(cells[q]));
            let i = choose|i: int| 0 <= i < part.len() && part[i] == cells[p];
            let j = choose|j: int| 0 <= j < part.len() && part[j] == cells[q];
            if i < j {
                assert(g[part[i] as int] != g[part[j] as int]);
            } else {
                assert(g[part[j] as int] != g[part[i] as int]);
            }
        }
    }
}

/// The cage falls into the parts `first`, the cells at the positions of
/// `sel`, and `second`, the others: the cells of `first` hold between them
/// just the digits of `values`, as many as they are, and no cell of `second`
/// holds one of them.
pub open spec fn splits_by(
    cage: CageView,
    first: CageView,
    second: CageView,
    board: Seq<Cell>,
    sel: u64,
    values: u64,
) -> bool {
    &&& hidden_set(cage, board, sel, values)
    &&& first.cells == picked(cage.cells, sel, cage.cells.len() as int, true)
    &&& second.cells == picked(cage.cells, sel, cage.cells.len() as int, false)
    &&& first.cells.len() >= 1
    &&& second.cells.len() >= 1
    &&& first.uniqueness
    &&& second.uniqueness
    &&& first.sum == digit_sum(values)
    &&& first.sum + second.sum == cage.sum
    &&& forall|k: int, d: int|
        0 <= k < cage.cells.len() && !has_bit(sel, k) && (
            #[trigger] board[cage.cells[k] as int].has(
            d,
        )) ==> !has_bit(values, d)
}

/// The cage falls into the parts `first` and `second` on this board.
pub open spec fn splits(cage: CageView, first: CageView, second: CageView,
    board: Seq<Cell>) -> bool {
    exists|sel: u64, values: u64| splits_by(cage, first, second, board, sel, values)
}

/// On the board on which a cage falls into two parts, a grid meets the cage
/// exactly if it meets both parts.
pub proof fn lemma_split_equivalent(
    cage: CageView,
    first: CageView,
    second: CageView,
    board: Seq<Cell>,
    g: Seq<int>,
)
    requires
        splits(cage, first, second, board),
        is_grid(g),
        within(board, g),
    ensures
        cage.satisfied_by(g) <==> first.satisfied_by(g) && second.satisfied_by(g),
{
    let (sel, values) = choose|sel: u64, values: u64|
        splits_by(cage, first, second, board, sel, values);
    if cage.satisfied_by(g) {
        lemma_hidden_set_keeps(cage, board, sel, values, g);
        lemma_picked_distinct(g, cage.cells, sel, true);
        lemma_picked_distinct(g, cage.cells, sel, false);
    }
    if first.satisfied_by(g) && second.satisfied_by(g) {
        lemma_hidden_set_sound(cage, first, second, board, sel, values, g);
    }
}

/// A cage of one cell is settled on the board: the cell holds the cage's sum
/// and nothing else. A cage without cells has the sum zero.
pub open spec fn tight(cage: CageView, board: Seq<Cell>) -> bool {
    &&& cage.cells.len() == 1 ==> forall|d: int|
        (#[trigger] board[cage.cells[0] as int].has(d)) ==> d == cage.sum
    &&& cage.cells.len() == 0 ==> cage.sum == 0
}

/// The cells of the cage all have more than one digit left, if the cage asks
/// for distinct digits and has two cells or more.
pub open spec fn unsettled(cells: Seq<Cell>, cage: CageView) -> bool {
    cage.uniqueness && cage.cells.len() >= 2 ==> forall|k: int|
        0 <= k < cage.cells.len() ==> popcount((#[trigger] cells[cage.cells[k] as int]).bits()) != 1
}

/// What the search for a hidden set works on: for each position of the cage
/// one entry, which holds the position and the mask of the cell there.
pub open spec fn entries_ok(data: Seq<(usize, u64)>, board: Seq<Cell>, cells: Seq<usize>) -> bool {
    &&& data.len() == cells.len()
    &&& cells.len() <= 9
    &&& forall|i: int|
        0 <= i < data.len() ==> (#[trigger] data[i]).0 < cells.len() && data[i].1
            == board[cells[data[i].0 as int] as int].bits()
    &&& forall|i: int, j: int|
        0 <= i < j < data.len() ==> (#[trigger] data[i]).0 != (#[trigger] data[j]).0
}

/// Some entry among the first `m` holds the position `k`.
pub open spec fn has_entry(data: Seq<(usize, u64)>, m: int, k: int) -> bool {
    exists|i: int| 0 <= i < m && (#[trigger] data[i]).0 == k
}

/// Every bit of `sel` is below `n`.
pub open spec fn bits_below(sel: u64, n: int) -> bool {
    forall|i: int| has_bit(sel, i) ==> i < n
}

/// Choosing one more position adds the digits of the cell there.
pub proof fn lemma_union_add(board: Seq<Cell>, cells: Seq<usize>, sel: u64, k: int, n: int)
    requires
        0 <= k < n <= 64,
    ensures
        domains_union(board, cells, sel | (1u64 << (k as u64)), n) == domains_union(
            board,
            cells,
            sel,
            n,
        ) | board[cells[k] as int].bits(),
{
    let bit = 1u64 << (k as u64);
    let lhs = domains_union(board, cells, sel | bit, n);
    let rhs = domains_union(board, cells, sel, n) | board[cells[k] as int].bits();
    lemma_domains_union_bits(board, cells, sel | bit, n);
    lemma_domains_union_bits(board, cells, sel, n);
    lemma_bit_algebra(sel, bit);
    lemma_bit_algebra(domains_union(board, cells, sel, n), board[cells[k] as int].bits());
    lemma_bit_shift(0, k);
    assert forall|d: int| 0 <= d < 64 implies has_bit(lhs, d) == has_bit(rhs, d) by {
        if has_bit(lhs, d) {
            let p = choose|p: int|
                0 <= p < n && has_bit(sel | bit, p) && #[trigger] board[cells[p] as int].has(d);
            if p != k {
                assert(has_bit(sel, p));
            }
        }
        if has_bit(rhs, d) {
            if has_bit(domains_union(board, cells, sel, n), d) {
                let p = choose|p: int|
                    0 <= p < n && has_bit(sel, p) && #[trigger] board[cells[p] as int].has(d);
                assert(has_bit(sel | bit, p));
            } else {
                assert(has_bit(sel | bit, k) && board[cells[k] as int].has(d));
            }
        }
    }
    lemma_bits_equal(lhs, rhs);
}

/// The sum of the digits of a mask.
pub fn digit_total(values: u64) -> (r: usize)
    ensures
        r == digit_sum(values),
{
    let mut total: usize = 0;
    let mut d: usize = 0;
    while d < 64
        invariant
            0 <= d <= 64,
            total == weight_bits(values, d as int),
            total <= 64 * d,
        decreases 64 - d,
    {
        if (values >> d) & 1 == 1 {
            total += d;
        }
        d += 1;
    }
    total
}

/// The digits that the entries at the places of `pick` below `m` hold between them.
pub open spec fn pick_union(data: Seq<(usize, u64)>, pick: u64, m: int) -> u64
    decreases m,
{
    if m <= 0 {
        0
    } else if has_bit(pick, m - 1) {
        pick_union(data, pick, m - 1) | data[m - 1].1
    } else {
        pick_union(data, pick, m - 1)
    }
}

/// `pick` names `count` places, all from `from` up to, not including, `len`.
pub open spec fn candidate(pick: u64, from: int, len: int, count: int) -> bool {
    (forall|i: int| has_bit(pick, i) ==> from <= i < len) && count_bits(pick, len) == count
}

/// A digit is in `pick_union` exactly if an entry at a picked place holds it.
pub proof fn lemma_pick_union_bits(data: Seq<(usize, u64)>, pick: u64, m: int)
    ensures
        forall|d: int|
            has_bit(pick_union(data, pick, m), d) <==> exists|i: int|
                0 <= i < m && has_bit(pick, i) && has_bit((#[trigger] data[i]).1, d),
    decreases m,
{
    lemma_bit_algebra(0, 0);
    if m > 0 {
        lemma_pick_union_bits(data, pick, m - 1);
        let prev = pick_union(data, pick, m - 1);
        lemma_bit_algebra(prev, data[m - 1].1);
        assert forall|d: int|
            has_bit(pick_union(data, pick, m), d) <==> exists|i: int|
                0 <= i < m && has_bit(pick, i) && has_bit((#[trigger] data[i]).1, d) by {
            if has_bit(pick_union(data, pick, m), d) {
                if has_bit(prev, d) {
                    let i = choose|i: int|
                        0 <= i < m - 1 && has_bit(pick, i) && has_bit((#[trigger] data[i]).1, d);
                    assert(0 <= i < m && has_bit(pick, i) && has_bit(data[i].1, d));
                } else {
                    assert(has_bit(pick, m - 1) && has_bit(data[m - 1].1, d));
                }
            }
            if exists|i: int|
                0 <= i < m && has_bit(pick, i) && has_bit((#[trigger] data[i]).1, d) {
                let i = choose|i: int|
                    0 <= i < m && has_bit(pick, i) && has_bit((#[trigger] data[i]).1, d);
                if i < m - 1 {
                    assert(has_bit(prev, d));
                }
            }
        }
    }
}

/// A pick whose least place is `i`: the rest of it is a pick of one place
/// fewer from `i + 1` on, and the digits of the pick are those of the entry
/// at `i` and of the rest.
proof fn lemma_pick_split(data: Seq<(usize, u64)>, pick: u64, i: int, len: int, count: int)
    requires
        0 <= i < len <= 64,
        candidate(pick, i, len, count),
        has_bit(pick, i),
    ensures
        candidate(pick & !(1u64 << (i as u64)), i + 1, len, count - 1),
        pick_union(data, pick, len) == data[i].1 | pick_union(
            data,
            pick & !(1u64 << (i as u64)),
            len,
        ),
{
    let bit = 1u64 << (i as u64);
    let rest = pick & !bit;
    lemma_bit_algebra(pick, !bit);
    lemma_bit_algebra(bit, 0);
    lemma_bit_shift(0, i);
    assert forall|j: int| has_bit(rest, j) == (has_bit(pick, j) && j != i) by {}
    lemma_bit_algebra(rest, bit);
    lemma_bits_equal(pick, rest | bit);
    lemma_add_bit(rest, i, len);
    lemma_pick_union_bits(data, pick, len);
    lemma_pick_union_bits(data, rest, len);
    let whole = pick_union(data, pick, len);
    let parts = data[i].1 | pick_union(data, rest, len);
    lemma_bit_algebra(data[i].1, pick_union(data, rest, len));
    assert forall|d: int| 0 <= d < 64 implies has_bit(whole, d) == has_bit(parts, d) by {
        if has_bit(whole, d) {
            let j = choose|j: int|
                0 <= j < len && has_bit(pick, j) && has_bit((#[trigger] data[j]).1, d);
            if j != i {
                assert(has_bit(rest, j));
            }
        }
        if has_bit(pick_union(data, rest, len), d) {
            let j = choose|j: int|
                0 <= j < len && has_bit(rest, j) && has_bit((#[trigger] data[j]).1, d);
            assert(has_bit(pick, j));
        }
        if has_bit(data[i].1, d) {
            assert(has_bit(pick, i) && has_bit(data[i].1, d));
        }
    }
    lemma_bits_equal(whole, parts);
}

/// More digits are held by more cells: a mask with all bits of another
/// counts at least as many.
proof fn lemma_union_grows(values: u64, one: u64, more: u64)
    requires
        forall|d: int| has_bit(one, d) ==> has_bit(more, d),
    ensures
        popcount(values | one) <= popcount(values | more),
{
    lemma_bit_algebra(values, one);
    lemma_bit_algebra(values, more);
    lemma_count_subset(values | one, values | more, 64);
}

/// The places of the entries, among the first `m`, whose cells are at the positions of `sel`.
pub open spec fn preimage(data: Seq<(usize, u64)>, sel: u64, m: int) -> u64
    decreases m,
{
    if m <= 0 {
        0
    } else if has_bit(sel, data[m - 1].0 as int) {
        preimage(data, sel, m - 1) | (1u64 << ((m - 1) as u64))
    } else {
        preimage(data, sel, m - 1)
    }
}

/// The positions of the cells of the first `m` entries.
pub open spec fn keymask(data: Seq<(usize, u64)>, m: int) -> u64
    decreases m,
{
    if m <= 0 {
        0
    } else {
        keymask(data, m - 1) | (1u64 << (data[m - 1].0 as u64))
    }
}

proof fn lemma_preimage_bits(data: Seq<(usize, u64)>, sel: u64, m: int)
    requires
        0 <= m <= 64,
    ensures
        forall|i: int|
            has_bit(preimage(data, sel, m), i) <==> 0 <= i < m && has_bit(sel, data[i].0 as int),
    decreases m,
{
    lemma_bit_algebra(0, 0);
    if m > 0 {
        lemma_preimage_bits(data, sel, m - 1);
        lemma_bit_algebra(preimage(data, sel, m - 1), 1u64 << ((m - 1) as u64));
        lemma_bit_shift(0, m - 1);
    }
}

proof fn lemma_keymask_bits(data: Seq<(usize, u64)>, m: int)
    requires
        0 <= m <= data.len(),
        forall|i: int| 0 <= i < data.len() ==> (#[trigger] data[i]).0 < 64,
    ensures
        forall|k: int| has_bit(keymask(data, m), k) <==> has_entry(data, m, k),
    decreases m,
{
    lemma_bit_algebra(0, 0);
    if m > 0 {
        lemma_keymask_bits(data, m - 1);
        let key = data[m - 1].0 as int;
        lemma_bit_algebra(keymask(data, m - 1), 1u64 << (key as u64));
        lemma_bit_shift(0, key);
        assert forall|k: int| has_bit(keymask(data, m), k) <==> has_entry(data, m, k) by {
            if has_entry(data, m - 1, k) {
                let i = choose|i: int| 0 <= i < m - 1 && (#[trigger] data[i]).0 == k;
                assert(0 <= i < m && data[i].0 == k);
            }
            if has_entry(data, m, k) {
                let i = choose|i: int| 0 <= i < m && (#[trigger] data[i]).0 == k;
                if i < m - 1 {
                    assert(has_entry(data, m - 1, k));
                }
            }
            if k == key {
                assert(0 <= m - 1 < m && data[m - 1].0 == k);
            }
        }
    }
}

/// As many entries are picked as there are positions chosen.
proof fn lemma_preimage_count(data: Seq<(usize, u64)>, sel: u64, m: int, n: int)
    requires
        0 <= m <= data.len(),
        data.len() == n,
        n <= 64,
        forall|i: int| 0 <= i < data.len() ==> (#[trigger] data[i]).0 < n,
        forall|i: int, j: int|
            0 <= i < j < data.len() ==> (#[trigger] data[i]).0 != (#[trigger] data[j]).0,
    ensures
        count_bits(preimage(data, sel, m), n) == count_bits(sel & keymask(data, m), n),
    decreases m,
{
    lemma_bit_algebra(sel, 0);
    lemma_bit_algebra(0, 0);
    if m <= 0 {
        lemma_bits_equal(sel & 0, 0);
    } else {
        lemma_preimage_count(data, sel, m - 1, n);
        lemma_preimage_bits(data, sel, m - 1);
        lemma_keymask_bits(data, m - 1);
        let key = data[m - 1].0 as int;
        let bit = 1u64 << (key as u64);
        assert((key as u64) == (data[m - 1].0 as u64));
        let old_keys = keymask(data, m - 1);
        let new_keys = old_keys | bit;
        assert(new_keys == keymask(data, m));
        let before = sel & old_keys;
        let after = sel & new_keys;
        lemma_bit_algebra(old_keys, bit);
        lemma_bit_shift(0, key);
        lemma_bit_algebra(sel, old_keys);
        lemma_bit_algebra(sel, new_keys);
        assert(!has_bit(old_keys, key)) by {
            if has_entry(data, m - 1, key) {
                let i = choose|i: int| 0 <= i < m - 1 && (#[trigger] data[i]).0 == key;
                assert(data[i].0 != data[m - 1].0);
            }
        }
        if has_bit(sel, key) {
            lemma_add_bit(preimage(data, sel, m - 1), m - 1, n);
            lemma_add_bit(before, key, n);
            lemma_bit_algebra(before, bit);
            assert forall|k: int| 0 <= k < 64 implies has_bit(after, k) == has_bit(
                before | bit,
                k,
            ) by {}
            lemma_bits_equal(after, before | bit);
        } else {
            assert forall|k: int| 0 <= k < 64 implies has_bit(after, k) == has_bit(before, k) by {}
            lemma_bits_equal(after, before);
        }
    }
}

/// Some `size` cells of the cage hold no more than `size` digits between
/// them: `sel` names their positions.
pub open spec fn hides(board: Seq<Cell>, cells: Seq<usize>, sel: u64, size: int) -> bool {
    &&& bits_below(sel, cells.len() as int)
    &&& count_bits(sel, cells.len() as int) == size
    &&& popcount(domains_union(board, cells, sel, cells.len() as int)) <= size
}

/// No `size` cells of the cage hold as few as `size` digits between them.
pub open spec fn no_hidden_set(board: Seq<Cell>, cells: Seq<usize>, size: int) -> bool {
    forall|sel: u64| !#[trigger] hides(board, cells, sel, size)
}

/// In a cage of distinct digits, no cells fewer than all hold as few digits
/// between them as they are.
pub open spec fn calm(board: Seq<Cell>, cage: CageView) -> bool {
    cage.uniqueness ==> forall|size: int|
        1 <= size < cage.cells.len() ==> #[trigger] no_hidden_set(board, cage.cells, size)
}

/// Where no pick of `size` entries holds as few as `size` digits, no `size`
/// cells of the cage do.
proof fn lemma_no_hidden_set(
    data: Seq<(usize, u64)>,
    board: Seq<Cell>,
    cells: Seq<usize>,
    size: int,
)
    requires
        entries_ok(data, board, cells),
        forall|k: int| 0 <= k < cells.len() ==> has_entry(data, data.len() as int, k),
        forall|pick: u64| #[trigger]
            candidate(pick, 0, data.len() as int, size) ==> popcount(
                0u64 | pick_union(data, pick, data.len() as int),
            ) > size,
    ensures
        no_hidden_set(board, cells, size),
{
    let n = cells.len() as int;
    assert forall|sel: u64| !#[trigger] hides(board, cells, sel, size) by {
        if hides(board, cells, sel, size) {
            let pick = preimage(data, sel, n);
            lemma_preimage_bits(data, sel, n);
            lemma_preimage_count(data, sel, n, n);
            lemma_keymask_bits(data, n);
            lemma_bit_algebra(sel, keymask(data, n));
            assert forall|k: int| 0 <= k < 64 implies has_bit(sel & keymask(data, n), k)
                == has_bit(sel, k) by {
                if has_bit(sel, k) {
                    assert(has_entry(data, n, k));
                }
            }
            lemma_bits_equal(sel & keymask(data, n), sel);
            assert(candidate(pick, 0, n, size));
            lemma_pick_union_bits(data, pick, n);
            lemma_domains_union_bits(board, cells, sel, n);
            let left = pick_union(data, pick, n);
            let right = domains_union(board, cells, sel, n);
            assert forall|d: int| 0 <= d < 64 implies has_bit(left, d) == has_bit(right, d) by {
                if has_bit(left, d) {
                    let i = choose|i: int|
                        0 <= i < n && has_bit(pick, i) && has_bit((#[trigger] data[i]).1, d);
                    let k = data[i].0 as int;
                    assert(has_bit(sel, k) && board[cells[k] as int].has(d));
                }
                if has_bit(right, d) {
                    let k = choose|k: int|
                        0 <= k < n && has_bit(sel, k) && #[trigger] board[cells[k] as int].has(d);
                    assert(has_entry(data, n, k));
                    let i = choose|i: int| 0 <= i < n && (#[trigger] data[i]).0 == k;
                    assert(has_bit(pick, i) && has_bit(data[i].1, d));
                }
            }
            lemma_bits_equal(left, right);
            crate::util::lemma_or_rearrange(left, 0, 0);
        }
    }
}

/// Where no single cell of a cage is a hidden set, every cell of the cage
/// has more than one digit left.
proof fn lemma_unsettled(board: Seq<Cell>, cage: CageView)
    requires
        cage.cells.len() <= 64,
        board_wf(board),
        cage.wf(),
        cage.cells.len() >= 2 ==> no_hidden_set(board, cage.cells, 1),
    ensures
        unsettled(board, cage),
{
    let cells = cage.cells;
    let n = cells.len() as int;
    if cage.uniqueness && n >= 2 {
        assert forall|k: int| 0 <= k < n implies popcount(
            (#[trigger] board[cells[k] as int]).bits(),
        ) != 1 by {
            let sel = 1u64 << (k as u64);
            lemma_bit_shift(0, k);
            crate::util::lemma_count_single(sel, k, n);
            lemma_domains_union_bits(board, cells, sel, n);
            let all = domains_union(board, cells, sel, n);
            assert forall|d: int| 0 <= d < 64 implies has_bit(all, d) == has_bit(
                board[cells[k] as int].bits(),
                d,
            ) by {
                if has_bit(all, d) {
                    let j = choose|j: int|
                        0 <= j < n && has_bit(sel, j) && #[trigger] board[cells[j] as int].has(d);
                }
                if board[cells[k] as int].has(d) {
                    assert(has_bit(sel, k) && board[cells[k] as int].has(d));
                }
            }
            lemma_bits_equal(all, board[cells[k] as int].bits());
            assert(!hides(board, cells, sel, 1));
            assert(cells[k] < 81);
            crate::util::lemma_count_zero(board[cells[k] as int].bits(), 64);
        }
    }
}

/// The first way, in the order of the entries, to choose `count` more
/// entries from `index` on such that, with the digits `values` of those
/// chosen already, no more than `limit` digits are held: the positions `sel`
/// with those of the entries chosen, and the digits held. An entry is taken
/// before it is left out.
pub open spec fn first_subset(
    data: Seq<(usize, u64)>,
    index: int,
    count: int,
    limit: int,
    sel: u64,
    values: u64,
) -> Option<(u64, u64)>
    decreases count, data.len() - index,
{
    if count <= 0 {
        Some((sel, values))
    } else if index < 0 || index >= data.len() {
        None
    } else {
        let merged = values | data[index].1;
        let taken = if popcount(merged) <= limit {
            first_subset(
                data,
                index + 1,
                count - 1,
                limit,
                sel | (1u64 << (data[index].0 as u64)),
                merged,
            )
        } else {
            None
        };
        if taken is Some {
            taken
        } else {
            first_subset(data, index + 1, count, limit, sel, values)
        }
    }
}

/// Looks among the entries from `index` on for `choose` more cells that,
/// with those chosen already, hold no more than `limit` digits between them.
fn find_subset(
    data: &Vec<(usize, u64)>,
    index: usize,
    choose: usize,
    limit: usize,
    sel: u64,
    values: u64,
    Ghost(board): Ghost<Seq<Cell>>,
    Ghost(cells): Ghost<Seq<usize>>,
) -> (r: Option<(u64, u64)>)
    requires
        entries_ok(data@, board, cells),
        index <= data.len(),
        bits_below(sel, cells.len() as int),
        forall|i: int| index <= i < data.len() ==> !has_bit(sel, (#[trigger] data[i]).0 as int),
        values == domains_union(board, cells, sel, cells.len() as int),
        popcount(values) <= limit,
    ensures
        r == first_subset(data@, index as int, choose as int, limit as int, sel, values),
        choose == 0 ==> r is Some,
        r matches Some((s, v)) ==> bits_below(s, cells.len() as int) && v == domains_union(
            board,
            cells,
            s,
            cells.len() as int,
        ) && popcount(v) <= limit && count_bits(s, cells.len() as int) == count_bits(
            sel,
            cells.len() as int,
        ) + choose,
        r is None ==> forall|pick: u64| #[trigger]
            candidate(pick, index as int, data@.len() as int, choose as int) ==> popcount(
                values | pick_union(data@, pick, data@.len() as int),
            ) > limit,
    decreases choose,
{
    if choose == 0 {
        return Some((sel, values));
    }
    let ghost n = cells.len() as int;
    let ghost len = data@.len() as int;
    let mut i: usize = index;
    while i < data.len()
        invariant
            index <= i <= data.len(),
            choose >= 1,
            n == cells.len(),
            len == data@.len(),
            entries_ok(data@, board, cells),
            bits_below(sel, n),
            forall|j: int| index <= j < data.len() ==> !has_bit(sel, (#[trigger] data[j]).0 as int),
            values == domains_union(board, cells, sel, n),
            popcount(values) <= limit,
            first_subset(data@, index as int, choose as int, limit as int, sel, values)
                == first_subset(data@, i as int, choose as int, limit as int, sel, values),
            forall|pick: u64| #[trigger]
                candidate(pick, index as int, len, choose as int) && (exists|j: int|
                    index <= j < i && has_bit(pick, j)) ==> popcount(
                    values | pick_union(data@, pick, len),
                ) > limit,
        decreases data.len() - i,
    {
        let entry = data[i];
        let key: usize = entry.0;
        let mask: u64 = entry.1;
        let merged: u64 = values | mask;
        if popcnt64(merged) <= limit {
            let chosen: u64 = sel | (1u64 << key);
            proof {
                lemma_union_add(board, cells, sel, key as int, n);
                lemma_add_bit(sel, key as int, n);
                lemma_bit_algebra(sel, 1u64 << key);
                lemma_bit_shift(0, key as int);
                assert forall|j: int| i + 1 <= j < data.len() implies !has_bit(
                    chosen,
                    (#[trigger] data[j]).0 as int,
                ) by {
                    assert(data[i as int].0 != data[j].0);
                }
            }
            match find_subset(
                data,
                i + 1,
                choose - 1,
                limit,
                chosen,
                merged,
                Ghost(board),
                Ghost(cells),
            ) {
                Some(found) => {
                    return Some(found);
                },
                None => {},
            }
        }
        proof {
            assert forall|pick: u64| #[trigger]
                candidate(pick, index as int, len, choose as int) && (exists|j: int|
                    index <= j < i + 1 && has_bit(pick, j)) implies popcount(
                values | pick_union(data@, pick, len),
            ) > limit by {
                if !(exists|j: int| index <= j < i && has_bit(pick, j)) {
                    assert(has_bit(pick, i as int));
                    assert(candidate(pick, i as int, len, choose as int));
                    lemma_pick_split(data@, pick, i as int, len, choose as int);
                    let rest = pick & !(1u64 << (i as u64));
                    let tail = pick_union(data@, rest, len);
                    crate::util::lemma_or_rearrange(values, mask, tail);
                    crate::util::lemma_or_rearrange(mask, tail, 0);
                    assert(values | pick_union(data@, pick, len) == merged | tail) by {
                        lemma_bit_algebra(values, mask | tail);
                        lemma_bit_algebra(mask, tail);
                        lemma_bit_algebra(values, mask);
                        lemma_bit_algebra(merged, tail);
                        lemma_bits_equal(values | (mask | tail), merged | tail);
                    }
                    if popcount(merged) > limit {
                        lemma_bit_algebra(0, 0);
                        lemma_bit_algebra(mask, tail);
                        lemma_union_grows(values, mask, mask | tail);
                    } else {
                        assert(candidate(rest, i + 1, len, choose - 1));
                    }
                }
            }
        }
        i += 1;
    }
    proof {
        assert forall|pick: u64| #[trigger]
            candidate(pick, index as int, len, choose as int) implies popcount(
            values | pick_union(data@, pick, len),
        ) > limit by {
            crate::util::lemma_count_zero(pick, len);
            let j = choose|j: int| 0 <= j < len && has_bit(pick, j);
            assert(index <= j < len && has_bit(pick, j));
        }
    }
    None
}

/// Nine cells hold no more than nine digits between them: among ten cells
/// or more, the first nine are a hidden set.
proof fn lemma_crowded(board: Seq<Cell>, cells: Seq<usize>)
    requires
        board_wf(board),
        cells_wf(cells),
        cells.len() >= 10,
    ensures
        hides(board, cells, 0x1ff, 9),
{
    let n = cells.len() as int;
    let sel: u64 = 0x1ff;
    assert(forall|i: int| has_bit(sel, i) <==> 0 <= i < 9) by {
        assert forall|i: int| has_bit(sel, i) <==> 0 <= i < 9 by {
            if 0 <= i < 64 {
                lemma_first_nine(i as u64);
            }
        }
    }
    lemma_count_first_nine(n);
    let all = domains_union(board, cells, sel, n);
    lemma_domains_union_bits(board, cells, sel, n);
    crate::cell::lemma_digit_mask();
    assert forall|d: int| 0 <= d < 64 && has_bit(all, d) implies has_bit(
        crate::cell::ALL_DIGITS,
        d,
    ) by {
        let k = choose|k: int|
            0 <= k < n && has_bit(sel, k) && #[trigger] board[cells[k] as int].has(d);
        assert(cells[k] < 81);
        assert(board[cells[k] as int].wf());
        crate::cell::lemma_domain_digits(board[cells[k] as int].bits());
    }
    crate::util::lemma_count_subset(all, crate::cell::ALL_DIGITS, 64);
    crate::cell::lemma_all_digits();
}

proof fn lemma_first_nine(i: u64)
    by (bit_vector)
    requires
        i < 64,
    ensures
        ((0x1ffu64 >> i) & 1 == 1) == (i < 9),
{
}

/// The word of the first nine positions counts nine below any position from nine on.
proof fn lemma_count_first_nine(n: int)
    requires
        forall|i: int| has_bit(0x1ff, i) <==> 0 <= i < 9,
        0 <= n,
    ensures
        count_bits(0x1ff, n) == if n <= 9 { n } else { 9 },
    decreases n,
{
    if n > 0 {
        lemma_count_first_nine(n - 1);
    }
}

/// The cell at position `k` holds no digit that its side of the split allows.
pub open spec fn starved(board: Seq<Cell>, cells: Seq<usize>, sel: u64, values: u64,
    k: int) -> bool {
    forall|d: int| (#[trigger] board[cells[k] as int].has(d)) ==> has_bit(values, d) != has_bit(
        sel, k)
}

/// Well-formed cells are in ascending order already.
pub proof fn lemma_sorted_already(cells: Seq<usize>)
    requires
        cells_wf(cells),
    ensures
        sorted(cells) == cells,
{
    assert(vstd::relations::sorted_by(cells, index_leq())) by {
        assert forall|i: int, j: int| 0 <= i < j < cells.len() implies #[trigger] index_leq()(
            cells[i],
            cells[j],
        ) by {
            assert(cells[i] < cells[j]);
        }
    }
    lemma_sorted(cells, cells);
}

/// The only digit in a set of one digit with the sum `s` is `s`.
pub proof fn lemma_single_cell_union(s: int, d: int)
    requires
        has_bit(combinations_union(1, s), d),
    ensures
        d == s,
{
    let list = combinations(1, s);
    lemma_union_bits(list, list.len() as int);
    let j = choose|j: int| 0 <= j < list.len() && has_bit(#[trigger] list[j], d);
    lemma_combinations_from_sound(1, s, 1, j);
    let p = crate::util::lemma_single_bit_position(list[j]);
    crate::cage::lemma_single_digit_sum(list[j], p);
}

/// Cells can be at most as many as the digits they hold between them, where
/// a grid gives them distinct digits.
proof fn lemma_too_few_values(cage: CageView, board: Seq<Cell>, sel: u64, values: u64, g: Seq<int>)
    requires
        cage.wf(),
        cage.uniqueness,
        cage.cells.len() <= 64,
        forall|k: int, d: int|
            0 <= k < cage.cells.len() && has_bit(sel, k) && (
                #[trigger] board[cage.cells[k] as int].has(
                d,
            )) ==> has_bit(values, d),
        is_grid(g),
        within(board, g),
        cage.satisfied_by(g),
    ensures
        count_bits(sel, cage.cells.len() as int) <= popcount(values),
{
    let cells = cage.cells;
    let n = cells.len() as int;
    let c1 = picked(cells, sel, n, true);
    lemma_picked(cells, sel, n, true);
    lemma_picked_len(cells, sel, n);
    lemma_picked_distinct(g, cells, sel, true);
    let m = digits_mask(g, c1, c1.len() as int);
    lemma_digits_mask(g, c1, c1.len() as int);
    assert forall|d: int| 0 <= d < 64 && has_bit(m, d) implies has_bit(values, d) by {
        let j = choose|j: int| 0 <= j < c1.len() && g[#[trigger] c1[j] as int] == d;
        assert(at_position(cells, sel, n, true, c1[j]));
        let k = choose|k: int| 0 <= k < n && has_bit(sel, k) == true && #[trigger] cells[k]
            == c1[j];
        assert(cells[k] < 81);
        assert(board[cells[k] as int].has(g[cells[k] as int]));
    }
    lemma_count_subset(m, values, 64);
}

/// The digits of a grid add up to at least zero.
proof fn lemma_cells_sum_nonnegative(g: Seq<int>, cells: Seq<usize>, n: int)
    requires
        is_grid(g),
        0 <= n <= cells.len(),
        forall|k: int| 0 <= k < cells.len() ==> #[trigger] cells[k] < 81,
    ensures
        cells_sum(g, cells, n) >= 0,
    decreases n,
{
    if n > 0 {
        lemma_cells_sum_nonnegative(g, cells, n - 1);
        assert(cells[n - 1] < 81);
    }
}

proof fn lemma_frame(cells: Seq<usize>, n: int, after: Seq<Cell>, before: Seq<Cell>)
    requires
        0 <= n <= cells.len(),
        forall|j: int|
            0 <= j < 81 && !crate::cage::in_prefix(cells, n, j as usize) ==> #[trigger] after[j]
                == before[j],
    ensures
        forall|i: int|
            0 <= i < 81 && !cells.contains(i as usize) ==> #[trigger] after[i] == before[i],
{
    assert forall|i: int| 0 <= i < 81 && !cells.contains(i as usize) implies #[trigger] after[i]
        == before[i] by {
        if crate::cage::in_prefix(cells, n, i as usize) {
            let p = choose|p: int| 0 <= p < n && cells[p] == i as usize;
            assert(cells.contains(i as usize));
        }
    }
}

/// Ascending cells of the board hold no cell twice.
pub proof fn lemma_wf_distinct(cells: Seq<usize>)
    requires
        cells_wf(cells),
    ensures
        crate::cage::distinct_cells(cells),
{
    assert forall|i: int, j: int| 0 <= i < cells.len() && 0 <= j < cells.len() && i
        != j implies cells[i] != cells[j] by {
        if i < j {
            assert(cells[i] < cells[j]);
        } else {
            assert(cells[j] < cells[i]);
        }
    }
}

/// A cell outside the cage is outside each of its parts.
proof fn lemma_outside_part(cells: Seq<usize>, sel: u64, n: int, want: bool)
    requires
        n == cells.len(),
        cells_wf(cells),
    ensures
        forall|x: usize| picked(cells, sel, n, want).contains(x) ==> cells.contains(x),
{
    lemma_picked(cells, sel, n, want);
    let part = picked(cells, sel, n, want);
    assert forall|x: usize| part.contains(x) implies cells.contains(x) by {
        let j = choose|j: int| 0 <= j < part.len() && part[j] == x;
        assert(at_position(cells, sel, n, want, part[j]));
    }
}

/// Some cell of the cage holds no digit that its side of the split allows.
pub open spec fn starving(board: Seq<Cell>, cells: Seq<usize>, sel: u64, values: u64) -> bool {
    exists|k: int| 0 <= k < cells.len() && #[trigger] starved(board, cells, sel, values, k)
}

/// The board with the cells at the positions of `sel` narrowed to the
/// digits of `values`, and the other cells of the list to the other digits.
pub open spec fn parted(board: Seq<Cell>, cells: Seq<usize>, sel: u64, values: u64) -> Seq<Cell> {
    Seq::new(
        board.len(),
        |j: int|
            if cells.contains(j as usize) {
                if has_bit(sel, cells.index_of(j as usize)) {
                    Cell::of_bits(board[j].bits() & values)
                } else {
                    Cell::of_bits(board[j].bits() & !values)
                }
            } else {
                board[j]
            },
    )
}

/// A board that holds in each cell of the list just the digits that its
/// side of the split allows, and is as it was elsewhere, is the parted board.
proof fn lemma_parted(
    before: Seq<Cell>,
    after: Seq<Cell>,
    cells: Seq<usize>,
    sel: u64,
    values: u64,
)
    requires
        before.len() == 81,
        after.len() == 81,
        cells_wf(cells),
        forall|j: int|
            0 <= j < 81 && !cells.contains(j as usize) ==> #[trigger] after[j] == before[j],
        forall|k: int, d: int|
            0 <= k < cells.len() ==> ((#[trigger] after[cells[k] as int].has(d))
                <==> before[cells[k] as int].has(d) && has_bit(values, d) == has_bit(sel, k)),
    ensures
        after == parted(before, cells, sel, values),
{
    let target = parted(before, cells, sel, values);
    assert forall|j: int| 0 <= j < 81 implies after[j] == target[j] by {
        if cells.contains(j as usize) {
            let k = cells.index_of(j as usize);
            assert(0 <= k < cells.len() && cells[k] == j as usize);
            let allowed = if has_bit(sel, k) { values } else { !values };
            lemma_bit_algebra(before[j].bits(), allowed);
            lemma_bit_algebra(values, 0);
            assert forall|d: int| 0 <= d < 64 implies has_bit(after[j].bits(), d) == has_bit(
                before[j].bits() & allowed,
                d,
            ) by {
                assert(after[cells[k] as int].has(d) <==> before[cells[k] as int].has(d)
                    && has_bit(values, d) == has_bit(sel, k));
            }
            lemma_bits_equal(after[j].bits(), before[j].bits() & allowed);
            crate::cell::lemma_of_bits(before[j].bits() & allowed);
            crate::cell::lemma_cell_by_bits(after[j], Cell::of_bits(before[j].bits() & allowed));
        }
    }
    assert(after =~= target);
}

/// The two parts into which a cage falls at a hidden set, and the board
/// after it: the cells of the set keep the digits of `values`, the others
/// lose them; the first part has the cells of the set and the sum of those
/// digits, the second the other cells and the rest of the sum, by which
/// its cells are narrowed. Nothing where that leaves a cell without a digit
/// or a part without a set of digits for its sum.
pub open spec fn split_of(cage: CageView, board: Seq<Cell>, sel: u64, values: u64) -> Option<
    (CageView, CageView, Seq<Cell>),
> {
    let n = cage.cells.len() as int;
    let mid = parted(board, cage.cells, sel, values);
    let first = CageView {
        cells: picked(cage.cells, sel, n, true),
        sum: digit_sum(values),
        uniqueness: true,
    };
    let second = CageView {
        cells: picked(cage.cells, sel, n, false),
        sum: cage.sum - digit_sum(values),
        uniqueness: true,
    };
    let allowed = combinations_union(second.cells.len(), second.sum);
    if popcount(values) != count_bits(sel, n) || starving(board, cage.cells, sel, values)
        || digit_sum(values) > cage.sum || combinations(second.cells.len(), second.sum).len() == 0
        || crate::cage::starves(second.cells, mid, allowed) {
        None
    } else {
        Some((first, second, crate::cage::kept(mid, second.cells, allowed)))
    }
}

/// The first hidden set of the fewest cells, from `size` cells on and of
/// fewer than `n`: the positions of its cells and the digits they hold.
pub open spec fn first_hidden(data: Seq<(usize, u64)>, size: int, n: int) -> Option<(u64, u64)>
    decreases n - size,
{
    if size >= n {
        None
    } else if first_subset(data, 0, size, size, 0, 0) is Some {
        first_subset(data, 0, size, size, 0, 0)
    } else {
        first_hidden(data, size + 1, n)
    }
}

/// What the search for a hidden set comes to.
pub enum Partition {
    /// No grid within the board meets the cage.
    Refuted,
    /// The cage has no hidden set, or is not looked at.
    Calm,
    /// The cage falls into two parts, and the board is narrowed.
    Split { first: CageView, second: CageView, board: Seq<Cell> },
}

/// What the search for a hidden set comes to for a cage on a board: the
/// cage falls in two at its first hidden set of the fewest cells.
pub open spec fn partition_of(cage: CageView, board: Seq<Cell>) -> Partition {
    let n = cage.cells.len() as int;
    if !cage.uniqueness || n < 2 {
        Partition::Calm
    } else if n > 9 {
        Partition::Refuted
    } else {
        match first_hidden(entries_of(board, cage.cells, n), 1, n) {
            None => Partition::Calm,
            Some((sel, values)) => match split_of(cage, board, sel, values) {
                None => Partition::Refuted,
                Some((first, second, after)) => Partition::Split { first, second, board: after },
            },
        }
    }
}

/// The place from `pos` on of the first entry with more than `weight` digits.
pub open spec fn place_after(data: Seq<(usize, u64)>, weight: int, pos: int) -> int
    decreases data.len() - pos,
{
    if 0 <= pos < data.len() && popcount(data[pos].1) <= weight {
        place_after(data, weight, pos + 1)
    } else {
        pos
    }
}

/// The entries for the first `k` positions of the cells: for each the
/// position and the mask of the cell there, those with fewer digits first,
/// and of those with as many the one at the lesser position.
pub open spec fn entries_of(board: Seq<Cell>, cells: Seq<usize>, k: int) -> Seq<(usize, u64)>
    decreases k,
{
    if k <= 0 {
        Seq::empty()
    } else {
        let before = entries_of(board, cells, k - 1);
        let mask = board[cells[k - 1] as int].bits();
        before.insert(place_after(before, popcount(mask), 0), ((k - 1) as usize, mask))
    }
}

impl Cage {
    /// For each position of the cage the mask of the cell there, the cells
    /// with fewer digits first.
    fn build_entries(&self, board: &[Cell; 81]) -> (data: Vec<(usize, u64)>)
        requires
            self@.wf(),
            self.cells.len() <= 9,
        ensures
            data@ == entries_of(board@, self@.cells, self.cells.len() as int),
            entries_ok(data@, board@, self@.cells),
            forall|k: int| 0 <= k < self.cells.len() ==> has_entry(data@, data@.len() as int, k),
    {
        let mut data: Vec<(usize, u64)> = Vec::new();
        let mut k: usize = 0;
        while k < self.cells.len()
            invariant
                0 <= k <= self.cells.len(),
                self.cells.len() <= 9,
                self@.wf(),
                data@.len() == k,
                data@ == entries_of(board@, self@.cells, k as int),
                forall|i: int|
                    0 <= i < data@.len() ==> (#[trigger] data@[i]).0 < k && data@[i].1
                        == board@[self.cells@[data@[i].0 as int] as int].bits(),
                forall|i: int, j: int|
                    0 <= i < j < data@.len() ==> (#[trigger] data@[i]).0 != (#[trigger] data@[j]).0,
                forall|p: int| 0 <= p < k ==> has_entry(data@, data@.len() as int, p),
            decreases self.cells.len() - k,
        {
            let mask = board[self.cells[k]].get_bits();
            let weight = popcnt64(mask);
            let mut pos: usize = 0;
            while pos < data.len() && popcnt64(data[pos].1) <= weight
                invariant
                    0 <= pos <= data.len(),
                    place_after(data@, weight as int, 0) == place_after(
                        data@,
                        weight as int,
                        pos as int,
                    ),
                decreases data.len() - pos,
            {
                pos += 1;
            }
            assert(pos == place_after(data@, weight as int, 0));
            let ghost before = data@;
            data.insert(pos, (k, mask));
            proof {
                assert forall|i: int| 0 <= i < data@.len() implies (#[trigger] data@[i]).0 < k + 1
                    && data@[i].1 == board@[self.cells@[data@[i].0 as int] as int].bits() by {
                    if i < pos {
                        assert(data@[i] == before[i]);
                    } else if i > pos {
                        assert(data@[i] == before[i - 1]);
                    }
                }
                assert forall|i: int, j: int| 0 <= i < j < data@.len() implies (
                #[trigger] data@[i]).0 != (#[trigger] data@[j]).0 by {
                    let a = if i < pos { i } else { i - 1 };
                    let b = if j < pos { j } else { j - 1 };
                    if i != pos && j != pos {
                        assert(before[a].0 != before[b].0);
                    } else if i == pos {
                        assert(before[b].0 < k);
                    } else {
                        assert(before[a].0 < k);
                    }
                }
                assert forall|p: int| 0 <= p < k + 1 implies has_entry(
                    data@,
                    data@.len() as int,
                    p,
                ) by {
                    if p < k {
                        assert(has_entry(before, before.len() as int, p));
                        let i = choose|i: int|
                            0 <= i < before.len() && (#[trigger] before[i]).0 == p;
                        if i < pos {
                            assert(data@[i].0 == p);
                        } else {
                            assert(data@[i + 1].0 == p);
                        }
                    } else {
                        assert(data@[pos as int].0 == p);
                    }
                }
            }
            k += 1;
        }
        data
    }

    /// The cells at the positions of `sel`, and the others.
    fn split_cells(&self, sel: u64) -> (r: (Vec<usize>, Vec<usize>))
        requires
            self.cells.len() <= 64,
        ensures
            r.0@ == picked(self@.cells, sel, self.cells.len() as int, true),
            r.1@ == picked(self@.cells, sel, self.cells.len() as int, false),
    {
        let mut inside: Vec<usize> = Vec::new();
        let mut outside: Vec<usize> = Vec::new();
        let mut i: usize = 0;
        while i < self.cells.len()
            invariant
                0 <= i <= self.cells.len(),
                self.cells.len() <= 64,
                inside@ == picked(self@.cells, sel, i as int, true),
                outside@ == picked(self@.cells, sel, i as int, false),
            decreases self.cells.len() - i,
        {
            if (sel >> i) & 1 == 1 {
                inside.push(self.cells[i]);
            } else {
                outside.push(self.cells[i]);
            }
            i += 1;
        }
        (inside, outside)
    }

    /// Keeps in the cells at the positions of `sel` only digits of `values`,
    /// and in the other cells of the cage only other digits.
    fn restrict_parts(&self, sel: u64, values: u64, board: &mut [Cell; 81]) -> (r: Result<
        (),
        SolveError,
    >)
        requires
            self@.wf(),
            self.cells.len() <= 64,
            board_wf(old(board)@),
        ensures
            board_wf(final(board)@),
            narrows(final(board)@, old(board)@),
            forall|j: int|
                0 <= j < 81 && !self@.cells.contains(j as usize) ==> #[trigger] final(board)@[j]
                    == old(board)@[j],
            r is Ok ==> forall|k: int, d: int|
                0 <= k < self.cells.len() ==> ((#[trigger] final(board)@[self.cells[k] as int].has(
                    d,
                )) <==> old(board)@[self.cells[k] as int].has(d) && has_bit(values, d) == has_bit(
                    sel,
                    k,
                )),
            r is Err ==> r == Err::<(), SolveError>(SolveError::Contradiction) && exists|k: int|
                0 <= k < self.cells.len() && #[trigger] starved(
                    old(board)@,
                    self@.cells,
                    sel,
                    values,
                    k,
                ),
            r is Err <==> starving(old(board)@, self@.cells, sel, values),
            r is Ok ==> final(board)@ == parted(old(board)@, self@.cells, sel, values),
    {
        let ghost cells = self@.cells;
        let mut i: usize = 0;
        while i < self.cells.len()
            invariant
                0 <= i <= self.cells.len(),
                self.cells.len() <= 64,
                cells == self@.cells,
                cells_wf(cells),
                board_wf(old(board)@),
                board_wf(board@),
                narrows(board@, old(board)@),
                forall|j: int|
                    0 <= j < 81 && !crate::cage::in_prefix(cells, i as int, j as usize)
                        ==> #[trigger] board@[j] == old(board)@[j],
                forall|k: int, d: int|
                    0 <= k < i ==> ((#[trigger] board@[cells[k] as int].has(d)) <==> old(
                        board,
                    )@[cells[k] as int].has(d) && has_bit(values, d) == has_bit(sel, k)),
            decreases self.cells.len() - i,
        {
            let c: usize = self.cells[i];
            let ghost prev = board@;
            let mut cell = board[c];
            let inside = (sel >> i) & 1 == 1;
            let allowed: u64 = if inside {
                values
            } else {
                !values
            };
            proof {
                assert(!crate::cage::in_prefix(cells, i as int, c)) by {
                    if crate::cage::in_prefix(cells, i as int, c) {
                        let p = choose|p: int| 0 <= p < i && cells[p] == c;
                        assert(cells[p] < cells[i as int]);
                    }
                }
                assert(prev[c as int] == old(board)@[c as int]);
                lemma_bit_algebra(cell.bits(), allowed);
                lemma_bit_algebra(values, 0);
                crate::cell::lemma_domain_digits(cell.bits());
            }
            let ghost whole = cell;
            match cell.restrict_to(allowed) {
                Ok(()) => {},
                Err(e) => {
                    proof {
                        lemma_bit_algebra(0, 0);
                        assert(inside == has_bit(sel, i as int));
                        assert(whole == old(board)@[c as int]);
                        assert(whole.bits() & allowed == 0);
                        assert forall|d: int| (#[trigger] old(board)@[cells[i as int] as int].has(
                            d,
                        )) implies has_bit(values, d) != has_bit(sel, i as int) by {
                            assert(whole.has(d));
                            assert(!has_bit(whole.bits() & allowed, d));
                            assert(!has_bit(allowed, d));
                        }
                        assert(starved(old(board)@, cells, sel, values, i as int));
                        lemma_frame(cells, i as int, board@, old(board)@);
                    }
                    return Err(e);
                },
            }
            board[c] = cell;
            proof {
                assert(board@ =~= prev.update(c as int, cell));
                assert forall|j: int|
                    0 <= j < 81 && !crate::cage::in_prefix(
                        cells,
                        i + 1,
                        j as usize,
                    ) implies #[trigger] board@[j] == old(board)@[j] by {
                    if j == c {
                        assert(0 <= i < i + 1 && cells[i as int] == j as usize);
                    } else {
                        if crate::cage::in_prefix(cells, i as int, j as usize) {
                            let p = choose|p: int| 0 <= p < i && cells[p] == j as usize;
                            assert(0 <= p < i + 1 && cells[p] == j as usize);
                        }
                    }
                }
                assert forall|k: int, d: int| 0 <= k < i + 1 implies ((
                    #[trigger] board@[cells[k] as int].has(
                    d,
                )) <==> old(board)@[cells[k] as int].has(d) && has_bit(values, d) == has_bit(
                    sel,
                    k,
                )) by {
                    if k < i {
                        assert(cells[k] < cells[i as int]);
                        assert(board@[cells[k] as int] == prev[cells[k] as int]);
                    } else {
                        if !(0 <= d < 64) {
                        }
                    }
                }
            }
            i += 1;
        }
        proof {
            lemma_frame(cells, cells.len() as int, board@, old(board)@);
            lemma_parted(old(board)@, board@, cells, sel, values);
            assert(!starving(old(board)@, cells, sel, values)) by {
                if starving(old(board)@, cells, sel, values) {
                    let k = choose|k: int|
                        0 <= k < cells.len() && #[trigger] starved(
                            old(board)@,
                            cells,
                            sel,
                            values,
                            k,
                        );
                    assert(cells[k] < 81);
                    assert(board@[cells[k] as int].wf());
                    crate::cell::lemma_domain_digits(board@[cells[k] as int].bits());
                    let d = choose|d: int| has_bit(board@[cells[k] as int].bits(), d);
                    assert(board@[cells[k] as int].has(d));
                }
            }
        }
        Ok(())
    }

    /// Splits the cage at the hidden set found: narrows the cells on both
    /// sides, makes the two parts, and narrows the second by its new sum.
    fn split_at(&self, sel: u64, values: u64, size: usize, board: &mut [Cell; 81]) -> (r: Result<
        (Cage, Cage),
        SolveError,
    >)
        requires
            self@.wf(),
            self.uniqueness,
            2 <= self.cells.len() <= 9,
            board_wf(old(board)@),
            bits_below(sel, self.cells.len() as int),
            values == domains_union(old(board)@, self@.cells, sel, self.cells.len() as int),
            size == count_bits(sel, self.cells.len() as int),
            1 <= size < self.cells.len(),
            popcount(values) <= size,
        ensures
            narrowed_by(self@, old(board)@, final(board)@),
            r is Err ==> r == Err::<(Cage, Cage), SolveError>(SolveError::Contradiction)
                && refuted_by(self@, old(board)@),
            r matches Ok((first, second)) ==> splits(self@, first@, second@, final(board)@)
                && first@.wf() && second@.wf() && tight(first@, final(board)@) && tight(
                second@,
                final(board)@,
            ) && first@.cells.len() == size,
            r is Err <==> split_of(self@, old(board)@, sel, values) is None,
            r matches Ok((first, second)) ==> split_of(self@, old(board)@, sel, values) == Some(
                (first@, second@, final(board)@),
            ),
    {
        let ghost cage = self@;
        let ghost cells = self@.cells;
        let ghost n = self.cells.len() as int;
        let ghost before = board@;
        proof {
            lemma_domains_union_bits(before, cells, sel, n);
            assert forall|g: Seq<int>|
                is_grid(g) && within(before, g) && #[trigger] cage.satisfied_by(g) implies size
                <= popcount(values) by {
                lemma_too_few_values(cage, before, sel, values, g);
            }
        }
        if popcnt64(values) != size {
            return Err(SolveError::Contradiction);
        }
        assert(hidden_set(cage, before, sel, values));
        proof {
            assert forall|g: Seq<int>|
                is_grid(g) && within(before, g) && #[trigger] cage.satisfied_by(
                    g,
                ) implies forall|k: int|
                0 <= k < n ==> has_bit(values, g[#[trigger] cells[k] as int]) == has_bit(
                    sel,
                    k,
                ) by {
                lemma_hidden_set_keeps(cage, before, sel, values, g);
            }
        }
        match self.restrict_parts(sel, values, board) {
            Ok(()) => {},
            Err(e) => {
                proof {
                    let k = choose|k: int|
                        0 <= k < n && #[trigger] starved(before, cells, sel, values, k);
                    assert forall|g: Seq<int>|
                        is_grid(g) && within(before, g) implies !#[trigger] cage.satisfied_by(
                        g,
                    ) by {
                        if cage.satisfied_by(g) {
                            assert(cells[k] < 81);
                            assert(before[cells[k] as int].has(g[cells[k] as int]));
                            assert(has_bit(values, g[cells[k] as int]) == has_bit(sel, k));
                        }
                    }
                }
                return Err(e);
            },
        }
        let ghost mid = board@;
        proof {
            assert forall|g: Seq<int>|
                is_grid(g) && within(before, g) && #[trigger] cage.satisfied_by(g) implies within(
                mid,
                g,
            ) by {
                assert forall|j: int| 0 <= j < 81 implies (#[trigger] mid[j]).has(g[j]) by {
                    assert(before[j].has(g[j]));
                    if cells.contains(j as usize) {
                        let k = choose|k: int| 0 <= k < n && cells[k] == j as usize;
                        assert(has_bit(values, g[cells[k] as int]) == has_bit(sel, k));
                        assert(mid[cells[k] as int].has(g[j]));
                    }
                }
            }
            lemma_picked(cells, sel, n, true);
            lemma_picked(cells, sel, n, false);
            lemma_picked_len(cells, sel, n);
        }
        let first_sum = digit_total(values);
        if first_sum > self.sum {
            proof {
                assert forall|g: Seq<int>|
                    is_grid(g) && within(before, g) implies !#[trigger] cage.satisfied_by(g) by {
                    if cage.satisfied_by(g) {
                        lemma_hidden_set_keeps(cage, before, sel, values, g);
                        let rest = picked(cells, sel, n, false);
                        lemma_cells_sum_nonnegative(g, rest, rest.len() as int);
                    }
                }
            }
            return Err(SolveError::Contradiction);
        }
        let parts = self.split_cells(sel);
        let first_cells = parts.0;
        let second_cells = parts.1;
        proof {
            lemma_sorted_already(first_cells@);
            lemma_sorted_already(second_cells@);
            assert(crate::cage::distinct_cells(first_cells@)) by {
                lemma_wf_distinct(first_cells@);
            }
            assert(crate::cage::distinct_cells(second_cells@)) by {
                lemma_wf_distinct(second_cells@);
            }
        }
        let first = Cage::new(first_cells, first_sum, true);
        let second = Cage::new(second_cells, self.sum - first_sum, true);
        proof {
            assert forall|k: int, d: int|
                0 <= k < n && has_bit(sel, k) && (#[trigger] mid[cells[k] as int].has(
                    d,
                )) implies has_bit(values, d) by {}
            assert(splits_by(cage, first@, second@, mid, sel, values));
            assert forall|g: Seq<int>|
                is_grid(g) && within(before, g) && #[trigger] cage.satisfied_by(
                    g,
                ) implies second@.satisfied_by(g) by {
                lemma_split_equivalent(cage, first@, second@, mid, g);
            }
        }
        match second.restrict_by_uniform_combination(board) {
            Ok(_) => {},
            Err(e) => {
                proof {
                    lemma_narrows_transitive(board@, mid, before);
                    lemma_outside_part(cells, sel, n, false);
                }
                return Err(e);
            },
        }
        proof {
            let after = board@;
            lemma_narrows_transitive(after, mid, before);
            lemma_outside_part(cells, sel, n, false);
            assert forall|k: int, d: int|
                0 <= k < n && (#[trigger] after[cells[k] as int].has(d)) implies has_bit(values, d)
                == has_bit(sel, k) by {
                assert(cells[k] < 81);
                assert(mid[cells[k] as int].has(d));
            }
            assert(splits_by(cage, first@, second@, after, sel, values));
            if first@.cells.len() == 1 {
                let p = crate::util::lemma_single_bit_position(values);
                crate::cage::lemma_single_digit_sum(values, p);
                assert(at_position(cells, sel, n, true, first@.cells[0]));
                let k = choose|k: int|
                    0 <= k < n && has_bit(sel, k) == true && #[trigger] cells[k] == first@.cells[0];
                assert forall|d: int| (#[trigger] after[first@.cells[0] as int].has(
                    d,
                )) implies d == first@.sum by {
                    assert(after[cells[k] as int].has(d));
                }
            }
            if second@.cells.len() == 1 {
                assert forall|d: int| (#[trigger] after[second@.cells[0] as int].has(
                    d,
                )) implies d == second@.sum by {
                    lemma_bit_algebra(
                        mid[second@.cells[0] as int].bits(),
                        combinations_union(1, second@.sum),
                    );
                    lemma_single_cell_union(second@.sum, d);
                }
            }
        }
        Ok((first, second))
    }

    /// Looks in a cage of distinct digits for the fewest cells that hold
    /// between them only as many digits as they are. Where there are such
    /// cells, the digits are theirs: the other cells of the cage lose them,
    /// and the cage falls into two cages, the cells found with the sum of
    /// those digits, and the others with the rest of the sum, by which they
    /// are narrowed in turn. A cage whose digits need not be distinct, or one
    /// with fewer than two cells, is passed over. Of several sets of the
    /// fewest cells the first is taken, with the cells of fewer digits
    /// before those of more: the result is `partition_of` the cage.
    pub fn check_for_partitions(&self, board: &mut [Cell; 81]) -> (r: Result<
        Option<(Cage, Cage)>,
        SolveError,
    >)
        requires
            self@.wf(),
            board_wf(old(board)@),
        ensures
            narrowed_by(self@, old(board)@, final(board)@),
            r is Err ==> r == Err::<Option<(Cage, Cage)>, SolveError>(SolveError::Contradiction)
                && refuted_by(self@, old(board)@),
            !self.uniqueness || self.cells.len() < 2 ==> r == Ok::<
                Option<(Cage, Cage)>,
                SolveError,
            >(None),
            r matches Ok(None) ==> final(board)@ == old(board)@ && unsettled(old(board)@, self@),
            r matches Ok(None) <==> calm(old(board)@, self@),
            r is Err <==> partition_of(self@, old(board)@) is Refuted,
            r matches Ok(None) <==> partition_of(self@, old(board)@) is Calm,
            r matches Ok(Some((first, second))) ==> partition_of(self@, old(board)@) == (
            Partition::Split { first: first@, second: second@, board: final(board)@ }),
            r matches Ok(Some((first, second))) ==> splits(
                self@,
                first@,
                second@,
                final(board)@,
            ) && first@.wf() && second@.wf() && tight(first@, final(board)@) && tight(
                second@,
                final(board)@,
            ),
            r matches Ok(Some((first, second))) ==> forall|size: int|
                1 <= size < first@.cells.len() ==> #[trigger] no_hidden_set(
                    old(board)@,
                    self@.cells,
                    size,
                ),
    {
        if !self.uniqueness || self.cells.len() < 2 {
            return Ok(None);
        }
        let ghost cage = self@;
        let ghost cells = self@.cells;
        let ghost n = self.cells.len() as int;
        if self.cells.len() > 9 {
            proof {
                assert forall|g: Seq<int>|
                    is_grid(g) && within(board@, g) implies !#[trigger] cage.satisfied_by(g) by {
                    if cage.satisfied_by(g) {
                        crate::cage::lemma_uniform_combination(cage, g);
                        crate::combinations::lemma_too_few_digits(n as nat, cage.sum, 1);
                    }
                }
                lemma_crowded(board@, cells);
                assert(!no_hidden_set(board@, cells, 9));
            }
            return Err(SolveError::Contradiction);
        }
        let data = self.build_entries(board);
        let mut size: usize = 1;
        proof {
            lemma_bit_algebra(0, 0);
            crate::util::lemma_count_zero(0, 64);
            crate::util::lemma_count_zero(0, n);
            lemma_domains_union_bits(board@, cells, 0, n);
            assert(domains_union(board@, cells, 0, n) == 0) by {
                lemma_bits_equal(domains_union(board@, cells, 0, n), 0);
            }
        }
        while size < self.cells.len()
            invariant
                1 <= size <= self.cells.len(),
                2 <= self.cells.len() <= 9,
                n == self.cells.len(),
                cage == self@,
                cells == cage.cells,
                cage.wf(),
                cage.uniqueness,
                board@ == old(board)@,
                board_wf(board@),
                entries_ok(data@, board@, cells),
                forall|k: int| 0 <= k < n ==> has_entry(data@, data@.len() as int, k),
                bits_below(0, n),
                forall|i: int| !has_bit(0u64, i),
                count_bits(0, n) == 0,
                popcount(0) == 0,
                domains_union(board@, cells, 0, n) == 0,
                data@ == entries_of(board@, cells, n),
                first_hidden(data@, 1, n) == first_hidden(data@, size as int, n),
                forall|s: int| 1 <= s < size ==> #[trigger] no_hidden_set(board@, cells, s),
            decreases self.cells.len() - size,
        {
            match find_subset(&data, 0, size, size, 0, 0, Ghost(board@), Ghost(cells)) {
                Some(found) => {
                    proof {
                        assert(hides(board@, cells, found.0, size as int));
                        assert(!no_hidden_set(board@, cells, size as int));
                    }
                    return match self.split_at(found.0, found.1, size, board) {
                        Ok(parts) => Ok(Some(parts)),
                        Err(e) => Err(e),
                    };
                },
                None => {
                    proof {
                        lemma_no_hidden_set(data@, board@, cells, size as int);
                    }
                },
            }
            size += 1;
        }
        proof {
            lemma_unsettled(board@, cage);
        }
        Ok(None)
    }
}

} // verus!
