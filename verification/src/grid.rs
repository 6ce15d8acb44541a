//! The mathematical model of a board: a grid of digits, what it means for a
//! grid to lie within the cells' domains, and what a cage asks of a grid.

use crate::cell::Cell;
use crate::combinations::{digit_sum, lemma_add_bit};
use crate::util::{has_bit, lemma_bit_algebra, lemma_bit_shift, popcount};
use vstd::prelude::*;

verus! {

/// The number of cells of the board.
pub const NUM_CELLS: usize = 81;

/// A grid gives each of the 81 cells one digit of 1 to 9.
pub open spec fn is_grid(g: Seq<int>) -> bool {
    g.len() == 81 && forall|i: int| 0 <= i < 81 ==> 1 <= #[trigger] g[i] <= 9
}

/// Every cell may hold at least one digit, and only digits of 1 to 9.
pub open spec fn board_wf(board: Seq<Cell>) -> bool {
    board.len() == 81 && forall|i: int| 0 <= i < 81 ==> (#[trigger] board[i]).wf()
}

/// The grid gives each cell a digit that the cell may hold.
pub open spec fn within(board: Seq<Cell>, g: Seq<int>) -> bool {
    forall|i: int| 0 <= i < 81 ==> (#[trigger] board[i]).has(g[i])
}

/// No cell of `after` may hold a digit that it could not hold in `before`.
pub open spec fn narrows(after: Seq<Cell>, before: Seq<Cell>) -> bool {
    after.len() == before.len() && forall|i: int, d: int|
        0 <= i < after.len() && (#[trigger] after[i].has(d)) ==> before[i].has(d)
}

/// The cells are ascending without repeats, and each is a cell of the board.
pub open spec fn cells_wf(cells: Seq<usize>) -> bool {
    (forall|i: int, j: int| 0 <= i < j < cells.len() ==> cells[i] < cells[j]) && (forall|i: int|
        0 <= i < cells.len() ==> #[trigger] cells[i] < 81)
}

/// The sum of the digits that the grid gives to the first `n` of the cells.
pub open spec fn cells_sum(g: Seq<int>, cells: Seq<usize>, n: int) -> int
    decreases n,
{
    if n <= 0 {
        0
    } else {
        cells_sum(g, cells, n - 1) + g[cells[n - 1] as int]
    }
}

/// The grid gives no two of the cells the same digit.
pub open spec fn cells_distinct(g: Seq<int>, cells: Seq<usize>) -> bool {
    forall|i: int, j: int|
        0 <= i < j < cells.len() ==> g[#[trigger] cells[i] as int] != g[#[trigger] cells[j] as int]
}

/// What a cage is, apart from how it is stored.
pub struct CageView {
    pub cells: Seq<usize>,
    pub sum: int,
    pub uniqueness: bool,
}

impl CageView {
    /// The cells are ascending without repeats, and each is a cell of the board.
    pub open spec fn wf(self) -> bool {
        cells_wf(self.cells)
    }

    /// The grid meets the cage: the digits of its cells add up to its sum,
    /// and are distinct where the cage asks for that.
    pub open spec fn satisfied_by(self, g: Seq<int>) -> bool {
        cells_sum(g, self.cells, self.cells.len() as int) == self.sum && (self.uniqueness
            ==> cells_distinct(g, self.cells))
    }
}

/// `narrows` holds of a board and itself, and through a chain.
pub proof fn lemma_narrows_transitive(a: Seq<Cell>, b: Seq<Cell>, c: Seq<Cell>)
    requires
        narrows(a, b),
        narrows(b, c),
    ensures
        narrows(a, c),
{
    assert forall|i: int, d: int| 0 <= i < a.len() && (#[trigger] a[i].has(d)) implies c[i].has(
        d,
    ) by {
        assert(b[i].has(d));
    }
}

/// A grid within a board is within every board that the board narrows.
pub proof fn lemma_within_narrows(after: Seq<Cell>, before: Seq<Cell>, g: Seq<int>)
    requires
        narrows(after, before),
        after.len() == 81,
        within(after, g),
    ensures
        within(before, g),
{
    assert forall|i: int| 0 <= i < 81 implies (#[trigger] before[i]).has(g[i]) by {
        assert(after[i].has(g[i]));
    }
}

/// The mask of the digits that the grid gives to the first `n` of the cells.
pub open spec fn digits_mask(g: Seq<int>, cells: Seq<usize>, n: int) -> u64
    decreases n,
{
    if n <= 0 {
        0
    } else {
        digits_mask(g, cells, n - 1) | (1u64 << (g[cells[n - 1] as int] as u64))
    }
}

/// The digits in `digits_mask` are those of the cells; where they are
/// distinct, the mask has as many bits as there are cells, and its digits add
/// up to the sum of the cells.
pub proof fn lemma_digits_mask(g: Seq<int>, cells: Seq<usize>, n: int)
    requires
        is_grid(g),
        0 <= n <= cells.len(),
        forall|k: int| 0 <= k < cells.len() ==> #[trigger] cells[k] < 81,
    ensures
        forall|d: int|
            has_bit(digits_mask(g, cells, n), d) <==> exists|k: int|
                0 <= k < n && g[#[trigger] cells[k] as int] == d,
        cells_distinct(g, cells) ==> popcount(digits_mask(g, cells, n)) == n && digit_sum(
            digits_mask(g, cells, n),
        ) == cells_sum(g, cells, n),
    decreases n,
{
    lemma_bit_algebra(0, 0);
    if n > 0 {
        lemma_digits_mask(g, cells, n - 1);
        let prev = digits_mask(g, cells, n - 1);
        let c = cells[n - 1];
        let d0 = g[c as int];
        assert(1 <= d0 <= 9);
        lemma_bit_algebra(prev, 1u64 << (d0 as u64));
        lemma_bit_shift(0, d0);
        assert forall|d: int| has_bit(digits_mask(g, cells, n), d) <==> exists|k: int|
            0 <= k < n && g[#[trigger] cells[k] as int] == d by {
            if has_bit(digits_mask(g, cells, n), d) {
                if has_bit(prev, d) {
                    let k = choose|k: int| 0 <= k < n - 1 && g[#[trigger] cells[k] as int] == d;
                    assert(0 <= k < n && g[cells[k] as int] == d);
                } else {
                    assert(0 <= n - 1 < n && g[cells[n - 1] as int] == d);
                }
            }
            if exists|k: int| 0 <= k < n && g[#[trigger] cells[k] as int] == d {
                let k = choose|k: int| 0 <= k < n && g[#[trigger] cells[k] as int] == d;
                if k < n - 1 {
                    assert(has_bit(prev, d));
                }
            }
        }
        if cells_distinct(g, cells) {
            if has_bit(prev, d0) {
                let k = choose|k: int| 0 <= k < n - 1 && g[#[trigger] cells[k] as int] == d0;
                assert(g[cells[k] as int] != g[cells[n - 1] as int]);
            }
            lemma_add_bit(prev, d0, 64);
        }
    } else {
        crate::util::lemma_count_zero(0, 64);
        crate::combinations::lemma_weight_zero(0, 64);
    }
}

/// Nine cells with distinct digits hold each digit of 1 to 9 once: their
/// digits add up to 45.
pub proof fn lemma_nine_distinct(g: Seq<int>, cells: Seq<usize>)
    requires
        is_grid(g),
        cells.len() == 9,
        forall|k: int| 0 <= k < cells.len() ==> #[trigger] cells[k] < 81,
        cells_distinct(g, cells),
    ensures
        cells_sum(g, cells, 9) == 45,
{
    let m = digits_mask(g, cells, 9);
    lemma_digits_mask(g, cells, 9);
    assert forall|d: int| has_bit(m, d) implies 1 <= d <= 9 by {
        let k = choose|k: int| 0 <= k < 9 && g[#[trigger] cells[k] as int] == d;
        assert(cells[k] < 81);
    }
    crate::cell::lemma_nine_digits(m);
    crate::cell::lemma_all_digits();
}

} // verus!
