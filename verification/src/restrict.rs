//! Narrowing the last one or two open cells of a cage of distinct digits by
//! what is left of its sum.

use crate::cage::{
    in_prefix, lemma_single_digit_sum, narrowed_by, refuted_by, solved_digit, solved_sum, Cage,
};
use crate::cell::{has_partner, Cell};
use crate::error::SolveError;
use crate::grid::{board_wf, cells_sum, cells_wf, is_grid, within};
use crate::partition::lemma_cells_sum_prefix;
use crate::util::{
    has_bit, lemma_bit_algebra, lemma_bit_shift, lemma_bits_equal, lemma_count_subset,
    lemma_has_bit_nonzero, lemma_single_bit_position, popcount,
};
use vstd::prelude::*;

verus! {

/// Those of the first `n` cells that have more than one digit left.
pub open spec fn pending(board: Seq<Cell>, cells: Seq<usize>, n: int) -> Seq<usize>
    decreases n,
{
    if n <= 0 {
        Seq::empty()
    } else if popcount(board[cells[n - 1] as int].bits()) != 1 {
        pending(board, cells, n - 1).push(cells[n - 1])
    } else {
        pending(board, cells, n - 1)
    }
}

/// What `pending` holds: cells of the list that have more than one digit left.
pub proof fn lemma_pending(board: Seq<Cell>, cells: Seq<usize>, n: int)
    requires
        0 <= n <= cells.len(),
    ensures
        forall|j: int|
            0 <= j < pending(board, cells, n).len() ==> in_prefix(
                cells,
                n,
                #[trigger] pending(board, cells, n)[j],
            ) && popcount(board[pending(board, cells, n)[j] as int].bits()) != 1,
        forall|k: int|
            0 <= k < n && popcount(board[#[trigger] cells[k] as int].bits()) != 1 ==> pending(
                board,
                cells,
                n,
            ).contains(cells[k]),
    decreases n,
{
    if n > 0 {
        lemma_pending(board, cells, n - 1);
        let prev = pending(board, cells, n - 1);
        let cur = pending(board, cells, n);
        assert forall|j: int| 0 <= j < cur.len() implies in_prefix(cells, n, #[trigger] cur[j])
            && popcount(board[cur[j] as int].bits()) != 1 by {
            if j < prev.len() {
                assert(cur[j] == prev[j]);
                let p = choose|p: int| 0 <= p < n - 1 && cells[p] == prev[j];
                assert(0 <= p < n && cells[p] == cur[j]);
            } else {
                assert(0 <= n - 1 < n && cells[n - 1] == cur[j]);
            }
        }
        assert forall|k: int|
            0 <= k < n && popcount(board[#[trigger] cells[k] as int].bits()) != 1
                implies cur.contains(
            cells[k],
        ) by {
            if k < n - 1 {
                assert(prev.contains(cells[k]));
                let j = choose|j: int| 0 <= j < prev.len() && prev[j] == cells[k];
                assert(cur[j] == cells[k]);
            } else {
                assert(cur[prev.len() as int] == cells[k]);
            }
        }
    }
}

/// Within the board, the digits of the cells are the digits of the settled
/// cells and those of the open cells.
pub proof fn lemma_sum_parts(g: Seq<int>, board: Seq<Cell>, cells: Seq<usize>, n: int)
    requires
        is_grid(g),
        within(board, g),
        0 <= n <= cells.len(),
        forall|k: int| 0 <= k < cells.len() ==> #[trigger] cells[k] < 81,
    ensures
        cells_sum(g, cells, n) == solved_sum(board, cells, n) + cells_sum(
            g,
            pending(board, cells, n),
            pending(board, cells, n).len() as int,
        ),
    decreases n,
{
    if n > 0 {
        lemma_sum_parts(g, board, cells, n - 1);
        let c = cells[n - 1];
        assert(c < 81);
        assert(board[c as int].has(g[c as int]));
        let prev = pending(board, cells, n - 1);
        if popcount(board[c as int].bits()) == 1 {
            let p = lemma_single_bit_position(board[c as int].bits());
            lemma_single_digit_sum(board[c as int].bits(), p);
        } else {
            lemma_cells_sum_prefix(g, prev.push(c), prev, prev.len() as int);
        }
    }
}

impl Cage {
    /// The cells of the cage that have more than one digit left.
    pub fn unsolved_cells(&self, board: &[Cell; 81]) -> (r: Vec<usize>)
        requires
            self@.wf(),
        ensures
            r@ == pending(board@, self@.cells, self@.cells.len() as int),
    {
        let mut out: Vec<usize> = Vec::new();
        let mut i: usize = 0;
        while i < self.cells.len()
            invariant
                0 <= i <= self.cells.len(),
                self@.wf(),
                out@ == pending(board@, self@.cells, i as int),
            decreases self.cells.len() - i,
        {
            let c: usize = self.cells[i];
            if board[c].get_solution().is_none() {
                out.push(c);
            }
            i += 1;
        }
        out
    }

    /// In a cage of distinct digits, takes the digits of the cells with one
    /// digit left off the sum. Where one cell is open, it keeps only what is
    /// left of the sum, if no settled cell holds that digit. Where two are
    /// open, each keeps only the digits that another digit of the other
    /// completes to what is left. With more cells open, with nothing left of
    /// the sum, or in a cage whose digits need not be distinct, nothing is
    /// done. Says whether a cell changed.
    pub fn restrict(&self, board: &mut [Cell; 81]) -> (r: Result<bool, SolveError>)
        requires
            self@.wf(),
            board_wf(old(board)@),
        ensures
            narrowed_by(self@, old(board)@, final(board)@),
            r is Err ==> r == Err::<bool, SolveError>(SolveError::Contradiction) && refuted_by(
                self@,
                old(board)@,
            ),
            r matches Ok(progress) ==> progress == (final(board)@ != old(board)@),
            ({
                let cells = self@.cells;
                let n = cells.len() as int;
                let open = pending(old(board)@, cells, n);
                let left = self.sum - solved_sum(old(board)@, cells, n);
                &&& !self.uniqueness || left == 0 || (left > 0 && open.len() >= 3) ==> r == Ok::<
                    bool,
                    SolveError,
                >(false)
                &&& self.uniqueness && (left < 0 || (left > 0 && open.len() == 0)) ==> r is Err
                &&& self.uniqueness && left > 0 && open.len() == 1 ==> (r is Ok <==> old(
                    board,
                )@[open[0] as int].has(left) && !solved_digit(old(board)@, cells, n, left))
                    && forall|d: int|
                    final(board)@[open[0] as int].has(d) ==> r is Err || d == left
                &&& self.uniqueness && left > 0 && open.len() == 2 ==> (r is Ok <==> exists|d: int|
                    completes(old(board)@[open[0] as int], old(board)@[open[1] as int], left, d))
                    && (r is Ok ==> forall|d: int|
                    (final(board)@[open[0] as int].has(d) <==> completes(
                        old(board)@[open[0] as int],
                        old(board)@[open[1] as int],
                        left,
                        d,
                    )) && (final(board)@[open[1] as int].has(d) <==> completes(
                        old(board)@[open[1] as int],
                        old(board)@[open[0] as int],
                        left,
                        d,
                    )))
            }),
    {
        if !self.uniqueness {
            return Ok(false);
        }
        let ghost cage = self@;
        let ghost cells = self@.cells;
        let ghost n = cells.len() as int;
        let ghost before = board@;
        let ghost open = pending(before, cells, n);
        proof {
            lemma_pending(before, cells, n);
            assert forall|g: Seq<int>|
                is_grid(g) && within(before, g) && #[trigger] cage.satisfied_by(
                    g,
                ) implies cage.sum == solved_sum(before, cells, n) + cells_sum(
                g,
                open,
                open.len() as int,
            ) by {
                lemma_sum_parts(g, before, cells, n);
            }
        }
        let remaining_sum = match self.get_remaining_sum(board) {
            Some(left) => left,
            None => {
                proof {
                    assert forall|g: Seq<int>|
                        is_grid(g) && within(before, g) implies !#[trigger] cage.satisfied_by(
                        g,
                    ) by {
                        if cage.satisfied_by(g) {
                            lemma_open_sum_nonnegative(g, before, cells, n);
                        }
                    }
                }
                return Err(SolveError::Contradiction);
            },
        };
        if remaining_sum == 0 {
            return Ok(false);
        }
        let remaining_numbers = self.get_remaining_numbers(board);
        let unsolved = self.unsolved_cells(board);
        if unsolved.len() == 0 {
            proof {
                assert forall|g: Seq<int>|
                    is_grid(g) && within(before, g) implies !#[trigger] cage.satisfied_by(g) by {}
            }
            return Err(SolveError::Contradiction);
        }
        if unsolved.len() == 1 {
            let c: usize = unsolved[0];
            let shift: u64 = if remaining_sum < 64 {
                remaining_sum as u64
            } else {
                0
            };
            let target: u64 = if remaining_sum < 64 {
                (1u64 << shift) & remaining_numbers
            } else {
                0
            };
            proof {
                assert(in_prefix(cells, n, open[0]));
                let k0 = choose|p: int| 0 <= p < n && cells[p] == open[0];
                assert(cells[k0] < 81);
                lemma_bit_algebra(0, 0);
                if remaining_sum < 64 {
                    lemma_bit_algebra(1u64 << shift, remaining_numbers);
                    lemma_bit_shift(0, shift as int);
                }
                crate::cell::lemma_domain_digits(before[c as int].bits());
                assert forall|d: int|
                    has_bit(target, d) <==> d == remaining_sum && 1 <= d <= 9 && !solved_digit(
                        before,
                        cells,
                        n,
                        d,
                    ) by {
                    if remaining_sum < 64 {
                        assert(has_bit(1u64 << shift, d) == (d == shift));
                        assert(has_bit(remaining_numbers, d) <==> 1 <= d <= 9 && !solved_digit(
                            before,
                            cells,
                            n,
                            d,
                        ));
                    }
                }
                assert forall|g: Seq<int>|
                    is_grid(g) && within(before, g) && #[trigger] cage.satisfied_by(
                        g,
                    ) implies has_bit(target, g[c as int]) by {
                    reveal_with_fuel(cells_sum, 2);
                    assert(before[c as int].has(g[c as int]));
                    if solved_digit(before, cells, n, g[c as int]) {
                        let k = choose|k: int|
                            0 <= k < n && popcount(before[#[trigger] cells[k] as int].bits()) == 1
                                && before[cells[k] as int].has(g[c as int]);
                        assert(cells[k] < 81);
                        assert(before[cells[k] as int].has(g[cells[k] as int]));
                        let p = lemma_single_bit_position(before[cells[k] as int].bits());
                        if k < k0 {
                            assert(g[cells[k] as int] != g[cells[k0] as int]);
                        } else if k0 < k {
                            assert(g[cells[k0] as int] != g[cells[k] as int]);
                        }
                    }
                }
                lemma_bit_algebra(before[c as int].bits(), target);
                assert(cells.contains(c));
            }
            let old_cell = board[c];
            let mut cell = old_cell;
            match cell.restrict_to(target) {
                Ok(()) => {},
                Err(e) => {
                    proof {
                        assert forall|g: Seq<int>|
                            is_grid(g) && within(before, g) implies !#[trigger] cage.satisfied_by(
                            g,
                        ) by {
                            if cage.satisfied_by(g) {
                                assert(before[c as int].has(g[c as int]));
                                assert(has_bit(before[c as int].bits() & target, g[c as int]));
                                lemma_has_bit_nonzero(
                                    before[c as int].bits() & target,
                                    g[c as int],
                                );
                            }
                        }
                        if before[c as int].has(remaining_sum as int) && !solved_digit(
                            before,
                            cells,
                            n,
                            remaining_sum as int,
                        ) {
                            assert(has_bit(
                                before[c as int].bits() & target,
                                remaining_sum as int,
                            ));
                            lemma_has_bit_nonzero(
                                before[c as int].bits() & target,
                                remaining_sum as int,
                            );
                        }
                    }
                    return Err(e);
                },
            }
            board[c] = cell;
            proof {
                assert(board@ =~= before.update(c as int, cell));
                let w = crate::util::lemma_nonzero_has_bit(cell.bits());
                assert(has_bit(target, w));
                assert forall|g: Seq<int>|
                    is_grid(g) && within(before, g) && #[trigger] cage.satisfied_by(
                        g,
                    ) implies within(board@, g) by {
                    assert forall|j: int| 0 <= j < 81 implies (#[trigger] board@[j]).has(g[j]) by {
                        assert(before[j].has(g[j]));
                    }
                }
                if cell == old_cell {
                    assert(board@ =~= before);
                } else {
                    assert(board@[c as int] != before[c as int]);
                }
            }
            return Ok(cell != old_cell);
        }
        if unsolved.len() >= 3 {
            return Ok(false);
        }
        let first: usize = unsolved[0];
        let second: usize = unsolved[1];
        let old_a = board[first];
        let old_b = board[second];
        proof {
            assert(in_prefix(cells, n, open[0]));
            assert(in_prefix(cells, n, open[1]));
            let ka = choose|p: int| 0 <= p < n && cells[p] == open[0];
            let kb = choose|p: int| 0 <= p < n && cells[p] == open[1];
            assert(cells[ka] < 81 && cells[kb] < 81);
            assert(cells.contains(first));
            assert(cells.contains(second));
            lemma_open_pair_differs(before, cells, n);
            assert(first != second);
            crate::cell::lemma_domain_digits(old_a.bits());
            crate::cell::lemma_domain_digits(old_b.bits());
            assert forall|g: Seq<int>|
                is_grid(g) && within(before, g) && #[trigger] cage.satisfied_by(
                    g,
                ) implies completes(old_a, old_b, remaining_sum as int, g[first as int])
                && completes(old_b, old_a, remaining_sum as int, g[second as int]) by {
                reveal_with_fuel(cells_sum, 3);
                assert(before[first as int].has(g[first as int]));
                assert(before[second as int].has(g[second as int]));
                if ka < kb {
                    assert(g[cells[ka] as int] != g[cells[kb] as int]);
                } else {
                    assert(g[cells[kb] as int] != g[cells[ka] as int]);
                }
            }
        }
        if remaining_sum >= 64 {
            proof {
                assert forall|d: int| !completes(old_a, old_b, remaining_sum as int, d) by {}
            }
            return Err(SolveError::Contradiction);
        }
        let shift: u64 = remaining_sum as u64;
        let sums: u64 = 1u64 << shift;
        let mut a = old_a;
        let mut b = old_b;
        proof {
            lemma_bit_shift(0, shift as int);
            assert forall|i: int| has_bit(sums, i) == (i == remaining_sum) by {
                assert(has_bit(1u64 << shift, i) == (i == shift));
            }
        }
        let mut failed = false;
        loop
            invariant_except_break
                !failed,
            invariant
                a.wf(),
                b.wf(),
                old_a.wf(),
                old_b.wf(),
                remaining_sum < 64,
                forall|i: int| #[trigger] has_bit(sums, i) == (i == remaining_sum),
                forall|d: int| #[trigger] a.has(d) ==> old_a.has(d),
                forall|d: int| #[trigger] b.has(d) ==> old_b.has(d),
                forall|d: int| #[trigger]
                    completes(old_a, old_b, remaining_sum as int, d) ==> a.has(d) && b.has(
                        remaining_sum - d,
                    ),
            ensures
                a.wf(),
                b.wf(),
                failed ==> forall|d: int| !#[trigger] completes(
                    old_a,
                    old_b,
                    remaining_sum as int,
                    d,
                ),
                !failed ==> forall|d: int| a.has(d) <==> #[trigger] completes(
                    old_a,
                    old_b,
                    remaining_sum as int,
                    d,
                ),
                !failed ==> forall|d: int| b.has(d) <==> #[trigger] completes(
                    old_b,
                    old_a,
                    remaining_sum as int,
                    d,
                ),
            decreases popcount(a.bits()) + popcount(b.bits()),
        {
            proof {
                crate::cell::lemma_domain_digits(a.bits());
                crate::cell::lemma_domain_digits(b.bits());
                assert forall|d: int| #[trigger]
                    completes(old_a, old_b, remaining_sum as int, d) implies has_partner(
                    b,
                    sums,
                    d,
                ) && has_partner(a, sums, remaining_sum - d) by {
                    let e2 = remaining_sum - d;
                    assert(a.has(d) && b.has(e2));
                    assert(1 <= e2 <= 9 && b.has(e2) && e2 != d && has_bit(sums, d + e2));
                    assert(1 <= d <= 9 && a.has(d) && d != e2 && has_bit(sums, e2 + d));
                }
            }
            let step_a = a.pairwise_restriction(b, sums);
            let step_b = b.pairwise_restriction(a, sums);
            let mut new_a = a;
            let mut new_b = b;
            match step_a {
                Ok(cell) => {
                    new_a = cell;
                },
                Err(_) => {
                    failed = true;
                },
            }
            match step_b {
                Ok(cell) => {
                    new_b = cell;
                },
                Err(_) => {
                    failed = true;
                },
            }
            if failed {
                proof {
                    assert forall|d: int| !#[trigger] completes(
                        old_a,
                        old_b,
                        remaining_sum as int,
                        d,
                    ) by {
                        if completes(old_a, old_b, remaining_sum as int, d) {
                            assert(a.has(d));
                            assert(b.has(remaining_sum - d));
                        }
                    }
                }
                break ;
            }
            if new_a == a && new_b == b {
                proof {
                    assert forall|d: int| a.has(d) <==> #[trigger] completes(
                        old_a,
                        old_b,
                        remaining_sum as int,
                        d,
                    ) by {
                        if a.has(d) {
                            assert(new_a.has(d));
                            let e2 = choose|e2: int|
                                1 <= e2 <= 9 && #[trigger] b.has(e2) && e2 != d && has_bit(
                                    sums,
                                    d + e2,
                                );
                            assert(old_b.has(e2));
                        }
                    }
                    assert forall|d: int| b.has(d) <==> #[trigger] completes(
                        old_b,
                        old_a,
                        remaining_sum as int,
                        d,
                    ) by {
                        if b.has(d) {
                            assert(new_b.has(d));
                            let e2 = choose|e2: int|
                                1 <= e2 <= 9 && #[trigger] a.has(e2) && e2 != d && has_bit(
                                    sums,
                                    d + e2,
                                );
                            assert(old_a.has(e2));
                        }
                        if completes(old_b, old_a, remaining_sum as int, d) {
                            assert(completes(old_a, old_b, remaining_sum as int,
                                remaining_sum - d));
                        }
                    }
                }
                break ;
            }
            proof {
                lemma_shrinks(new_a, a);
                lemma_shrinks(new_b, b);
                assert forall|d: int| #[trigger]
                    completes(old_a, old_b, remaining_sum as int, d) implies new_a.has(d)
                    && new_b.has(remaining_sum - d) by {
                    assert(has_partner(b, sums, d));
                    assert(has_partner(a, sums, remaining_sum - d));
                }
            }
            a = new_a;
            b = new_b;
        }
        if failed {
            return Err(SolveError::Contradiction);
        }
        board[first] = a;
        board[second] = b;
        proof {
            let w = crate::util::lemma_nonzero_has_bit(a.bits());
            assert(a.has(w));
            assert(completes(old_a, old_b, remaining_sum as int, w));
            assert forall|g: Seq<int>|
                is_grid(g) && within(before, g) && #[trigger] cage.satisfied_by(
                    g,
                ) implies within(board@, g) by {
                assert forall|j: int| 0 <= j < 81 implies (#[trigger] board@[j]).has(g[j]) by {
                    assert(before[j].has(g[j]));
                }
            }
            if a == old_a && b == old_b {
                assert(board@ =~= before);
            } else if a != old_a {
                assert(board@[first as int] != before[first as int]);
            } else {
                assert(board@[second as int] != before[second as int]);
            }
        }
        Ok(a != old_a || b != old_b)
    }
}

/// The digit `d` of `own` and another digit of `peer` add up to `left`.
pub open spec fn completes(own: Cell, peer: Cell, left: int, d: int) -> bool {
    own.has(d) && peer.has(left - d) && left - d != d
}

/// A cell that holds only digits of another holds no more of them, and
/// fewer where the two differ.
proof fn lemma_shrinks(after: Cell, before: Cell)
    requires
        forall|d: int| after.has(d) ==> before.has(d),
    ensures
        popcount(after.bits()) <= popcount(before.bits()),
        after != before ==> popcount(after.bits()) < popcount(before.bits()),
        popcount(after.bits()) >= 0,
{
    assert forall|i: int| 0 <= i < 64 && has_bit(after.bits(), i) implies has_bit(
        before.bits(),
        i,
    ) by {
        assert(after.has(i));
    }
    lemma_count_subset(after.bits(), before.bits(), 64);
    crate::util::lemma_count_bits_bounds(after.bits(), 64);
    if popcount(after.bits()) == popcount(before.bits()) {
        lemma_bits_equal(after.bits(), before.bits());
        crate::cell::lemma_cell_by_bits(after, before);
    }
}

/// The digits of the open cells add up to zero or more.
proof fn lemma_open_sum_nonnegative(g: Seq<int>, board: Seq<Cell>, cells: Seq<usize>, n: int)
    requires
        is_grid(g),
        0 <= n <= cells.len(),
        forall|k: int| 0 <= k < cells.len() ==> #[trigger] cells[k] < 81,
    ensures
        cells_sum(g, pending(board, cells, n), pending(board, cells, n).len() as int) >= 0,
{
    lemma_pending(board, cells, n);
    let open = pending(board, cells, n);
    assert forall|j: int| 0 <= j < open.len() implies #[trigger] open[j] < 81 by {
        assert(in_prefix(cells, n, open[j]));
        let p = choose|p: int| 0 <= p < n && cells[p] == open[j];
        assert(cells[p] < 81);
    }
    lemma_sum_nonnegative(g, open, open.len() as int);
}

proof fn lemma_sum_nonnegative(g: Seq<int>, cells: Seq<usize>, n: int)
    requires
        is_grid(g),
        0 <= n <= cells.len(),
        forall|k: int| 0 <= k < cells.len() ==> #[trigger] cells[k] < 81,
    ensures
        cells_sum(g, cells, n) >= 0,
    decreases n,
{
    if n > 0 {
        lemma_sum_nonnegative(g, cells, n - 1);
        assert(cells[n - 1] < 81);
    }
}

/// Two open cells of a cage are different cells.
proof fn lemma_open_pair_differs(board: Seq<Cell>, cells: Seq<usize>, n: int)
    requires
        cells_wf(cells),
        n == cells.len(),
        pending(board, cells, n).len() >= 2,
    ensures
        pending(board, cells, n)[0] != pending(board, cells, n)[1],
{
    lemma_pending_increasing(board, cells, n);
}

proof fn lemma_pending_increasing(board: Seq<Cell>, cells: Seq<usize>, n: int)
    requires
        cells_wf(cells),
        0 <= n <= cells.len(),
    ensures
        forall|i: int, j: int|
            0 <= i < j < pending(board, cells, n).len() ==> pending(board, cells, n)[i] < pending(
                board,
                cells,
                n,
            )[j],
    decreases n,
{
    if n > 0 {
        lemma_pending_increasing(board, cells, n - 1);
        lemma_pending(board, cells, n - 1);
        let prev = pending(board, cells, n - 1);
        let cur = pending(board, cells, n);
        assert forall|i: int, j: int| 0 <= i < j < cur.len() implies cur[i] < cur[j] by {
            if j < prev.len() {
                assert(prev[i] < prev[j]);
            } else {
                assert(in_prefix(cells, n - 1, prev[i]));
                let p = choose|p: int| 0 <= p < n - 1 && cells[p] == prev[i];
                assert(cells[p] < cells[n - 1]);
            }
        }
    }
}

} // verus!
