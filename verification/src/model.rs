//! What the solver does, step by step, as functions of the board and the
//! cages. The solver's steps are proved against them, so that one puzzle
//! always gives one result.

use crate::cage::{kept, pair_completes, paired, starves};
use crate::cell::Cell;
use crate::combinations::{combinations, combinations_union};
use crate::grid::CageView;
use crate::partition::{partition_of, Partition};
use crate::puzzle::{
    all_solved, board_freedom, score, total_weight, with_cage, without_cage, Puzzle, Replacement,
    RECURSION_LIMIT,
};
use crate::util::popcount;
use vstd::prelude::*;

verus! {

/// A board with its cages.
pub struct Position {
    pub cells: Seq<Cell>,
    pub cages: Seq<CageView>,
}

/// A cage with the two parts that take its place.
pub struct Swap {
    pub whole: CageView,
    pub first: CageView,
    pub second: CageView,
}

/// The board after a cage of distinct digits has narrowed its cells to the
/// digits that its size and sum allow; nothing where that leaves a cell
/// without a digit. Another cage leaves the board as it is.
pub open spec fn uniform_step(cage: CageView, board: Seq<Cell>) -> Option<Seq<Cell>> {
    let allowed = combinations_union(cage.cells.len(), cage.sum);
    if !cage.uniqueness {
        Some(board)
    } else if combinations(cage.cells.len(), cage.sum).len() == 0 || starves(
        cage.cells,
        board,
        allowed,
    ) {
        None
    } else {
        Some(kept(board, cage.cells, allowed))
    }
}

/// The board after the first `n` cages have narrowed their cells, each in
/// turn, to the digits that its size and sum allow.
pub open spec fn uniform_pass(cages: Seq<CageView>, board: Seq<Cell>, n: int) -> Option<Seq<Cell>>
    decreases n,
{
    if n <= 0 {
        Some(board)
    } else {
        match uniform_pass(cages, board, n - 1) {
            None => None,
            Some(before) => uniform_step(cages[n - 1], before),
        }
    }
}

/// The board after a cage of two cells with distinct digits has narrowed
/// them to the digits that complete each other to its sum; nothing where no
/// two digits do. Another cage leaves the board as it is.
pub open spec fn pair_step(cage: CageView, board: Seq<Cell>) -> Option<Seq<Cell>> {
    if !(cage.uniqueness && cage.cells.len() == 2) {
        Some(board)
    } else if pair_completes(board, cage) {
        Some(paired(board, cage))
    } else {
        None
    }
}

/// The board after the first `n` cages have completed their pairs, each in turn.
pub open spec fn pairs_pass(cages: Seq<CageView>, board: Seq<Cell>, n: int) -> Option<Seq<Cell>>
    decreases n,
{
    if n <= 0 {
        Some(board)
    } else {
        match pairs_pass(cages, board, n - 1) {
            None => None,
            Some(before) => pair_step(cages[n - 1], before),
        }
    }
}

/// A pass that has come to nothing stays so as it goes on.
pub proof fn lemma_pass_fails(cages: Seq<CageView>, board: Seq<Cell>, m: int, n: int)
    requires
        m <= n,
    ensures
        uniform_pass(cages, board, m) is None ==> uniform_pass(cages, board, n) is None,
        pairs_pass(cages, board, m) is None ==> pairs_pass(cages, board, n) is None,
        hidden_pass(cages, board, m) is None ==> hidden_pass(cages, board, n) is None,
    decreases n - m,
{
    if m < n {
        lemma_pass_fails(cages, board, m, n - 1);
    }
}

/// The board after the first `n` cages have looked for a hidden set, each
/// in turn, and the cages that fall in two, with their parts.
pub open spec fn hidden_pass(cages: Seq<CageView>, board: Seq<Cell>, n: int) -> Option<
    (Seq<Cell>, Seq<Swap>),
>
    decreases n,
{
    if n <= 0 {
        Some((board, Seq::empty()))
    } else {
        match hidden_pass(cages, board, n - 1) {
            None => None,
            Some((before, list)) => match partition_of(cages[n - 1], before) {
                Partition::Refuted => None,
                Partition::Calm => Some((before, list)),
                Partition::Split { first, second, board: after } => Some(
                    (after, list.push(Swap { whole: cages[n - 1], first, second })),
                ),
            },
        }
    }
}

/// What the replacements of a list are, apart from how they are stored.
pub open spec fn swaps(list: Seq<Replacement>) -> Seq<Swap> {
    Seq::new(
        list.len(),
        |k: int| Swap { whole: list[k].whole@, first: list[k].first@, second: list[k].second@ },
    )
}

/// The cages after the first `k` cages of the list have given way to their parts.
pub open spec fn swapped(cages: Seq<CageView>, list: Seq<Swap>, k: int) -> Seq<CageView>
    decreases k,
{
    if k <= 0 {
        cages
    } else {
        let before = without_cage(swapped(cages, list, k - 1), list[k - 1].whole);
        with_cage(with_cage(before, list[k - 1].first), list[k - 1].second)
    }
}

/// The board and the cages once no cage has a hidden set any more: the
/// cages look for hidden sets, those that fall in two give way to their
/// parts, and so on until none falls in two. Nothing where a cage is refuted.
pub open spec fn split_all(cells: Seq<Cell>, cages: Seq<CageView>) -> Option<Position>
    decreases total_weight(cages),
{
    match hidden_pass(cages, cells, cages.len() as int) {
        None => None,
        Some((board, list)) => {
            let next = swapped(cages, list, list.len() as int);
            if list.len() > 0 && 0 <= total_weight(next) < total_weight(cages) {
                split_all(board, next)
            } else {
                Some(Position { cells: board, cages })
            }
        },
    }
}

/// The board and the cages once nothing moves any more: the pairs are
/// completed and, where that narrowed a cell, the cages look for hidden sets
/// again, and so on. Nothing where a cage is refuted.
pub open spec fn refine(cells: Seq<Cell>, cages: Seq<CageView>) -> Option<Position>
    decreases board_freedom(cells, 81),
{
    match pairs_pass(cages, cells, cages.len() as int) {
        None => None,
        Some(board) => if board == cells {
            Some(Position { cells, cages })
        } else {
            match split_all(board, cages) {
                None => None,
                Some(next) => if 0 <= board_freedom(next.cells, 81) < board_freedom(cells, 81) {
                    refine(next.cells, next.cages)
                } else {
                    Some(next)
                },
            }
        },
    }
}

/// The board and the cages after propagation: every cage of distinct
/// digits narrows its cells by its size and sum, the cages fall in two at
/// their hidden sets, and the pairs are completed until nothing moves.
/// Nothing where a cage is refuted.
pub open spec fn propagate(cells: Seq<Cell>, cages: Seq<CageView>) -> Option<Position> {
    match uniform_pass(cages, cells, cages.len() as int) {
        None => None,
        Some(board) => match split_all(board, cages) {
            None => None,
            Some(next) => refine(next.cells, next.cages),
        },
    }
}

/// The cell `r` is the one to guess at: among the cells with several digits
/// left, it has the greatest score, and is the last of those that have it.
pub open spec fn is_guess(cells: Seq<Cell>, cages: Seq<CageView>, r: int) -> bool {
    &&& 0 <= r < 81
    &&& popcount(cells[r].bits()) != 1
    &&& forall|j: int|
        0 <= j < 81 && popcount((#[trigger] cells[j]).bits()) != 1 ==> score(cells, cages, j)
            <= score(cells, cages, r)
    &&& forall|j: int|
        r < j < 81 && popcount((#[trigger] cells[j]).bits()) != 1 ==> score(cells, cages, j)
            < score(cells, cages, r)
}

/// The cell to guess at.
pub open spec fn guess_of(cells: Seq<Cell>, cages: Seq<CageView>) -> int {
    choose|r: int| is_guess(cells, cages, r)
}

/// There is one cell to guess at and no other.
pub proof fn lemma_guess(cells: Seq<Cell>, cages: Seq<CageView>, r: int)
    requires
        is_guess(cells, cages, r),
    ensures
        guess_of(cells, cages) == r,
{
    let other = guess_of(cells, cages);
    assert(is_guess(cells, cages, other));
    if other < r {
        assert(score(cells, cages, r) < score(cells, cages, other));
        assert(score(cells, cages, other) <= score(cells, cages, r));
    } else if r < other {
        assert(score(cells, cages, other) < score(cells, cages, r));
        assert(score(cells, cages, r) <= score(cells, cages, other));
    }
}

/// What a search comes to.
pub enum Outcome {
    /// The puzzle has no solution.
    Refuted,
    /// The search would have to guess deeper than its limit.
    Exhausted,
    /// The boards found, in their order, and whether no guess was given up.
    Found { boards: Seq<Position>, complete: bool },
}

/// The board with only the digit `digit` left in the cell `guess`.
pub open spec fn guessed(cells: Seq<Cell>, guess: int, digit: int) -> Seq<Cell> {
    cells.update(guess, Cell::of_bits(cells[guess].bits() & (1u64 << (digit as u64))))
}

/// What the search comes to at the depth `depth`: after propagation the
/// board is solved, or the cell to guess at is tried with each of its digits.
pub open spec fn search_of(cells: Seq<Cell>, cages: Seq<CageView>, depth: int) -> Outcome
    decreases RECURSION_LIMIT + 1 - depth, 10int,
{
    match propagate(cells, cages) {
        None => Outcome::Refuted,
        Some(next) => if all_solved(next.cells) {
            Outcome::Found { boards: seq![next], complete: true }
        } else if depth > RECURSION_LIMIT {
            Outcome::Exhausted
        } else {
            let found = branches(
                next.cells,
                next.cages,
                guess_of(next.cells, next.cages),
                9,
                depth,
            );
            Outcome::Found { boards: found.0, complete: found.1 }
        },
    }
}

/// What the searches with the digits up to `digit` in the cell `guess` find
/// between them, those of the lesser digit first, and whether none of them
/// gave up a guess.
pub open spec fn branches(
    cells: Seq<Cell>,
    cages: Seq<CageView>,
    guess: int,
    digit: int,
    depth: int,
) -> (Seq<Position>, bool)
    decreases RECURSION_LIMIT + 1 - depth, digit,
{
    if digit <= 0 || depth > RECURSION_LIMIT {
        (Seq::empty(), true)
    } else {
        let before = branches(cells, cages, guess, digit - 1, depth);
        if !cells[guess].has(digit) {
            before
        } else {
            match search_of(guessed(cells, guess, digit), cages, depth + 1) {
                Outcome::Refuted => before,
                Outcome::Exhausted => (before.0, false),
                Outcome::Found { boards, complete } => (before.0 + boards, before.1 && complete),
            }
        }
    }
}

/// The search of the puzzle finds boards and gives up no guess.
pub open spec fn searched_whole(cells: Seq<Cell>, cages: Seq<CageView>) -> bool {
    match search_of(cells, cages, 0) {
        Outcome::Found { boards, complete } => complete,
        _ => false,
    }
}

/// The boards that the search of a puzzle finds, in their order.
pub open spec fn solutions_of(cells: Seq<Cell>, cages: Seq<CageView>) -> Seq<Position> {
    match search_of(cells, cages, 0) {
        Outcome::Found { boards, complete } => boards,
        _ => Seq::empty(),
    }
}

/// Two lists of boards that are both what the search of one puzzle finds
/// hold the same boards in the same order.
pub proof fn lemma_same_puzzle_same_boards(
    first: Seq<Puzzle>,
    second: Seq<Puzzle>,
    cells: Seq<Cell>,
    cages: Seq<CageView>,
)
    requires
        positions(first) == solutions_of(cells, cages),
        positions(second) == solutions_of(cells, cages),
    ensures
        first.len() == second.len(),
        forall|i: int|
            0 <= i < first.len() ==> (#[trigger] first[i]).cells() == second[i].cells()
                && first[i].cages() == second[i].cages(),
{
    assert(positions(first).len() == first.len());
    assert(positions(second).len() == second.len());
    assert forall|i: int| 0 <= i < first.len() implies (#[trigger] first[i]).cells()
        == second[i].cells() && first[i].cages() == second[i].cages() by {
        assert(positions(first)[i] == positions(second)[i]);
        assert(positions(first)[i] == Position {
            cells: first[i].cells(),
            cages: first[i].cages(),
        });
        assert(positions(second)[i] == Position {
            cells: second[i].cells(),
            cages: second[i].cages(),
        });
    }
}

/// The boards of a list of puzzles, each with its cages.
pub open spec fn positions(list: Seq<Puzzle>) -> Seq<Position> {
    Seq::new(list.len(), |i: int| Position { cells: list[i].cells(), cages: list[i].cages() })
}

} // verus!
