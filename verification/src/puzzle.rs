//! The board with its cages: how a puzzle is set up, how its cages narrow
//! the cells until nothing moves, and how the rest is searched.

use crate::cage::{cage_before, copy_indices, lemma_cage_order, pair_closed, sorted, Cage};
use crate::cell::{Cell, ALL_DIGITS};
use crate::derive::{balanced, derive_cages, derived_all, follows_from, unbalanced_cells};
use crate::error::SolveError;
use crate::grid::{
    board_wf, cells_distinct, cells_wf, is_grid, lemma_narrows_transitive, lemma_within_narrows,
    narrows, within, CageView,
};
use crate::partition::{
    calm, lemma_sorted_already, lemma_split_equivalent, splits, splits_by, tight, unsettled,
};
use crate::combinations::combinations_union;
use crate::grid::cells_sum;
use crate::io::SerializablePuzzle;
use crate::model::{
    branches, guess_of, guessed, hidden_pass, lemma_guess, lemma_pass_fails, pairs_pass,
    positions, propagate, refine, search_of, searched_whole, solutions_of, split_all, swapped,
    swaps, uniform_pass, Outcome, Position, Swap,
};
use crate::util::{get_population_distribution, has_bit, lemma_bit_algebra, popcount, total_in};
use std::collections::BTreeMap;
use vstd::prelude::*;

verus! {

/// What the cages of a list are, apart from how they are stored.
pub open spec fn views(list: Seq<Cage>) -> Seq<CageView> {
    Seq::new(list.len(), |i: int| list[i]@)
}

/// The grid meets every cage.
pub open spec fn meets_all(cages: Seq<CageView>, g: Seq<int>) -> bool {
    forall|i: int| 0 <= i < cages.len() ==> (#[trigger] cages[i]).satisfied_by(g)
}

/// The grid meets every cage that asks for distinct digits.
pub open spec fn meets_unique(cages: Seq<CageView>, g: Seq<int>) -> bool {
    forall|i: int|
        0 <= i < cages.len() && (#[trigger] cages[i]).uniqueness ==> cages[i].satisfied_by(g)
}

/// The grid solves the puzzle made of these cells and cages: it gives each
/// cell a digit that the cell may hold, and meets every cage.
pub open spec fn is_solution(cells: Seq<Cell>, cages: Seq<CageView>, g: Seq<int>) -> bool {
    is_grid(g) && within(cells, g) && meets_all(cages, g)
}

/// On this board, a grid that meets the cages with distinct digits meets the others too.
pub open spec fn derived_follow(cells: Seq<Cell>, cages: Seq<CageView>) -> bool {
    forall|g: Seq<int>|
        is_grid(g) && within(cells, g) && #[trigger] meets_unique(cages, g) ==> meets_all(cages, g)
}

/// Every cage is well-formed, and the cages stand in their order, so that
/// none is there twice.
pub open spec fn cages_wf(cages: Seq<CageView>) -> bool {
    &&& forall|i: int| 0 <= i < cages.len() ==> (#[trigger] cages[i]).wf()
    &&& forall|i: int, j: int| 0 <= i < j < cages.len() ==> cages[i] != cages[j]
    &&& forall|i: int, j: int|
        0 <= i < j < cages.len() ==> cage_before(#[trigger] cages[i], #[trigger] cages[j])
}

/// Where `cage` goes in the list: before the first cage that does not come before it.
pub open spec fn place_of(cages: Seq<CageView>, cage: CageView, from: int) -> int
    decreases cages.len() - from,
{
    if from < 0 || from >= cages.len() {
        from
    } else if cage_before(cages[from], cage) {
        place_of(cages, cage, from + 1)
    } else {
        from
    }
}

/// The list with `cage` put in at its place, unless it is there already.
pub open spec fn with_cage(cages: Seq<CageView>, cage: CageView) -> Seq<CageView> {
    if cages.contains(cage) {
        cages
    } else {
        cages.insert(place_of(cages, cage, 0), cage)
    }
}

/// The list without `cage`.
pub open spec fn without_cage(cages: Seq<CageView>, cage: CageView) -> Seq<CageView> {
    if cages.contains(cage) {
        cages.remove(cages.index_of(cage))
    } else {
        cages
    }
}

/// The place of a cage lies within the list, or at its end; the cages from
/// `from` up to the place come before the cage, and the cage at the place
/// does not.
pub proof fn lemma_place_of(cages: Seq<CageView>, cage: CageView, from: int)
    requires
        0 <= from <= cages.len(),
    ensures
        from <= place_of(cages, cage, from) <= cages.len(),
        forall|i: int|
            from <= i < place_of(cages, cage, from) ==> cage_before(#[trigger] cages[i], cage),
        place_of(cages, cage, from) < cages.len() ==> !cage_before(
            cages[place_of(cages, cage, from)],
            cage,
        ),
    decreases cages.len() - from,
{
    if from < cages.len() && cage_before(cages[from], cage) {
        lemma_place_of(cages, cage, from + 1);
    }
}

/// What a list holds after a cage was put in: what it held, and the cage.
pub proof fn lemma_with_cage(cages: Seq<CageView>, cage: CageView)
    requires
        cages_wf(cages),
        cage.wf(),
    ensures
        cages_wf(with_cage(cages, cage)),
        forall|c: CageView|
            #[trigger] with_cage(cages, cage).contains(c) <==> cages.contains(c) || c == cage,
        forall|g: Seq<int>|
            meets_all(with_cage(cages, cage), g) <==> meets_all(cages, g) && cage.satisfied_by(g),
{
    let after = with_cage(cages, cage);
    if !cages.contains(cage) {
        let pos = place_of(cages, cage, 0);
        lemma_place_of(cages, cage, 0);
        assert forall|i: int| 0 <= i < after.len() implies (#[trigger] after[i]).wf() by {
            if i < pos {
                assert(after[i] == cages[i]);
            } else if i > pos {
                assert(after[i] == cages[i - 1]);
            }
        }
        assert forall|i: int, j: int| 0 <= i < j < after.len() implies after[i] != after[j] by {
            let a = if i < pos { i } else { i - 1 };
            let b = if j < pos { j } else { j - 1 };
            if i == pos {
                assert(cages.contains(cages[b]));
            } else if j == pos {
                assert(cages.contains(cages[a]));
            } else {
                assert(cages[a] != cages[b]);
            }
        }
        assert forall|i: int, j: int| 0 <= i < j < after.len() implies cage_before(
            #[trigger] after[i],
            #[trigger] after[j],
        ) by {
            let a = if i < pos { i } else { i - 1 };
            let b = if j < pos { j } else { j - 1 };
            if i == pos {
                assert(cages.contains(cages[pos]));
                lemma_cage_order(cage, cages[pos], cages[b]);
                if b > pos {
                    assert(cage_before(cages[pos], cages[b]));
                }
            } else if j == pos {
                assert(cage_before(cages[a], cage));
            } else {
                assert(cage_before(cages[a], cages[b]));
            }
        }
        assert forall|c: CageView| after.contains(c) <==> cages.contains(c) || c == cage by {
            if after.contains(c) {
                let i = choose|i: int| 0 <= i < after.len() && after[i] == c;
                if i < pos {
                    assert(cages[i] == c);
                } else if i > pos {
                    assert(cages[i - 1] == c);
                }
            }
            if cages.contains(c) {
                let i = choose|i: int| 0 <= i < cages.len() && cages[i] == c;
                if i < pos {
                    assert(after[i] == c);
                } else {
                    assert(after[i + 1] == c);
                }
            }
            if c == cage {
                assert(after[pos] == c);
            }
        }
        assert forall|g: Seq<int>|
            meets_all(after, g) <==> meets_all(cages, g) && cage.satisfied_by(g) by {
            if meets_all(after, g) {
                assert(after[pos].satisfied_by(g));
                assert forall|i: int| 0 <= i < cages.len() implies (
                    #[trigger] cages[i]).satisfied_by(
                    g,
                ) by {
                    if i < pos {
                        assert(after[i].satisfied_by(g));
                    } else {
                        assert(after[i + 1].satisfied_by(g));
                    }
                }
            }
            if meets_all(cages, g) && cage.satisfied_by(g) {
                assert forall|i: int| 0 <= i < after.len() implies (
                    #[trigger] after[i]).satisfied_by(
                    g,
                ) by {
                    if i < pos {
                        assert(cages[i].satisfied_by(g));
                    } else if i > pos {
                        assert(cages[i - 1].satisfied_by(g));
                    }
                }
            }
        }
    } else {
        assert forall|g: Seq<int>|
            meets_all(after, g) <==> meets_all(cages, g) && cage.satisfied_by(g) by {
            let i = choose|i: int| 0 <= i < cages.len() && cages[i] == cage;
            if meets_all(cages, g) {
                assert(cages[i].satisfied_by(g));
            }
        }
    }
}

/// What a list holds after a cage was taken out: what it held, but for the cage.
pub proof fn lemma_without_cage(cages: Seq<CageView>, cage: CageView)
    requires
        cages_wf(cages),
    ensures
        cages_wf(without_cage(cages, cage)),
        forall|c: CageView|
            #[trigger] without_cage(cages, cage).contains(c) <==> cages.contains(c) && c != cage,
        forall|g: Seq<int>|
            cages.contains(cage) ==> (meets_all(cages, g) <==> meets_all(
                without_cage(cages, cage),
                g,
            ) && cage.satisfied_by(g)),
{
    let after = without_cage(cages, cage);
    if cages.contains(cage) {
        let pos = cages.index_of(cage);
        assert(0 <= pos < cages.len() && cages[pos] == cage);
        assert(after.len() == cages.len() - 1);
        assert forall|i: int| 0 <= i < after.len() implies #[trigger] after[i] == cages[if i
            < pos {
            i
        } else {
            i + 1
        }] by {}
        assert forall|i: int| 0 <= i < after.len() implies (#[trigger] after[i]).wf() by {
            if i < pos {
                assert(after[i] == cages[i]);
            } else {
                assert(after[i] == cages[i + 1]);
            }
        }
        assert forall|i: int, j: int| 0 <= i < j < after.len() implies after[i] != after[j] by {
            let a = if i < pos { i } else { i + 1 };
            let b = if j < pos { j } else { j + 1 };
            assert(cages[a] != cages[b]);
        }
        assert forall|i: int, j: int| 0 <= i < j < after.len() implies cage_before(
            #[trigger] after[i],
            #[trigger] after[j],
        ) by {
            let a = if i < pos { i } else { i + 1 };
            let b = if j < pos { j } else { j + 1 };
            assert(cage_before(cages[a], cages[b]));
        }
        assert forall|c: CageView| after.contains(c) <==> cages.contains(c) && c != cage by {
            if after.contains(c) {
                let i = choose|i: int| 0 <= i < after.len() && after[i] == c;
                let a = if i < pos { i } else { i + 1 };
                assert(cages[a] == c);
                if a < pos {
                    assert(cages[a] != cages[pos]);
                } else {
                    assert(cages[pos] != cages[a]);
                }
            }
            if cages.contains(c) && c != cage {
                let i = choose|i: int| 0 <= i < cages.len() && cages[i] == c;
                if i < pos {
                    assert(after[i] == c);
                } else {
                    assert(after[i - 1] == c);
                }
            }
        }
        assert forall|g: Seq<int>|
            meets_all(cages, g) <==> meets_all(after, g) && cage.satisfied_by(g) by {
            if meets_all(cages, g) {
                assert(cages[pos].satisfied_by(g));
                assert forall|i: int| 0 <= i < after.len() implies (
                    #[trigger] after[i]).satisfied_by(
                    g,
                ) by {
                    if i < pos {
                        assert(cages[i].satisfied_by(g));
                    } else {
                        assert(cages[i + 1].satisfied_by(g));
                    }
                }
            }
            if meets_all(after, g) && cage.satisfied_by(g) {
                assert forall|i: int| 0 <= i < cages.len() implies (
                    #[trigger] cages[i]).satisfied_by(
                    g,
                ) by {
                    if i < pos {
                        assert(after[i].satisfied_by(g));
                    } else if i > pos {
                        assert(after[i - 1].satisfied_by(g));
                    }
                }
            }
        }
    }
}

/// The place of `cage` in the list, where it is there.
pub fn find_cage(list: &Vec<Cage>, cage: &Cage) -> (r: Option<usize>)
    requires
        cages_wf(views(list@)),
    ensures
        r matches Some(i) ==> i < list.len() && list[i as int]@ == cage@ && views(list@).contains(
            cage@,
        ) && views(list@).index_of(cage@) == i,
        r is None ==> !views(list@).contains(cage@),
{
    let mut i: usize = 0;
    while i < list.len()
        invariant
            0 <= i <= list.len(),
            cages_wf(views(list@)),
            forall|k: int| 0 <= k < i ==> list[k]@ != cage@,
        decreases list.len() - i,
    {
        if list[i].same(cage) {
            proof {
                let v = views(list@);
                assert(v[i as int] == cage@);
                assert(v.contains(cage@));
                let j = v.index_of(cage@);
                assert(0 <= j < v.len() && v[j] == cage@);
                if j < i {
                    assert(v[j] != v[i as int]);
                } else if i < j {
                    assert(v[i as int] != v[j]);
                }
            }
            return Some(i);
        }
        i += 1;
    }
    proof {
        let v = views(list@);
        if v.contains(cage@) {
            let j = choose|j: int| 0 <= j < v.len() && v[j] == cage@;
            assert(list[j]@ != cage@);
        }
    }
    None
}

/// Puts the cage into the list at its place, unless it is there already.
pub fn insert_cage(list: &mut Vec<Cage>, cage: Cage)
    requires
        cages_wf(views(old(list)@)),
        cage@.wf(),
    ensures
        views(final(list)@) == with_cage(views(old(list)@), cage@),
        cages_wf(views(final(list)@)),
{
    proof {
        lemma_with_cage(views(list@), cage@);
    }
    if find_cage(list, &cage).is_some() {
        return ;
    }
    let ghost before = views(list@);
    let mut pos: usize = 0;
    while pos < list.len() && list[pos].precedes(&cage)
        invariant
            0 <= pos <= list.len(),
            before == views(list@),
            place_of(before, cage@, 0) == place_of(before, cage@, pos as int),
        decreases list.len() - pos,
    {
        pos += 1;
    }
    list.insert(pos, cage);
    assert(views(list@) =~= before.insert(pos as int, cage@));
}

/// Takes the cage out of the list, where it is there.
pub fn remove_cage(list: &mut Vec<Cage>, cage: &Cage)
    requires
        cages_wf(views(old(list)@)),
    ensures
        views(final(list)@) == without_cage(views(old(list)@), cage@),
        cages_wf(views(final(list)@)),
{
    proof {
        lemma_without_cage(views(list@), cage@);
    }
    let ghost before = views(list@);
    match find_cage(list, cage) {
        Some(i) => {
            let _ = list.remove(i);
            assert(views(list@) =~= before.remove(i as int));
        },
        None => {},
    }
}

/// A copy of the list of cages.
pub fn copy_cages(list: &Vec<Cage>) -> (r: Vec<Cage>)
    ensures
        views(r@) == views(list@),
{
    let mut out: Vec<Cage> = Vec::new();
    let mut i: usize = 0;
    while i < list.len()
        invariant
            0 <= i <= list.len(),
            out@.len() == i,
            forall|k: int| 0 <= k < i ==> out@[k]@ == list@[k]@,
        decreases list.len() - i,
    {
        out.push(list[i].duplicate());
        i += 1;
    }
    assert(views(out@) =~= views(list@));
    out
}

/// The cell `j` of the unit `u`: the units 0 to 8 are the rows, 9 to 17 the
/// columns, 18 to 26 the boxes.
pub open spec fn unit_cell(u: int, j: int) -> int {
    if u < 9 {
        9 * u + j
    } else if u < 18 {
        9 * j + (u - 9)
    } else {
        (((u - 18) / 3) * 3 + j / 3) * 9 + ((u - 18) % 3) * 3 + j % 3
    }
}

/// The nine cells of a row, a column or a box.
pub open spec fn unit_cells(u: int) -> Seq<usize> {
    Seq::new(9, |j: int| unit_cell(u, j) as usize)
}

/// The cage of a row, a column or a box: its digits are distinct and add up to 45.
pub open spec fn unit_cage(u: int) -> CageView {
    CageView { cells: unit_cells(u), sum: 45, uniqueness: true }
}

/// The cages hold the rules of Sudoku: one cage for each row, column and box.
pub open spec fn has_sudoku_rules(cages: Seq<CageView>) -> bool {
    forall|u: int| 0 <= u < 27 ==> cages.contains(#[trigger] unit_cage(u))
}

/// The cages of the rows, the columns and the boxes, a row first.
pub open spec fn unit_cages() -> Seq<CageView> {
    Seq::new(27, |u: int| unit_cage(u))
}

/// The cages of a puzzle that has only the rules of Sudoku: those of the
/// rows, the columns and the boxes, each at its place.
pub open spec fn rules() -> Seq<CageView> {
    with_cages(Seq::empty(), unit_cages(), 27)
}

/// No row, column or box of the grid holds a digit twice.
pub open spec fn sudoku_valid(g: Seq<int>) -> bool {
    forall|u: int| 0 <= u < 27 ==> cells_distinct(g, #[trigger] unit_cells(u))
}

/// A grid that meets cages which hold the rules of Sudoku keeps those rules.
pub proof fn lemma_sudoku_rules(cages: Seq<CageView>, g: Seq<int>)
    requires
        has_sudoku_rules(cages),
        meets_all(cages, g),
    ensures
        sudoku_valid(g),
{
    assert forall|u: int| 0 <= u < 27 implies cells_distinct(g, #[trigger] unit_cells(u)) by {
        assert(cages.contains(unit_cage(u)));
        let i = choose|i: int| 0 <= i < cages.len() && cages[i] == unit_cage(u);
        assert(cages[i].satisfied_by(g));
    }
}

/// The cells of a unit are ascending cells of the board.
pub proof fn lemma_unit_cells(u: int)
    requires
        0 <= u < 27,
    ensures
        cells_wf(unit_cells(u)),
{
    let cells = unit_cells(u);
    assert forall|i: int, j: int| 0 <= i < j < cells.len() implies cells[i] < cells[j] by {
        assert(0 <= unit_cell(u, i) < unit_cell(u, j) < 81);
    }
    assert forall|i: int| 0 <= i < cells.len() implies #[trigger] cells[i] < 81 by {
        assert(0 <= unit_cell(u, i) < 81);
    }
}

/// The cells of the unit `u`.
fn unit(u: usize) -> (r: Vec<usize>)
    requires
        u < 27,
    ensures
        r@ == unit_cells(u as int),
{
    let mut cells: Vec<usize> = Vec::new();
    let mut j: usize = 0;
    while j < 9
        invariant
            0 <= j <= 9,
            u < 27,
            cells@.len() == j,
            forall|k: int| 0 <= k < j ==> cells@[k] == unit_cell(u as int, k),
        decreases 9 - j,
    {
        let cell: usize = if u < 9 {
            9 * u + j
        } else if u < 18 {
            9 * j + (u - 9)
        } else {
            (((u - 18) / 3) * 3 + j / 3) * 9 + ((u - 18) % 3) * 3 + j % 3
        };
        cells.push(cell);
        j += 1;
    }
    assert(cells@ =~= unit_cells(u as int));
    cells
}

/// Two boards that narrow each other are the same board.
pub proof fn lemma_narrows_antisymmetric(a: Seq<Cell>, b: Seq<Cell>)
    requires
        narrows(a, b),
        narrows(b, a),
    ensures
        a == b,
{
    assert forall|i: int| 0 <= i < a.len() implies a[i] == b[i] by {
        assert forall|d: int| 0 <= d < 64 implies has_bit(a[i].bits(), d) == has_bit(
            b[i].bits(),
            d,
        ) by {
            assert(a[i].has(d) == b[i].has(d));
        }
        crate::util::lemma_bits_equal(a[i].bits(), b[i].bits());
        crate::cell::lemma_cell_by_bits(a[i], b[i]);
    }
    assert(a =~= b);
}

/// What follows on a board follows on every board that narrows it.
pub proof fn lemma_derived_follow_narrows(after: Seq<Cell>, before: Seq<Cell>, cages: Seq<CageView>)
    requires
        narrows(after, before),
        after.len() == 81,
        derived_follow(before, cages),
    ensures
        derived_follow(after, cages),
{
    assert forall|g: Seq<int>|
        is_grid(g) && within(after, g) && #[trigger] meets_unique(cages, g) implies meets_all(
        cages,
        g,
    ) by {
        lemma_within_narrows(after, before, g);
    }
}

/// Every cage of distinct digits with one cell or none is settled on the board.
pub open spec fn settled(cells: Seq<Cell>, cages: Seq<CageView>) -> bool {
    forall|c: CageView| #[trigger] cages.contains(c) && c.uniqueness ==> tight(c, cells)
}

/// No cage of distinct digits has a hidden set: no cells of it, fewer than
/// all, hold as few digits between them as they are; so none of two cells or
/// more has a cell with one digit left.
pub open spec fn quiet(cells: Seq<Cell>, cages: Seq<CageView>) -> bool {
    forall|c: CageView| #[trigger] cages.contains(c) ==> unsettled(cells, c) && calm(cells, c)
}

/// In every cage of two cells with distinct digits, the digits of the two
/// cells complete each other to the sum.
pub open spec fn pairs_closed(cells: Seq<Cell>, cages: Seq<CageView>) -> bool {
    forall|c: CageView| #[trigger] cages.contains(c) ==> pair_closed(cells, c)
}

/// Nothing moves any more: the cages of one cell are settled, no cage has a
/// hidden set, and the pairs are complete.
pub open spec fn stuck(cells: Seq<Cell>, cages: Seq<CageView>) -> bool {
    settled(cells, cages) && quiet(cells, cages) && pairs_closed(cells, cages)
}

/// The number of the first `n` cells that have more than one digit left.
pub open spec fn open_cells(cells: Seq<Cell>, n: int) -> int
    decreases n,
{
    if n <= 0 {
        0
    } else {
        open_cells(cells, n - 1) + if popcount(cells[n - 1].bits()) != 1 { 1int } else { 0int }
    }
}

/// A board that narrows another has no more open cells; and fewer, where a
/// cell that was open has one digit left.
pub proof fn lemma_open_cells_narrows(after: Seq<Cell>, before: Seq<Cell>, n: int, fixed: int)
    requires
        narrows(after, before),
        board_wf(after),
        0 <= n <= 81,
    ensures
        0 <= open_cells(after, n) <= open_cells(before, n),
        0 <= fixed < n && popcount(before[fixed].bits()) != 1 && popcount(after[fixed].bits()) == 1
            ==> open_cells(after, n) < open_cells(before, n),
    decreases n,
{
    if n > 0 {
        lemma_open_cells_narrows(after, before, n - 1, fixed);
        let a = after[n - 1];
        let b = before[n - 1];
        if popcount(b.bits()) == 1 {
            let p = crate::util::lemma_single_bit_position(b.bits());
            assert(a.wf());
            let w = crate::util::lemma_nonzero_has_bit(a.bits());
            assert(a.has(w));
            assert(b.has(w));
            assert forall|d: int| 0 <= d < 64 implies has_bit(a.bits(), d) == has_bit(
                b.bits(),
                d,
            ) by {
                if a.has(d) {
                    assert(b.has(d));
                }
            }
            crate::util::lemma_bits_equal(a.bits(), b.bits());
        }
    }
}

/// A board has no open cell exactly if every cell has one digit left.
pub proof fn lemma_open_cells_zero(cells: Seq<Cell>, n: int)
    requires
        0 <= n,
    ensures
        open_cells(cells, n) == 0 <==> forall|i: int|
            0 <= i < n ==> popcount((#[trigger] cells[i]).bits()) == 1,
    decreases n,
{
    if n > 0 {
        lemma_open_cells_nonnegative(cells, n - 1);
        lemma_open_cells_zero(cells, n - 1);
        if forall|i: int| 0 <= i < n ==> popcount((#[trigger] cells[i]).bits()) == 1 {
            assert(popcount(cells[n - 1].bits()) == 1);
        }
    }
}

proof fn lemma_open_cells_nonnegative(cells: Seq<Cell>, n: int)
    ensures
        open_cells(cells, n) >= 0,
    decreases n,
{
    if n > 0 {
        lemma_open_cells_nonnegative(cells, n - 1);
    }
}

/// What a cage counts towards the weight of a list: its cells but one.
pub open spec fn cage_weight(cage: CageView) -> int {
    if cage.cells.len() >= 1 {
        cage.cells.len() - 1
    } else {
        0
    }
}

/// The weight of the first `n` cages of a list.
pub open spec fn weight(cages: Seq<CageView>, n: int) -> int
    decreases n,
{
    if n <= 0 {
        0
    } else {
        weight(cages, n - 1) + cage_weight(cages[n - 1])
    }
}

/// The weight of a list.
pub open spec fn total_weight(cages: Seq<CageView>) -> int {
    weight(cages, cages.len() as int)
}

proof fn lemma_weight_agree(a: Seq<CageView>, b: Seq<CageView>, n: int)
    requires
        0 <= n <= a.len(),
        n <= b.len(),
        forall|i: int| 0 <= i < n ==> a[i] == b[i],
    ensures
        weight(a, n) == weight(b, n),
        weight(a, n) >= 0,
    decreases n,
{
    if n > 0 {
        lemma_weight_agree(a, b, n - 1);
    }
}

proof fn lemma_weight_shift(a: Seq<CageView>, b: Seq<CageView>, from: int, n: int, shift: int)
    requires
        0 <= from <= n <= a.len(),
        0 <= from + shift,
        n + shift <= b.len(),
        forall|i: int| from <= i < n ==> a[i] == b[i + shift],
    ensures
        weight(a, n) - weight(a, from) == weight(b, n + shift) - weight(b, from + shift),
    decreases n - from,
{
    if from < n {
        lemma_weight_shift(a, b, from, n - 1, shift);
    }
}

/// Putting a cage in adds its weight; taking one out takes its weight off.
pub proof fn lemma_weight_changes(cages: Seq<CageView>, pos: int, cage: CageView)
    requires
        0 <= pos <= cages.len(),
    ensures
        total_weight(cages.insert(pos, cage)) == total_weight(cages) + cage_weight(cage),
        pos < cages.len() ==> total_weight(cages.remove(pos)) == total_weight(cages) - cage_weight(
            cages[pos],
        ),
        total_weight(cages) >= 0,
{
    let n = cages.len() as int;
    let ins = cages.insert(pos, cage);
    lemma_weight_agree(cages, ins, pos);
    lemma_weight_shift(cages, ins, pos, n, 1);
    assert(weight(ins, pos + 1) == weight(ins, pos) + cage_weight(ins[pos]));
    lemma_weight_agree(cages, cages, n);
    if pos < n {
        let rem = cages.remove(pos);
        lemma_weight_agree(cages, rem, pos);
        lemma_weight_shift(cages, rem, pos + 1, n, -1);
        assert(weight(cages, pos + 1) == weight(cages, pos) + cage_weight(cages[pos]));
    }
}

/// The weight of a list after a cage was put in or taken out.
pub proof fn lemma_weight_with_without(cages: Seq<CageView>, cage: CageView)
    ensures
        total_weight(with_cage(cages, cage)) <= total_weight(cages) + cage_weight(cage),
        cages.contains(cage) ==> total_weight(without_cage(cages, cage)) == total_weight(cages)
            - cage_weight(cage),
        total_weight(cages) >= 0,
{
    lemma_place_of(cages, cage, 0);
    lemma_weight_changes(cages, place_of(cages, cage, 0), cage);
    if cages.contains(cage) {
        let pos = cages.index_of(cage);
        lemma_weight_changes(cages, pos, cage);
    }
}

/// A grid meets the cages of a list exactly if it meets each cage that the list holds.
pub proof fn lemma_meets_members(cages: Seq<CageView>, g: Seq<int>)
    ensures
        meets_all(cages, g) <==> forall|c: CageView|
            #[trigger] cages.contains(c) ==> c.satisfied_by(g),
        meets_unique(cages, g) <==> forall|c: CageView|
            #[trigger] cages.contains(c) && c.uniqueness ==> c.satisfied_by(g),
{
    if meets_all(cages, g) {
        assert forall|c: CageView| #[trigger] cages.contains(c) implies c.satisfied_by(g) by {
            let i = choose|i: int| 0 <= i < cages.len() && cages[i] == c;
            assert(cages[i].satisfied_by(g));
        }
    }
    if forall|c: CageView| #[trigger] cages.contains(c) ==> c.satisfied_by(g) {
        assert forall|i: int| 0 <= i < cages.len() implies (#[trigger] cages[i]).satisfied_by(
            g,
        ) by {
            assert(cages.contains(cages[i]));
        }
    }
    if meets_unique(cages, g) {
        assert forall|c: CageView| #[trigger] cages.contains(c)
            && c.uniqueness implies c.satisfied_by(
            g,
        ) by {
            let i = choose|i: int| 0 <= i < cages.len() && cages[i] == c;
            assert(cages[i].uniqueness ==> cages[i].satisfied_by(g));
        }
    }
    if forall|c: CageView| #[trigger] cages.contains(c) && c.uniqueness ==> c.satisfied_by(g) {
        assert forall|i: int|
            0 <= i < cages.len() && (#[trigger] cages[i]).uniqueness implies cages[i].satisfied_by(
            g,
        ) by {
            assert(cages.contains(cages[i]));
        }
    }
}

/// A cage that falls into two parts on a board does so on every board that narrows it.
pub proof fn lemma_splits_narrows(
    cage: CageView,
    first: CageView,
    second: CageView,
    before: Seq<Cell>,
    after: Seq<Cell>,
)
    requires
        splits(cage, first, second, before),
        narrows(after, before),
        after.len() == 81,
    ensures
        splits(cage, first, second, after),
{
    let (sel, values) = choose|sel: u64, values: u64|
        crate::partition::splits_by(cage, first, second, before, sel, values);
    assert forall|k: int, d: int|
        0 <= k < cage.cells.len() && (#[trigger] after[cage.cells[k] as int].has(
            d,
        )) implies before[cage.cells[k] as int].has(d) by {
        assert(cage.cells[k] < 81);
    }
    assert(crate::partition::splits_by(cage, first, second, after, sel, values));
}

/// A cage settled on a board is settled on every well-formed board that narrows it.
pub proof fn lemma_tight_narrows(cage: CageView, before: Seq<Cell>, after: Seq<Cell>)
    requires
        tight(cage, before),
        cage.wf(),
        narrows(after, before),
        after.len() == 81,
    ensures
        tight(cage, after),
{
    if cage.cells.len() == 1 {
        assert(cage.cells[0] < 81);
        assert forall|d: int| (#[trigger] after[cage.cells[0] as int].has(d)) implies d
            == cage.sum by {
            assert(before[cage.cells[0] as int].has(d));
        }
    }
}

/// Settled cages stay settled as the board narrows.
pub proof fn lemma_settled_narrows(cages: Seq<CageView>, before: Seq<Cell>, after: Seq<Cell>)
    requires
        settled(before, cages),
        cages_wf(cages),
        narrows(after, before),
        after.len() == 81,
    ensures
        settled(after, cages),
{
    assert forall|c: CageView| #[trigger] cages.contains(c) && c.uniqueness implies tight(
        c,
        after,
    ) by {
        let i = choose|i: int| 0 <= i < cages.len() && cages[i] == c;
        assert(cages[i].wf());
        lemma_tight_narrows(c, before, after);
    }
}

/// A cage to be replaced by the two parts into which it falls.
pub struct Replacement {
    pub whole: Cage,
    pub first: Cage,
    pub second: Cage,
}

impl Replacement {
    /// The cage is one of the list, and on this board it falls into the two
    /// parts, which are well-formed and, where they have one cell, settled.
    pub open spec fn fits(&self, cells: Seq<Cell>, cages: Seq<CageView>) -> bool {
        &&& cages.contains(self.whole@)
        &&& self.whole@.wf()
        &&& splits(self.whole@, self.first@, self.second@, cells)
        &&& self.first@.wf()
        &&& self.second@.wf()
        &&& tight(self.first@, cells)
        &&& tight(self.second@, cells)
    }
}

/// The parts of a cage have its cells between them, and weigh less than it.
pub proof fn lemma_split_weight(cage: CageView, first: CageView, second: CageView, cells: Seq<Cell>)
    requires
        splits(cage, first, second, cells),
    ensures
        cage_weight(first) + cage_weight(second) < cage_weight(cage),
        first.uniqueness,
        second.uniqueness,
{
    let (sel, values) = choose|sel: u64, values: u64|
        splits_by(cage, first, second, cells, sel, values);
    crate::partition::lemma_picked_len(cage.cells, sel, cage.cells.len() as int);
}

/// Replacing a cage by the parts into which it falls on this board changes
/// neither which grids within the board meet the cages, nor what follows
/// from the cages with distinct digits; and the list weighs less.
pub proof fn lemma_replace(
    cages: Seq<CageView>,
    cells: Seq<Cell>,
    whole: CageView,
    first: CageView,
    second: CageView,
)
    requires
        cages_wf(cages),
        cages.contains(whole),
        splits(whole, first, second, cells),
        first.wf(),
        second.wf(),
    ensures
        ({
            let after = with_cage(with_cage(without_cage(cages, whole), first), second);
            &&& cages_wf(after)
            &&& forall|c: CageView|
                after.contains(c) <==> (cages.contains(c) && c != whole) || c == first || c
                    == second
            &&& forall|g: Seq<int>|
                is_grid(g) && within(cells, g) ==> (meets_all(after, g) <==> meets_all(cages, g))
            &&& forall|g: Seq<int>|
                is_grid(g) && within(cells, g) && meets_unique(after, g) ==> meets_unique(cages, g)
            &&& total_weight(after) < total_weight(cages)
        }),
{
    let c1 = without_cage(cages, whole);
    let c2 = with_cage(c1, first);
    let after = with_cage(c2, second);
    lemma_without_cage(cages, whole);
    lemma_with_cage(c1, first);
    lemma_with_cage(c2, second);
    lemma_weight_with_without(cages, whole);
    lemma_weight_with_without(c1, first);
    lemma_weight_with_without(c2, second);
    lemma_split_weight(whole, first, second, cells);
    assert forall|g: Seq<int>| is_grid(g) && within(cells, g) implies (meets_all(after, g)
        <==> meets_all(cages, g)) by {
        lemma_split_equivalent(whole, first, second, cells, g);
    }
    assert forall|g: Seq<int>|
        is_grid(g) && within(cells, g) && meets_unique(after, g) implies meets_unique(
        cages,
        g,
    ) by {
        lemma_meets_members(after, g);
        lemma_meets_members(cages, g);
        lemma_split_equivalent(whole, first, second, cells, g);
        assert forall|c: CageView| #[trigger] cages.contains(c)
            && c.uniqueness implies c.satisfied_by(
            g,
        ) by {
            if c == whole {
                assert(after.contains(first));
                assert(after.contains(second));
            } else {
                assert(after.contains(c));
            }
        }
    }
}

/// Some digit that the cell may hold.
pub open spec fn digit_of(cell: Cell) -> int {
    choose|d: int| cell.has(d)
}

/// A grid within the board; where every cell has one digit left, the only one.
pub open spec fn grid_of(cells: Seq<Cell>) -> Seq<int> {
    Seq::new(81, |i: int| digit_of(cells[i]))
}

/// Every cell has one digit left.
pub open spec fn all_solved(cells: Seq<Cell>) -> bool {
    forall|i: int| 0 <= i < 81 ==> popcount((#[trigger] cells[i]).bits()) == 1
}

/// `grid_of` is a grid within the board, and the only one where the board is solved.
pub proof fn lemma_grid_of(cells: Seq<Cell>)
    requires
        board_wf(cells),
    ensures
        is_grid(grid_of(cells)),
        within(cells, grid_of(cells)),
        all_solved(cells) ==> forall|g: Seq<int>|
            is_grid(g) && within(cells, g) ==> g == grid_of(cells),
{
    let g0 = grid_of(cells);
    assert forall|i: int| 0 <= i < 81 implies 1 <= #[trigger] g0[i] <= 9 && cells[i].has(g0[i]) by {
        assert(cells[i].wf());
        crate::cell::lemma_domain_digits(cells[i].bits());
        let w = crate::util::lemma_nonzero_has_bit(cells[i].bits());
        assert(cells[i].has(w));
    }
    if all_solved(cells) {
        assert forall|g: Seq<int>| is_grid(g) && within(cells, g) implies g == g0 by {
            assert forall|i: int| 0 <= i < 81 implies g[i] == g0[i] by {
                assert(cells[i].has(g[i]));
                assert(cells[i].has(g0[i]));
                let p = crate::util::lemma_single_bit_position(cells[i].bits());
            }
            assert(g =~= g0);
        }
    }
}

/// On a solved board on which the small cages are settled and no larger cage
/// of distinct digits is left, the grid of the board meets every cage.
pub proof fn lemma_solved_meets(cells: Seq<Cell>, cages: Seq<CageView>)
    requires
        board_wf(cells),
        cages_wf(cages),
        derived_follow(cells, cages),
        settled(cells, cages),
        quiet(cells, cages),
        all_solved(cells),
    ensures
        is_solution(cells, cages, grid_of(cells)),
{
    let g = grid_of(cells);
    lemma_grid_of(cells);
    assert forall|i: int| 0 <= i < cages.len() && (
        #[trigger] cages[i]).uniqueness implies cages[i].satisfied_by(
        g,
    ) by {
        let c = cages[i];
        assert(cages.contains(c));
        assert(c.wf());
        assert(unsettled(cells, c));
        assert(tight(c, cells));
        if c.cells.len() >= 2 {
            assert(c.cells[0] < 81);
            assert(popcount(cells[c.cells[0] as int].bits()) != 1);
        } else if c.cells.len() == 1 {
            assert(c.cells[0] < 81);
            assert(cells[c.cells[0] as int].has(g[c.cells[0] as int]));
            reveal_with_fuel(cells_sum, 2);
        }
    }
    assert(meets_unique(cages, g));
}

/// The number of digits that the first `n` cells of the board may hold, all told.
pub open spec fn board_freedom(cells: Seq<Cell>, n: int) -> int
    decreases n,
{
    if n <= 0 {
        0
    } else {
        board_freedom(cells, n - 1) + popcount(cells[n - 1].bits())
    }
}

/// A board that narrows another has no more freedom, and less where it differs.
pub proof fn lemma_freedom_narrows(after: Seq<Cell>, before: Seq<Cell>, n: int)
    requires
        narrows(after, before),
        0 <= n <= after.len(),
    ensures
        0 <= board_freedom(after, n) <= board_freedom(before, n),
        board_freedom(after, n) == board_freedom(before, n) ==> forall|i: int|
            0 <= i < n ==> after[i] == before[i],
    decreases n,
{
    if n > 0 {
        lemma_freedom_narrows(after, before, n - 1);
        let a = after[n - 1].bits();
        let b = before[n - 1].bits();
        assert forall|d: int| 0 <= d < 64 && has_bit(a, d) implies has_bit(b, d) by {
            assert(after[n - 1].has(d));
        }
        crate::util::lemma_count_subset(a, b, 64);
        crate::util::lemma_count_bits_bounds(a, 64);
        if board_freedom(after, n) == board_freedom(before, n) {
            crate::util::lemma_bits_equal(a, b);
            crate::cell::lemma_cell_by_bits(after[n - 1], before[n - 1]);
            assert forall|i: int| 0 <= i < n implies after[i] == before[i] by {
                if i < n - 1 {
                }
            }
        }
    }
}

/// The number of nested guesses after which the search gives up.
pub const RECURSION_LIMIT: usize = 10;

/// Some cage of distinct digits holds both cells.
pub open spec fn linked(cages: Seq<CageView>, i: int, j: int) -> bool {
    exists|c: int|
        0 <= c < cages.len() && (#[trigger] cages[c]).uniqueness && cages[c].cells.contains(
            i as usize,
        ) && cages[c].cells.contains(j as usize)
}

/// The number of cells below `n` that share a cage of distinct digits with the cell `i`.
pub open spec fn peers(cages: Seq<CageView>, i: int, n: int) -> int
    decreases n,
{
    if n <= 0 {
        0
    } else {
        peers(cages, i, n - 1) + if linked(cages, i, n - 1) { 1int } else { 0int }
    }
}

/// By what the cell to guess at is chosen: the number of its peers, divided
/// by the number of digits it may hold.
pub open spec fn score(cells: Seq<Cell>, cages: Seq<CageView>, i: int) -> int {
    peers(cages, i, 81) / popcount(cells[i].bits())
}

/// The solved boards of the list are solutions of the puzzle, each a different one.
pub open spec fn results_ok(list: Seq<Puzzle>, cells: Seq<Cell>, cages: Seq<CageView>) -> bool {
    &&& forall|i: int|
        0 <= i < list.len() ==> (#[trigger] list[i]).wf() && all_solved(list[i].cells())
            && is_solution(cells, cages, grid_of(list[i].cells()))
    &&& forall|i: int, j: int|
        0 <= i < j < list.len() ==> grid_of((#[trigger] list[i]).cells()) != grid_of(
            (#[trigger] list[j]).cells(),
        )
}

/// The grid is that of one of the boards of the list.
pub open spec fn lists(list: Seq<Puzzle>, g: Seq<int>) -> bool {
    exists|i: int| 0 <= i < list.len() && grid_of((#[trigger] list[i]).cells()) == g
}

/// The boards come in the order of the digits that they give to the cell
/// `c`, the least first.
pub open spec fn ascending_at(list: Seq<Puzzle>, c: int) -> bool {
    forall|i: int, j: int|
        0 <= i < j < list.len() ==> grid_of((#[trigger] list[i]).cells())[c] <= grid_of(
            (#[trigger] list[j]).cells(),
        )[c]
}

/// The boards come in the order of the digits of some cell of the board.
pub open spec fn in_guess_order(list: Seq<Puzzle>) -> bool {
    exists|c: int| 0 <= c < 81 && #[trigger] ascending_at(list, c)
}

/// The boards that a search gives for a puzzle with the rules of Sudoku
/// keep those rules: no row, column or box holds a digit twice.
pub proof fn lemma_results_keep_sudoku(list: Seq<Puzzle>, cells: Seq<Cell>, cages: Seq<CageView>)
    requires
        results_ok(list, cells, cages),
        has_sudoku_rules(cages),
    ensures
        forall|i: int| 0 <= i < list.len() ==> sudoku_valid(grid_of((#[trigger] list[i]).cells())),
{
    assert forall|i: int| 0 <= i < list.len() implies sudoku_valid(
        grid_of((#[trigger] list[i]).cells()),
    ) by {
        lemma_sudoku_rules(cages, grid_of(list[i].cells()));
    }
}

/// Two searches of one puzzle that are both complete list the same grids.
/// Nothing is said of the order in which they list them.
pub proof fn lemma_complete_searches_agree(
    first: Seq<Puzzle>,
    second: Seq<Puzzle>,
    cells: Seq<Cell>,
    cages: Seq<CageView>,
)
    requires
        results_ok(first, cells, cages),
        results_ok(second, cells, cages),
        forall|g: Seq<int>| is_solution(cells, cages, g) ==> lists(first, g),
        forall|g: Seq<int>| is_solution(cells, cages, g) ==> lists(second, g),
    ensures
        forall|g: Seq<int>| lists(first, g) <==> lists(second, g),
{
    assert forall|g: Seq<int>| lists(first, g) <==> lists(second, g) by {
        if lists(first, g) {
            let i = choose|i: int|
                0 <= i < first.len() && grid_of((#[trigger] first[i]).cells()) == g;
            assert(is_solution(cells, cages, grid_of(first[i].cells())));
        }
        if lists(second, g) {
            let i = choose|i: int|
                0 <= i < second.len() && grid_of((#[trigger] second[i]).cells()) == g;
            assert(is_solution(cells, cages, grid_of(second[i].cells())));
        }
    }
}

/// A complete search of a puzzle with one solution and no other gives one
/// board, which holds that solution: two such searches give the same grids
/// in the same order.
pub proof fn lemma_one_solution_one_board(
    list: Seq<Puzzle>,
    cells: Seq<Cell>,
    cages: Seq<CageView>,
    g: Seq<int>,
)
    requires
        results_ok(list, cells, cages),
        forall|h: Seq<int>| is_solution(cells, cages, h) ==> lists(list, h),
        is_solution(cells, cages, g),
        forall|h: Seq<int>| is_solution(cells, cages, h) ==> h == g,
    ensures
        list.len() == 1,
        grid_of(list[0].cells()) == g,
{
    assert(lists(list, g));
    let i = choose|i: int| 0 <= i < list.len() && grid_of((#[trigger] list[i]).cells()) == g;
    if list.len() > 1 {
        let j = if i == 0 { 1int } else { 0int };
        assert(is_solution(cells, cages, grid_of(list[j].cells())));
        if j < i {
            assert(grid_of(list[j].cells()) != grid_of(list[i].cells()));
        } else {
            assert(grid_of(list[i].cells()) != grid_of(list[j].cells()));
        }
    }
    assert(is_solution(cells, cages, grid_of(list[0].cells())));
}

/// A search of a puzzle without a solution gives no board.
pub proof fn lemma_no_solution_no_board(list: Seq<Puzzle>, cells: Seq<Cell>, cages: Seq<CageView>)
    requires
        results_ok(list, cells, cages),
        forall|h: Seq<int>| !is_solution(cells, cages, h),
    ensures
        list.len() == 0,
{
    if list.len() > 0 {
        assert(is_solution(cells, cages, grid_of(list[0].cells())));
    }
}

/// What a search found: the solved boards, and whether they are all there are.
pub struct SearchOutcome {
    pub solutions: Vec<Puzzle>,
    pub complete: bool,
}

/// What the result of a search says, apart from how it is stored.
pub open spec fn told(r: Result<SearchOutcome, SolveError>) -> Outcome {
    match r {
        Ok(found) => Outcome::Found {
            boards: positions(found.solutions@),
            complete: found.complete,
        },
        Err(SolveError::RecursionExhausted) => Outcome::Exhausted,
        Err(_) => Outcome::Refuted,
    }
}

/// The cage that an entry of sum and cells stands for: its cells in
/// ascending order, with distinct digits.
pub open spec fn input_cage(entry: (usize, Vec<usize>)) -> CageView {
    CageView { cells: sorted(entry.1@), sum: entry.0 as int, uniqueness: true }
}

/// Every entry names only cells of the board, and none twice.
pub open spec fn inputs_wf(inputs: Seq<(usize, Vec<usize>)>) -> bool {
    forall|i: int| 0 <= i < inputs.len() ==> input_cage(#[trigger] inputs[i]).wf()
}

/// The list with the cages of the first `n` entries put in.
pub open spec fn with_inputs(cages: Seq<CageView>, inputs: Seq<(usize, Vec<usize>)>, n: int) -> Seq<
    CageView,
>
    decreases n,
{
    if n <= 0 {
        cages
    } else {
        with_cage(with_inputs(cages, inputs, n - 1), input_cage(inputs[n - 1]))
    }
}

/// The list with the first `n` cages of `more` put in, each at its place.
pub open spec fn with_cages(cages: Seq<CageView>, more: Seq<CageView>, n: int) -> Seq<CageView>
    decreases n,
{
    if n <= 0 {
        cages
    } else {
        with_cage(with_cages(cages, more, n - 1), more[n - 1])
    }
}

/// The list with the cages put in that follow from its cages of nine cells
/// and its smaller cages.
pub open spec fn with_derived(cages: Seq<CageView>) -> Seq<CageView> {
    let more = derived_all(cages, cages.len() as int);
    with_cages(cages, more, more.len() as int)
}

/// Putting in the cages of the entries is putting in the cages of a list
/// that holds them one by one.
pub proof fn lemma_inputs_as_cages(
    cages: Seq<CageView>,
    inputs: Seq<(usize, Vec<usize>)>,
    more: Seq<CageView>,
    n: int,
)
    requires
        0 <= n <= inputs.len(),
        n <= more.len(),
        forall|i: int| 0 <= i < n ==> #[trigger] more[i] == input_cage(inputs[i]),
    ensures
        with_inputs(cages, inputs, n) == with_cages(cages, more, n),
    decreases n,
{
    if n > 0 {
        lemma_inputs_as_cages(cages, inputs, more, n - 1);
    }
}

/// `c` is the cage of one of the first `n` entries.
pub open spec fn from_input(inputs: Seq<(usize, Vec<usize>)>, n: int, c: CageView) -> bool {
    exists|i: int| 0 <= i < n && c == input_cage(#[trigger] inputs[i])
}

/// The grid meets the cages of the first `n` entries.
pub open spec fn inputs_met(inputs: Seq<(usize, Vec<usize>)>, n: int, g: Seq<int>) -> bool {
    forall|i: int| 0 <= i < n ==> input_cage(#[trigger] inputs[i]).satisfied_by(g)
}

/// What the list holds once the cages of the entries are put in.
pub proof fn lemma_with_inputs(cages: Seq<CageView>, inputs: Seq<(usize, Vec<usize>)>, n: int)
    requires
        cages_wf(cages),
        0 <= n <= inputs.len(),
        forall|i: int| 0 <= i < n ==> input_cage(#[trigger] inputs[i]).wf(),
    ensures
        cages_wf(with_inputs(cages, inputs, n)),
        forall|c: CageView|
            #[trigger] with_inputs(cages, inputs, n).contains(c) <==> cages.contains(c)
                || from_input(inputs, n, c),
        forall|g: Seq<int>| #[trigger]
            meets_all(with_inputs(cages, inputs, n), g) <==> meets_all(cages, g) && inputs_met(
                inputs,
                n,
                g,
            ),
        forall|g: Seq<int>| #[trigger]
            meets_unique(with_inputs(cages, inputs, n), g) ==> meets_unique(cages, g)
                && inputs_met(inputs, n, g),
    decreases n,
{
    if n > 0 {
        lemma_with_inputs(cages, inputs, n - 1);
        let prev = with_inputs(cages, inputs, n - 1);
        let cage = input_cage(inputs[n - 1]);
        let cur = with_inputs(cages, inputs, n);
        lemma_with_cage(prev, cage);
        assert forall|c: CageView|
            cur.contains(c) <==> cages.contains(c) || from_input(inputs, n, c) by {
            assert(prev.contains(c) <==> cages.contains(c) || from_input(inputs, n - 1, c));
            assert(cur.contains(c) <==> prev.contains(c) || c == cage);
            if from_input(inputs, n - 1, c) {
                let i = choose|i: int| 0 <= i < n - 1 && c == input_cage(#[trigger] inputs[i]);
                assert(0 <= i < n && c == input_cage(inputs[i]));
            }
            if from_input(inputs, n, c) {
                let i = choose|i: int| 0 <= i < n && c == input_cage(#[trigger] inputs[i]);
                if i < n - 1 {
                    assert(from_input(inputs, n - 1, c));
                }
            }
            if c == cage {
                assert(0 <= n - 1 < n && c == input_cage(inputs[n - 1]));
            }
        }
        assert forall|g: Seq<int>| inputs_met(inputs, n, g) <==> inputs_met(inputs, n - 1, g)
            && cage.satisfied_by(g) by {
            if inputs_met(inputs, n, g) {
                assert(input_cage(inputs[n - 1]).satisfied_by(g));
            }
        }
        assert forall|g: Seq<int>| meets_unique(cur, g) implies meets_unique(cages, g)
            && inputs_met(inputs, n, g) by {
            lemma_meets_members(cur, g);
            lemma_meets_members(prev, g);
            assert(cur.contains(cage));
            assert(cage.satisfied_by(g));
            assert forall|c: CageView| #[trigger] prev.contains(c)
                && c.uniqueness implies c.satisfied_by(
                g,
            ) by {
                assert(cur.contains(c));
            }
            assert(meets_unique(prev, g));
            assert(inputs_met(inputs, n - 1, g));
        }
    }
}

/// The grid meets the cage of every row, column and box.
pub open spec fn rules_met(g: Seq<int>) -> bool {
    forall|u: int| 0 <= u < 27 ==> (#[trigger] unit_cage(u)).satisfied_by(g)
}

/// The grid meets every written cage.
pub open spec fn written_met(cages: Seq<crate::io::SerializableCage>, g: Seq<int>) -> bool {
    forall|i: int| 0 <= i < cages.len() ==> written_cage(#[trigger] cages[i]).satisfied_by(g)
}

/// A grid that keeps the rules of Sudoku meets the cage of every row,
/// column and box: nine distinct digits add up to 45.
pub proof fn lemma_valid_meets_rules(g: Seq<int>)
    requires
        is_grid(g),
        sudoku_valid(g),
    ensures
        rules_met(g),
{
    assert forall|u: int| 0 <= u < 27 implies (#[trigger] unit_cage(u)).satisfied_by(g) by {
        lemma_unit_cells(u);
        assert(cells_distinct(g, unit_cells(u)));
        crate::grid::lemma_nine_distinct(g, unit_cells(u));
    }
}

/// The board on which every cell may hold every digit of 1 to 9.
pub open spec fn open_board() -> Seq<Cell> {
    Seq::new(81, |i: int| Cell::of_bits(ALL_DIGITS))
}

/// A board of 81 cells that may each hold every digit is the open board.
pub proof fn lemma_open_board_is(cells: Seq<Cell>)
    requires
        cells.len() == 81,
        forall|i: int| 0 <= i < 81 ==> (#[trigger] cells[i]).bits() == ALL_DIGITS,
    ensures
        cells == open_board(),
{
    crate::cell::lemma_of_bits(ALL_DIGITS);
    assert forall|i: int| 0 <= i < 81 implies cells[i] == open_board()[i] by {
        crate::cell::lemma_cell_by_bits(cells[i], Cell::of_bits(ALL_DIGITS));
    }
    assert(cells =~= open_board());
}

/// A board on which every cell may hold every digit has every grid within it.
pub proof fn lemma_open_board(cells: Seq<Cell>, g: Seq<int>)
    requires
        forall|i: int| 0 <= i < 81 ==> (#[trigger] cells[i]).bits() == ALL_DIGITS,
        is_grid(g),
    ensures
        within(cells, g),
{
    crate::cell::lemma_digit_mask();
    assert forall|i: int| 0 <= i < 81 implies (#[trigger] cells[i]).has(g[i]) by {
        assert(1 <= g[i] <= 9);
    }
}

/// The cage that a written cage stands for: its cells in ascending order,
/// with distinct digits.
pub open spec fn written_cage(cage: crate::io::SerializableCage) -> CageView {
    CageView { cells: sorted(cage.cell_indices@), sum: cage.sum as int, uniqueness: true }
}

/// The cages that the written cages stand for, in the order in which they are written.
pub open spec fn written_cages(cages: Seq<crate::io::SerializableCage>) -> Seq<CageView> {
    Seq::new(cages.len(), |i: int| written_cage(cages[i]))
}

/// Every written cage names only cells of the board, and none twice.
pub open spec fn written_wf(cages: Seq<crate::io::SerializableCage>) -> bool {
    forall|i: int| 0 <= i < cages.len() ==> written_cage(#[trigger] cages[i]).wf()
}

/// The cages of the rules of Sudoku with the written cages put in.
pub open spec fn written_base(cages: Seq<crate::io::SerializableCage>) -> Seq<CageView> {
    with_cages(rules(), written_cages(cages), cages.len() as int)
}

/// The number of cells of each cage, in the order of the cages.
pub open spec fn cage_sizes(cages: Seq<CageView>) -> Seq<usize> {
    Seq::new(cages.len(), |i: int| cages[i].cells.len() as usize)
}

/// The number of cells of the smallest of the first `n` cages that hold the
/// cell, or 9 where that is less or no cage holds it.
pub open spec fn least_cage_size(cages: Seq<CageView>, n: int, cell: usize) -> int
    decreases n,
{
    if n <= 0 {
        9
    } else if cages[n - 1].cells.contains(cell) && cages[n - 1].cells.len() < least_cage_size(
        cages,
        n - 1,
        cell,
    ) {
        cages[n - 1].cells.len() as int
    } else {
        least_cage_size(cages, n - 1, cell)
    }
}

/// For each cell of the board, the number of cells of the smallest cage that holds it.
pub open spec fn least_cage_sizes(cages: Seq<CageView>) -> Seq<usize> {
    Seq::new(81, |c: int| least_cage_size(cages, cages.len() as int, c as usize) as usize)
}

/// A mask that holds the digit `d` and nothing but `d` is the mask of `d` alone.
proof fn lemma_domain_of_one(bits: u64, d: int)
    requires
        0 <= d < 64,
        has_bit(bits, d),
        forall|e: int| has_bit(bits, e) ==> e == d,
    ensures
        bits == 1u64 << (d as u64),
{
    crate::util::lemma_bit_shift(0, d);
    crate::util::lemma_bits_equal(bits, 1u64 << (d as u64));
}

/// The board of a Killer Sudoku with its cages.
#[derive(Clone)]
pub struct Puzzle {
    board: [Cell; 81],
    cages: Vec<Cage>,
}

impl Puzzle {
    /// The cells of the board.
    pub closed spec fn cells(&self) -> Seq<Cell> {
        self.board@
    }

    /// The cages of the puzzle, in their order.
    pub closed spec fn cages(&self) -> Seq<CageView> {
        views(self.cages@)
    }

    /// The board and the cages are well-formed, no cage is there twice, and
    /// the cages that do not ask for distinct digits follow from those that do.
    pub open spec fn wf(&self) -> bool {
        &&& board_wf(self.cells())
        &&& cages_wf(self.cages())
        &&& derived_follow(self.cells(), self.cages())
    }

    /// The grid solves the puzzle.
    pub open spec fn solved_by(&self, g: Seq<int>) -> bool {
        is_solution(self.cells(), self.cages(), g)
    }

    /// A board on which every cell may hold every digit, with the cages of
    /// the nine rows, the nine columns and the nine boxes.
    pub fn new() -> (r: Self)
        ensures
            r.wf(),
            r.cells() == open_board(),
            forall|i: int| 0 <= i < 81 ==> (#[trigger] r.cells()[i]).bits() == ALL_DIGITS,
            r.cages() == rules(),
            has_sudoku_rules(r.cages()),
            forall|c: CageView|
                r.cages().contains(c) ==> exists|u: int| 0 <= u < 27 && c == #[trigger] unit_cage(
                    u),
    {
        let mut cages: Vec<Cage> = Vec::new();
        let mut u: usize = 0;
        assert(views(cages@) =~= Seq::<CageView>::empty());
        while u < 27
            invariant
                0 <= u <= 27,
                cages_wf(views(cages@)),
                views(cages@) == with_cages(Seq::empty(), unit_cages(), u as int),
                forall|v: int| 0 <= v < u ==> views(cages@).contains(#[trigger] unit_cage(v)),
                forall|c: CageView|
                    views(cages@).contains(c) ==> exists|v: int|
                        0 <= v < u && c == #[trigger] unit_cage(v),
            decreases 27 - u,
        {
            let cells = unit(u);
            proof {
                lemma_unit_cells(u as int);
                lemma_sorted_already(cells@);
                crate::partition::lemma_wf_distinct(cells@);
            }
            let cage = Cage::new(cells, 45, true);
            assert(cage@ == unit_cage(u as int));
            proof {
                lemma_with_cage(views(cages@), cage@);
            }
            let ghost before = views(cages@);
            insert_cage(&mut cages, cage);
            proof {
                assert forall|c: CageView| views(cages@).contains(c) implies exists|v: int|
                    0 <= v < u + 1 && c == #[trigger] unit_cage(v) by {
                    if before.contains(c) {
                        let v = choose|v: int| 0 <= v < u && c == #[trigger] unit_cage(v);
                        assert(0 <= v < u + 1 && c == unit_cage(v));
                    } else {
                        assert(c == unit_cage(u as int));
                    }
                }
            }
            u += 1;
        }
        let cell = Cell::default();
        let r = Puzzle { board: [cell; 81], cages };
        proof {
            lemma_open_board_is(r.cells());
            assert forall|g: Seq<int>|
                is_grid(g) && within(r.cells(), g) && #[trigger] meets_unique(
                    r.cages(),
                    g,
                ) implies meets_all(r.cages(), g) by {
                assert forall|i: int|
                    0 <= i < r.cages().len() implies (#[trigger] r.cages()[i]).satisfied_by(
                    g,
                ) by {
                    assert(r.cages().contains(r.cages()[i]));
                }
            }
        }
        r
    }

    /// Lets every cage of two cells with distinct digits narrow its cells by
    /// the digits that complete each other to the cage's sum. Says whether a
    /// cell changed.
    pub fn reduce_by_combination(&mut self) -> (r: Result<bool, SolveError>)
        requires
            old(self).wf(),
        ensures
            final(self).wf(),
            final(self).cages() == old(self).cages(),
            narrows(final(self).cells(), old(self).cells()),
            forall|g: Seq<int>| final(self).solved_by(g) <==> old(self).solved_by(g),
            r is Err ==> r == Err::<bool, SolveError>(SolveError::Contradiction),
            r is Err ==> forall|g: Seq<int>| !old(self).solved_by(g),
            r matches Ok(progress) ==> progress == (final(self).cells() != old(self).cells()),
            r == Ok::<bool, SolveError>(false) ==> pairs_closed(
                final(self).cells(),
                final(self).cages(),
            ),
            r is Err <==> pairs_pass(
                old(self).cages(),
                old(self).cells(),
                old(self).cages().len() as int,
            ) is None,
            r is Ok ==> pairs_pass(
                old(self).cages(),
                old(self).cells(),
                old(self).cages().len() as int,
            ) == Some(final(self).cells()),
    {
        let mut progress = false;
        let mut i: usize = 0;
        let ghost cages = self.cages();
        let ghost start = self.cells();
        while i < self.cages.len()
            invariant
                0 <= i <= self.cages.len(),
                self.cages() == cages,
                cages == old(self).cages(),
                start == old(self).cells(),
                cages_wf(cages),
                board_wf(start),
                derived_follow(start, cages),
                board_wf(self.cells()),
                narrows(self.cells(), start),
                forall|g: Seq<int>|
                    is_solution(self.cells(), cages, g) <==> is_solution(start, cages, g),
                progress == (self.cells() != start),
                !progress ==> forall|j: int| 0 <= j < i ==> pair_closed(start, #[trigger] cages[j]),
                pairs_pass(cages, start, i as int) == Some(self.cells()),
            decreases self.cages.len() - i,
        {
            let ghost prev = self.cells();
            let ghost cage = cages[i as int];
            let step = self.cages[i].restrict_by_combination(&mut self.board);
            assert(self.cages@[i as int]@ == cage);
            proof {
                lemma_narrows_transitive(self.cells(), prev, start);
                assert forall|g: Seq<int>| is_solution(prev, cages, g) implies within(
                    self.cells(),
                    g,
                ) by {
                    assert(cages[i as int].satisfied_by(g));
                }
                assert forall|g: Seq<int>| is_solution(self.cells(), cages, g) implies within(
                    prev,
                    g,
                ) by {
                    lemma_within_narrows(self.cells(), prev, g);
                }
            }
            match step {
                Ok(changed) => {
                    if changed {
                        progress = true;
                    }
                    proof {
                        if self.cells() == start && prev != start {
                            lemma_narrows_antisymmetric(prev, start);
                        }
                    }
                },
                Err(e) => {
                    proof {
                        assert forall|g: Seq<int>| !is_solution(start, cages, g) by {
                            if is_solution(start, cages, g) {
                                assert(is_solution(prev, cages, g));
                                assert(cage.satisfied_by(g));
                            }
                        }
                        lemma_derived_follow_narrows(self.cells(), start, cages);
                        assert(pairs_pass(cages, start, i + 1) is None);
                        lemma_pass_fails(cages, start, i + 1, cages.len() as int);
                    }
                    return Err(e);
                },
            }
            i += 1;
        }
        proof {
            lemma_derived_follow_narrows(self.cells(), start, cages);
            if !progress {
                assert forall|c: CageView| #[trigger] cages.contains(c) implies pair_closed(
                    self.cells(),
                    c,
                ) by {
                    let j = choose|j: int| 0 <= j < cages.len() && cages[j] == c;
                    assert(pair_closed(start, cages[j]));
                }
            }
        }
        Ok(progress)
    }

    /// Goes through the cages once and lets each look for a hidden set. The
    /// cells are narrowed as sets are found; the cages stay, and the
    /// replacements that are due come back as a list.
    fn partition_pass(&mut self) -> (r: Result<Vec<Replacement>, SolveError>)
        requires
            old(self).wf(),
            settled(old(self).cells(), old(self).cages()),
        ensures
            final(self).wf(),
            final(self).cages() == old(self).cages(),
            narrows(final(self).cells(), old(self).cells()),
            settled(final(self).cells(), final(self).cages()),
            forall|g: Seq<int>| final(self).solved_by(g) <==> old(self).solved_by(g),
            r is Err ==> r == Err::<Vec<Replacement>, SolveError>(SolveError::Contradiction)
                && forall|g: Seq<int>| !old(self).solved_by(g),
            r matches Ok(list) ==> (forall|k: int|
                0 <= k < list@.len() ==> (#[trigger] list@[k]).fits(
                    final(self).cells(),
                    final(self).cages(),
                )) && (forall|j: int, k: int|
                0 <= j < k < list@.len() ==> (#[trigger] list@[j]).whole@ != (
                #[trigger] list@[k]).whole@) && (list@.len() == 0 ==> final(self).cells() == old(
                    self).cells() && quiet(final(self).cells(), final(self).cages())),
            r is Err <==> hidden_pass(
                old(self).cages(),
                old(self).cells(),
                old(self).cages().len() as int,
            ) is None,
            r matches Ok(list) ==> hidden_pass(
                old(self).cages(),
                old(self).cells(),
                old(self).cages().len() as int,
            ) == Some((final(self).cells(), swaps(list@))),
    {
        let mut list: Vec<Replacement> = Vec::new();
        let ghost mut origin: Seq<int> = Seq::empty();
        let mut i: usize = 0;
        let ghost cages = self.cages();
        let ghost start = self.cells();
        while i < self.cages.len()
            invariant
                0 <= i <= self.cages.len(),
                self.cages() == cages,
                cages == old(self).cages(),
                start == old(self).cells(),
                cages_wf(cages),
                board_wf(start),
                derived_follow(start, cages),
                settled(start, cages),
                board_wf(self.cells()),
                narrows(self.cells(), start),
                forall|g: Seq<int>|
                    is_solution(self.cells(), cages, g) <==> is_solution(start, cages, g),
                origin.len() == list@.len(),
                forall|k: int|
                    0 <= k < list@.len() ==> (#[trigger] list@[k]).fits(self.cells(), cages),
                forall|k: int|
                    0 <= k < list@.len() ==> 0 <= #[trigger] origin[k] < i && list@[k].whole@
                        == cages[origin[k]],
                forall|j: int, k: int|
                    0 <= j < k < list@.len() ==> (#[trigger] origin[j]) < (#[trigger] origin[k]),
                list@.len() == 0 ==> self.cells() == start && forall|j: int|
                    0 <= j < i ==> unsettled(start, #[trigger] cages[j]) && calm(start, cages[j]),
                hidden_pass(cages, start, i as int) == Some((self.cells(), swaps(list@))),
            decreases self.cages.len() - i,
        {
            let ghost prev = self.cells();
            let ghost cage = cages[i as int];
            let ghost found = swaps(list@);
            let step = self.cages[i].check_for_partitions(&mut self.board);
            assert(self.cages@[i as int]@ == cage);
            proof {
                lemma_narrows_transitive(self.cells(), prev, start);
                assert forall|g: Seq<int>| is_solution(prev, cages, g) implies within(
                    self.cells(),
                    g,
                ) by {
                    assert(cages[i as int].satisfied_by(g));
                }
                assert forall|g: Seq<int>| is_solution(self.cells(), cages, g) implies within(
                    prev,
                    g,
                ) by {
                    lemma_within_narrows(self.cells(), prev, g);
                }
                assert forall|k: int| 0 <= k < list@.len() implies (#[trigger] list@[k]).fits(
                    self.cells(),
                    cages,
                ) by {
                    let item = list@[k];
                    assert(item.fits(prev, cages));
                    lemma_splits_narrows(
                        item.whole@,
                        item.first@,
                        item.second@,
                        prev,
                        self.cells(),
                    );
                    lemma_tight_narrows(item.first@, prev, self.cells());
                    lemma_tight_narrows(item.second@, prev, self.cells());
                }
            }
            match step {
                Ok(None) => {},
                Ok(Some(parts)) => {
                    let whole = self.cages[i].duplicate();
                    proof {
                        assert(cages.contains(cages[i as int]));
                        origin = origin.push(i as int);
                    }
                    let ghost first = parts.0@;
                    let ghost second = parts.1@;
                    list.push(Replacement { whole, first: parts.0, second: parts.1 });
                    assert(swaps(list@) =~= found.push(Swap { whole: cage, first, second }));
                },
                Err(e) => {
                    proof {
                        assert forall|g: Seq<int>| !is_solution(start, cages, g) by {
                            if is_solution(start, cages, g) {
                                assert(is_solution(prev, cages, g));
                                assert(cage.satisfied_by(g));
                            }
                        }
                        lemma_derived_follow_narrows(self.cells(), start, cages);
                        lemma_settled_narrows(cages, start, self.cells());
                        assert(hidden_pass(cages, start, i + 1) is None);
                        lemma_pass_fails(cages, start, i + 1, cages.len() as int);
                    }
                    return Err(e);
                },
            }
            i += 1;
        }
        proof {
            lemma_derived_follow_narrows(self.cells(), start, cages);
            lemma_settled_narrows(cages, start, self.cells());
            assert forall|j: int, k: int| 0 <= j < k < list@.len() implies (
                #[trigger] list@[j]).whole@
                != (#[trigger] list@[k]).whole@ by {
                assert(origin[j] < origin[k]);
                assert(cages[origin[j]] != cages[origin[k]]);
            }
            if list@.len() == 0 {
                assert forall|c: CageView| #[trigger] cages.contains(c) implies unsettled(
                    self.cells(),
                    c,
                ) && calm(self.cells(), c) by {
                    let j = choose|j: int| 0 <= j < cages.len() && cages[j] == c;
                    assert(unsettled(start, cages[j]) && calm(start, cages[j]));
                }
            }
        }
        Ok(list)
    }

    /// Replaces each cage of the list by its two parts.
    fn apply_partitions(&mut self, list: &Vec<Replacement>)
        requires
            old(self).wf(),
            settled(old(self).cells(), old(self).cages()),
            forall|k: int|
                0 <= k < list@.len() ==> (#[trigger] list@[k]).fits(
                    old(self).cells(),
                    old(self).cages(),
                ),
            forall|j: int, k: int|
                0 <= j < k < list@.len() ==> (#[trigger] list@[j]).whole@ != (
                #[trigger] list@[k]).whole@,
        ensures
            final(self).wf(),
            final(self).cells() == old(self).cells(),
            settled(final(self).cells(), final(self).cages()),
            forall|g: Seq<int>| final(self).solved_by(g) <==> old(self).solved_by(g),
            total_weight(final(self).cages()) + list@.len() <= total_weight(old(self).cages()),
            final(self).cages() == swapped(old(self).cages(), swaps(list@), list@.len() as int),
    {
        let ghost cells = self.cells();
        let ghost start = self.cages();
        let mut k: usize = 0;
        while k < list.len()
            invariant
                0 <= k <= list.len(),
                self.cages() == swapped(start, swaps(list@), k as int),
                self.cells() == cells,
                cells == old(self).cells(),
                start == old(self).cages(),
                board_wf(cells),
                cages_wf(self.cages()),
                settled(cells, self.cages()),
                forall|g: Seq<int>|
                    is_grid(g) && within(cells, g) ==> (meets_all(self.cages(), g) <==> meets_all(
                        start,
                        g,
                    )),
                forall|g: Seq<int>|
                    is_grid(g) && within(cells, g) && meets_unique(self.cages(), g)
                        ==> meets_unique(start, g),
                total_weight(self.cages()) + k <= total_weight(start),
                forall|j: int|
                    0 <= j < list@.len() ==> (#[trigger] list@[j]).whole@.wf() && splits(
                        list@[j].whole@,
                        list@[j].first@,
                        list@[j].second@,
                        cells,
                    ) && list@[j].first@.wf() && list@[j].second@.wf() && tight(
                        list@[j].first@,
                        cells,
                    ) && tight(list@[j].second@, cells),
                forall|j: int|
                    k <= j < list@.len() ==> self.cages().contains((#[trigger] list@[j]).whole@),
                forall|i: int, j: int|
                    0 <= i < j < list@.len() ==> (#[trigger] list@[i]).whole@ != (
                    #[trigger] list@[j]).whole@,
            decreases list.len() - k,
        {
            let ghost before = self.cages();
            let ghost item = list@[k as int];
            proof {
                assert(item.whole@.wf());
                lemma_replace(before, cells, item.whole@, item.first@, item.second@);
                lemma_without_cage(before, item.whole@);
                lemma_with_cage(without_cage(before, item.whole@), item.first@);
            }
            remove_cage(&mut self.cages, &list[k].whole);
            insert_cage(&mut self.cages, list[k].first.duplicate());
            insert_cage(&mut self.cages, list[k].second.duplicate());
            proof {
                let after = self.cages();
                lemma_split_weight(item.whole@, item.first@, item.second@, cells);
                assert forall|c: CageView| #[trigger] after.contains(c)
                    && c.uniqueness implies tight(
                    c,
                    cells,
                ) by {
                    if c != item.first@ && c != item.second@ {
                        assert(before.contains(c));
                    }
                }
                assert forall|j: int| k + 1 <= j < list@.len() implies after.contains(
                    (#[trigger] list@[j]).whole@,
                ) by {
                    assert(list@[k as int].whole@ != list@[j].whole@);
                    assert(before.contains(list@[j].whole@));
                }
            }
            k += 1;
        }
        proof {
            let after = self.cages();
            assert forall|g: Seq<int>|
                is_grid(g) && within(cells, g) && #[trigger] meets_unique(
                    after,
                    g,
                ) implies meets_all(after, g) by {
                assert(meets_unique(start, g));
            }
        }
    }

    /// Lets the cages look for hidden sets, and replaces those that fall in
    /// two by their parts, until no cage finds one. Says whether any cage
    /// was replaced.
    pub fn reduce_by_partition(&mut self) -> (r: Result<bool, SolveError>)
        requires
            old(self).wf(),
            settled(old(self).cells(), old(self).cages()),
        ensures
            final(self).wf(),
            narrows(final(self).cells(), old(self).cells()),
            settled(final(self).cells(), final(self).cages()),
            forall|g: Seq<int>| final(self).solved_by(g) <==> old(self).solved_by(g),
            r is Err ==> r == Err::<bool, SolveError>(SolveError::Contradiction),
            r is Err ==> forall|g: Seq<int>| !old(self).solved_by(g),
            r is Ok ==> quiet(final(self).cells(), final(self).cages()),
            r == Ok::<bool, SolveError>(false) ==> final(self).cells() == old(self).cells()
                && final(self).cages() == old(self).cages(),
            r is Err <==> split_all(old(self).cells(), old(self).cages()) is None,
            r is Ok ==> split_all(old(self).cells(), old(self).cages()) == Some(
                (Position { cells: final(self).cells(), cages: final(self).cages() }),
            ),
    {
        let mut progress = false;
        let ghost start = self.cells();
        loop
            invariant
                self.wf(),
                split_all(old(self).cells(), old(self).cages()) == split_all(
                    self.cells(),
                    self.cages(),
                ),
                start == old(self).cells(),
                narrows(self.cells(), start),
                settled(self.cells(), self.cages()),
                forall|g: Seq<int>| self.solved_by(g) <==> old(self).solved_by(g),
                !progress ==> self.cells() == old(self).cells() && self.cages() == old(
                    self).cages(),
            decreases total_weight(self.cages()),
        {
            let ghost prev = self.cells();
            let ghost weight_before = total_weight(self.cages());
            let list = match self.partition_pass() {
                Ok(list) => list,
                Err(e) => {
                    proof {
                        lemma_narrows_transitive(self.cells(), prev, start);
                    }
                    return Err(e);
                },
            };
            proof {
                lemma_narrows_transitive(self.cells(), prev, start);
                lemma_weight_with_without(self.cages(), self.cages()[0]);
            }
            if list.len() == 0 {
                return Ok(progress);
            }
            progress = true;
            self.apply_partitions(&list);
            proof {
                lemma_weight_with_without(self.cages(), self.cages()[0]);
            }
        }
    }

    /// Whether every cell has one digit left.
    pub fn is_solved(&self) -> (r: bool)
        ensures
            r == all_solved(self.cells()),
    {
        let mut i: usize = 0;
        while i < 81
            invariant
                0 <= i <= 81,
                forall|j: int| 0 <= j < i ==> popcount((#[trigger] self.cells()[j]).bits()) == 1,
            decreases 81 - i,
        {
            if self.board[i].get_solution().is_none() {
                return false;
            }
            i += 1;
        }
        true
    }

    /// Lets every cage of distinct digits narrow its cells to the digits
    /// that its size and sum allow, each cage in turn. Says whether a cell
    /// changed. Afterwards every cage of one cell is settled.
    pub fn reduce_by_uniform_combination(&mut self) -> (r: Result<bool, SolveError>)
        requires
            old(self).wf(),
        ensures
            final(self).wf(),
            final(self).cages() == old(self).cages(),
            narrows(final(self).cells(), old(self).cells()),
            forall|g: Seq<int>| final(self).solved_by(g) <==> old(self).solved_by(g),
            r is Err ==> r == Err::<bool, SolveError>(SolveError::Contradiction),
            r is Err ==> forall|g: Seq<int>| !old(self).solved_by(g),
            r matches Ok(progress) ==> progress == (final(self).cells() != old(self).cells()),
            r is Ok ==> settled(final(self).cells(), final(self).cages()),
            r is Err <==> uniform_pass(
                old(self).cages(),
                old(self).cells(),
                old(self).cages().len() as int,
            ) is None,
            r is Ok ==> uniform_pass(
                old(self).cages(),
                old(self).cells(),
                old(self).cages().len() as int,
            ) == Some(final(self).cells()),
    {
        let mut progress = false;
        let mut i: usize = 0;
        let ghost cages = self.cages();
        let ghost start = self.cells();
        while i < self.cages.len()
            invariant
                0 <= i <= self.cages.len(),
                self.cages() == cages,
                cages == old(self).cages(),
                start == old(self).cells(),
                cages_wf(cages),
                board_wf(start),
                derived_follow(start, cages),
                board_wf(self.cells()),
                narrows(self.cells(), start),
                forall|g: Seq<int>|
                    is_solution(self.cells(), cages, g) <==> is_solution(start, cages, g),
                forall|j: int|
                    0 <= j < i && (#[trigger] cages[j]).uniqueness ==> tight(
                        cages[j],
                        self.cells(),
                    ),
                uniform_pass(cages, start, i as int) == Some(self.cells()),
                progress == (self.cells() != start),
            decreases self.cages.len() - i,
        {
            let ghost prev = self.cells();
            let ghost cage = cages[i as int];
            let step = self.cages[i].restrict_by_uniform_combination(&mut self.board);
            assert(self.cages@[i as int]@ == cage);
            proof {
                lemma_narrows_transitive(self.cells(), prev, start);
                assert forall|g: Seq<int>| is_solution(prev, cages, g) implies within(
                    self.cells(),
                    g,
                ) by {
                    assert(cages[i as int].satisfied_by(g));
                }
                assert forall|g: Seq<int>| is_solution(self.cells(), cages, g) implies within(
                    prev,
                    g,
                ) by {
                    lemma_within_narrows(self.cells(), prev, g);
                }
                assert forall|j: int| 0 <= j < i && (#[trigger] cages[j]).uniqueness implies tight(
                    cages[j],
                    self.cells(),
                ) by {
                    lemma_tight_narrows(cages[j], prev, self.cells());
                }
            }
            match step {
                Ok(changed) => {
                    if changed {
                        progress = true;
                    }
                    proof {
                        if self.cells() == start && prev != start {
                            lemma_narrows_antisymmetric(prev, start);
                        }
                        if cage.uniqueness {
                            if cage.cells.len() == 1 {
                                let c = cage.cells[0] as int;
                                assert forall|d: int| (#[trigger] self.cells()[c].has(
                                    d,
                                )) implies d == cage.sum by {
                                    lemma_bit_algebra(
                                        prev[c].bits(),
                                        combinations_union(1, cage.sum),
                                    );
                                    crate::partition::lemma_single_cell_union(cage.sum, d);
                                }
                            }
                        }
                    }
                },
                Err(e) => {
                    proof {
                        assert forall|g: Seq<int>| !is_solution(start, cages, g) by {
                            if is_solution(start, cages, g) {
                                assert(is_solution(prev, cages, g));
                                assert(cage.satisfied_by(g));
                            }
                        }
                        lemma_derived_follow_narrows(self.cells(), start, cages);
                        assert(uniform_pass(cages, start, i + 1) is None);
                        lemma_pass_fails(cages, start, i + 1, cages.len() as int);
                    }
                    return Err(e);
                },
            }
            i += 1;
        }
        proof {
            lemma_derived_follow_narrows(self.cells(), start, cages);
            assert forall|c: CageView| #[trigger] cages.contains(c) && c.uniqueness implies tight(
                c,
                self.cells(),
            ) by {
                let j = choose|j: int| 0 <= j < cages.len() && cages[j] == c;
                assert(tight(cages[j], self.cells()));
            }
        }
        Ok(progress)
    }

    /// Narrows the cells by the cages until nothing moves: first every cage
    /// of distinct digits by the digits that its size and sum allow; then, in
    /// turn, the search for hidden sets and the completion of pairs, for as
    /// long as a pair still narrows a cell. Says whether the board is solved.
    /// The board and the cages that are left are those of `propagate`.
    pub fn solve_until_stuck(&mut self) -> (r: Result<bool, SolveError>)
        requires
            old(self).wf(),
        ensures
            final(self).wf(),
            narrows(final(self).cells(), old(self).cells()),
            forall|g: Seq<int>| final(self).solved_by(g) <==> old(self).solved_by(g),
            r is Err ==> r == Err::<bool, SolveError>(SolveError::Contradiction),
            r is Err ==> forall|g: Seq<int>| !old(self).solved_by(g),
            r matches Ok(done) ==> done == all_solved(final(self).cells()) && (done
                ==> final(self).solved_by(grid_of(final(self).cells()))),
            r is Ok ==> stuck(final(self).cells(), final(self).cages()),
            r is Err <==> propagate(old(self).cells(), old(self).cages()) is None,
            r is Ok ==> propagate(old(self).cells(), old(self).cages()) == Some(
                (Position { cells: final(self).cells(), cages: final(self).cages() }),
            ),
    {
        let ghost cages = self.cages();
        let ghost start = self.cells();
        match self.reduce_by_uniform_combination() {
            Ok(_) => {},
            Err(e) => {
                return Err(e);
            },
        }
        let ghost mid = self.cells();
        let ghost pre = *self;
        match self.reduce_by_partition() {
            Ok(_) => {},
            Err(e) => {
                proof {
                    lemma_narrows_transitive(self.cells(), mid, start);
                    assert forall|g: Seq<int>| !old(self).solved_by(g) by {
                        if old(self).solved_by(g) {
                            assert(is_solution(mid, cages, g));
                            assert(pre.solved_by(g));
                        }
                    }
                }
                return Err(e);
            },
        }
        proof {
            lemma_narrows_transitive(self.cells(), mid, start);
            assert forall|g: Seq<int>| self.solved_by(g) <==> old(self).solved_by(g) by {
                assert(pre.solved_by(g) <==> is_solution(mid, cages, g));
            }
        }
        loop
            invariant
                self.wf(),
                start == old(self).cells(),
                narrows(self.cells(), start),
                settled(self.cells(), self.cages()),
                quiet(self.cells(), self.cages()),
                forall|g: Seq<int>| self.solved_by(g) <==> old(self).solved_by(g),
                propagate(old(self).cells(), old(self).cages()) == refine(
                    self.cells(),
                    self.cages(),
                ),
            ensures
                self.wf(),
                narrows(self.cells(), start),
                stuck(self.cells(), self.cages()),
                forall|g: Seq<int>| self.solved_by(g) <==> old(self).solved_by(g),
                propagate(old(self).cells(), old(self).cages()) == Some(
                    (Position { cells: self.cells(), cages: self.cages() }),
                ),
            decreases board_freedom(self.cells(), 81),
        {
            let ghost prev = self.cells();
            let changed = match self.reduce_by_combination() {
                Ok(changed) => changed,
                Err(e) => {
                    proof {
                        lemma_narrows_transitive(self.cells(), prev, start);
                    }
                    return Err(e);
                },
            };
            proof {
                lemma_narrows_transitive(self.cells(), prev, start);
            }
            if !changed {
                break ;
            }
            proof {
                lemma_freedom_narrows(self.cells(), prev, 81);
                if board_freedom(self.cells(), 81) == board_freedom(prev, 81) {
                    assert(self.cells() =~= prev);
                }
                lemma_settled_narrows(self.cages(), prev, self.cells());
            }
            let ghost mid2 = self.cells();
            match self.reduce_by_partition() {
                Ok(_) => {},
                Err(e) => {
                    proof {
                        lemma_narrows_transitive(self.cells(), mid2, start);
                    }
                    return Err(e);
                },
            }
            proof {
                lemma_narrows_transitive(self.cells(), mid2, start);
                lemma_freedom_narrows(self.cells(), mid2, 81);
            }
        }
        let done = self.is_solved();
        proof {
            if done {
                lemma_solved_meets(self.cells(), self.cages());
            }
        }
        Ok(done)
    }

    /// A copy of the puzzle.
    pub fn duplicate(&self) -> (r: Self)
        ensures
            r.cells() == self.cells(),
            r.cages() == self.cages(),
    {
        Puzzle { board: self.board, cages: copy_cages(&self.cages) }
    }

    /// The number of cells that share a cage of distinct digits with the cell `i`.
    fn count_peers(&self, i: usize) -> (r: usize)
        requires
            i < 81,
            cages_wf(self.cages()),
        ensures
            r == peers(self.cages(), i as int, 81),
            r <= 81,
    {
        let ghost cages = self.cages();
        let mut marks: [bool; 81] = [false; 81];
        let mut c: usize = 0;
        while c < self.cages.len()
            invariant
                0 <= c <= self.cages.len(),
                i < 81,
                cages == self.cages(),
                cages_wf(cages),
                forall|j: int|
                    0 <= j < 81 ==> (#[trigger] marks@[j] <==> exists|b: int|
                        0 <= b < c && (#[trigger] cages[b]).uniqueness && cages[b].cells.contains(
                            i,
                        ) && cages[b].cells.contains(j as usize)),
            decreases self.cages.len() - c,
        {
            let cage = &self.cages[c];
            assert(cage@ == cages[c as int]);
            let mut inside = false;
            if cage.uniqueness {
                let mut k: usize = 0;
                while k < cage.cells.len()
                    invariant
                        0 <= k <= cage.cells.len(),
                        inside == crate::cage::in_prefix(cage@.cells, k as int, i),
                    decreases cage.cells.len() - k,
                {
                    if cage.cells[k] == i {
                        inside = true;
                    }
                    k += 1;
                }
            }
            let ghost before = marks@;
            if inside {
                let mut k: usize = 0;
                while k < cage.cells.len()
                    invariant
                        0 <= k <= cage.cells.len(),
                        cage@.wf(),
                        forall|j: int|
                            0 <= j < 81 ==> (#[trigger] marks@[j] <==> before[j]
                                || crate::cage::in_prefix(cage@.cells, k as int, j as usize)),
                    decreases cage.cells.len() - k,
                {
                    let ghost prev = marks@;
                    let cell: usize = cage.cells[k];
                    marks[cell] = true;
                    proof {
                        assert forall|j: int| 0 <= j < 81 implies (#[trigger] marks@[j]
                            <==> before[j]
                            || crate::cage::in_prefix(cage@.cells, k + 1, j as usize)) by {
                            if crate::cage::in_prefix(cage@.cells, k as int, j as usize) {
                                let p = choose|p: int| 0 <= p < k && cage@.cells[p] == j as usize;
                                assert(0 <= p < k + 1 && cage@.cells[p] == j as usize);
                            }
                            if crate::cage::in_prefix(cage@.cells, k + 1, j as usize) {
                                let p = choose|p: int|
                                    0 <= p < k + 1 && cage@.cells[p] == j as usize;
                                if p < k {
                                    assert(crate::cage::in_prefix(
                                        cage@.cells,
                                        k as int,
                                        j as usize,
                                    ));
                                }
                            }
                        }
                    }
                    k += 1;
                }
            }
            proof {
                let cur = cages[c as int];
                assert forall|j: int| 0 <= j < 81 implies (#[trigger] marks@[j] <==> exists|b: int|
                    0 <= b < c + 1 && (#[trigger] cages[b]).uniqueness && cages[b].cells.contains(
                        i,
                    ) && cages[b].cells.contains(j as usize)) by {
                    let here = cur.uniqueness && cur.cells.contains(i) && cur.cells.contains(
                        j as usize,
                    );
                    if before[j] {
                        let b = choose|b: int|
                            0 <= b < c && (#[trigger] cages[b]).uniqueness
                                && cages[b].cells.contains(i) && cages[b].cells.contains(
                                    j as usize);
                        assert(0 <= b < c + 1);
                    }
                    if exists|b: int|
                        0 <= b < c + 1 && (#[trigger] cages[b]).uniqueness
                            && cages[b].cells.contains(i) && cages[b].cells.contains(j as usize) {
                        let b = choose|b: int|
                            0 <= b < c + 1 && (#[trigger] cages[b]).uniqueness
                                && cages[b].cells.contains(i) && cages[b].cells.contains(
                                    j as usize);
                        if b < c {
                            assert(before[j]);
                        }
                    }
                }
            }
            c += 1;
        }
        let mut count: usize = 0;
        let mut j: usize = 0;
        while j < 81
            invariant
                0 <= j <= 81,
                count == peers(cages, i as int, j as int),
                count <= j,
                forall|x: int| 0 <= x < 81 ==> (#[trigger] marks@[x] <==> linked(cages, i as int,
                    x)),
            decreases 81 - j,
        {
            if marks[j] {
                count += 1;
            }
            j += 1;
        }
        count
    }

    /// The cell to guess at: among the cells with several digits left, the
    /// one with the most peers for each digit it may hold; of several such,
    /// the last.
    pub fn choose_guess(&self) -> (r: usize)
        requires
            self.wf(),
            !all_solved(self.cells()),
        ensures
            r == guess_of(self.cells(), self.cages()),
            r < 81,
            popcount(self.cells()[r as int].bits()) != 1,
            forall|j: int|
                0 <= j < 81 && popcount((#[trigger] self.cells()[j]).bits()) != 1 ==> score(
                    self.cells(),
                    self.cages(),
                    j,
                ) <= score(self.cells(), self.cages(), r as int),
            forall|j: int|
                r < j < 81 && popcount((#[trigger] self.cells()[j]).bits()) != 1 ==> score(
                    self.cells(),
                    self.cages(),
                    j,
                ) < score(self.cells(), self.cages(), r as int),
    {
        let mut best: usize = 81;
        let mut best_score: usize = 0;
        let mut i: usize = 0;
        while i < 81
            invariant
                0 <= i <= 81,
                self.wf(),
                best <= 81,
                best == 81 ==> forall|j: int|
                    0 <= j < i ==> popcount((#[trigger] self.cells()[j]).bits()) == 1,
                best < 81 ==> best < i && popcount(self.cells()[best as int].bits()) != 1
                    && best_score == score(self.cells(), self.cages(), best as int),
                best < 81 ==> forall|j: int|
                    0 <= j < i && popcount((#[trigger] self.cells()[j]).bits()) != 1 ==> score(
                        self.cells(),
                        self.cages(),
                        j,
                    ) <= best_score,
                best < 81 ==> forall|j: int|
                    best < j < i && popcount((#[trigger] self.cells()[j]).bits()) != 1 ==> score(
                        self.cells(),
                        self.cages(),
                        j,
                    ) < best_score,
            decreases 81 - i,
        {
            if self.board[i].get_solution().is_none() {
                let freedom = self.board[i].num_possible_solutions();
                proof {
                    assert(self.cells()[i as int].wf());
                    crate::util::lemma_count_zero(self.cells()[i as int].bits(), 64);
                    crate::util::lemma_bit_algebra(0, 0);
                    if freedom == 0 {
                        crate::util::lemma_bits_equal(self.cells()[i as int].bits(), 0);
                    }
                }
                let own = self.count_peers(i) / freedom;
                if best == 81 || own >= best_score {
                    best = i;
                    best_score = own;
                }
            }
            i += 1;
        }
        proof {
            lemma_guess(self.cells(), self.cages(), best as int);
        }
        best
    }

    /// Narrows the cells until nothing moves; then, unless the board is
    /// solved, guesses at one cell: for each digit that it may hold, from the
    /// least up, a copy of the puzzle with that digit in the cell is searched
    /// in the same way. What the copies find is put together in that order.
    /// A copy that is contradictory finds nothing; so does one that would
    /// guess deeper than the limit, and then the result is not complete.
    pub fn solve_until_stuck_then_guess_and_fork(&mut self, depth: usize) -> (r: Result<
        SearchOutcome,
        SolveError,
    >)
        requires
            old(self).wf(),
        ensures
            final(self).wf(),
            r is Err ==> (r == Err::<SearchOutcome, SolveError>(SolveError::Contradiction)
                && forall|g: Seq<int>| !old(self).solved_by(g)) || (r == Err::<
                SearchOutcome,
                SolveError,
            >(SolveError::RecursionExhausted) && depth > RECURSION_LIMIT),
            r matches Ok(found) ==> results_ok(
                found.solutions@,
                old(self).cells(),
                old(self).cages(),
            ) && (found.complete ==> forall|g: Seq<int>|
                old(self).solved_by(g) ==> lists(found.solutions@, g)),
            r matches Ok(found) ==> in_guess_order(found.solutions@),
            open_cells(old(self).cells(), 81) + depth <= RECURSION_LIMIT + 1 ==> r != Err::<
                SearchOutcome,
                SolveError,
            >(SolveError::RecursionExhausted) && (r matches Ok(found) ==> found.complete),
            told(r) == search_of(old(self).cells(), old(self).cages(), depth as int),
        decreases RECURSION_LIMIT + 1 - depth,
    {
        let done = match self.solve_until_stuck() {
            Ok(done) => done,
            Err(e) => {
                return Err(e);
            },
        };
        proof {
            lemma_open_cells_narrows(self.cells(), old(self).cells(), 81, 0);
            lemma_open_cells_zero(self.cells(), 81);
        }
        let ghost sure = open_cells(old(self).cells(), 81) + depth <= RECURSION_LIMIT + 1;
        if done {
            let mut solutions: Vec<Puzzle> = Vec::new();
            solutions.push(self.duplicate());
            proof {
                lemma_grid_of(self.cells());
                lemma_grid_of(old(self).cells());
                assert forall|g: Seq<int>| old(self).solved_by(g) implies lists(solutions@, g) by {
                    assert(self.solved_by(g));
                    assert(grid_of(solutions@[0].cells()) == g);
                }
                assert(old(self).solved_by(grid_of(self.cells())));
                assert(ascending_at(solutions@, 0));
                assert(positions(solutions@) =~= seq![
                    Position { cells: self.cells(), cages: self.cages() },
                ]);
            }
            return Ok(SearchOutcome { solutions, complete: true });
        }
        if depth > RECURSION_LIMIT {
            return Err(SolveError::RecursionExhausted);
        }
        let guess_index = self.choose_guess();
        let mut solutions: Vec<Puzzle> = Vec::new();
        let mut complete = true;
        let mut digit: usize = 1;
        let ghost cells = self.cells();
        let ghost cages = self.cages();
        while digit <= 9
            invariant
                1 <= digit <= 10,
                depth <= RECURSION_LIMIT,
                guess_index < 81,
                self.wf(),
                self.cells() == cells,
                self.cages() == cages,
                results_ok(solutions@, cells, cages),
                popcount(cells[guess_index as int].bits()) != 1,
                sure ==> open_cells(cells, 81) + depth <= RECURSION_LIMIT + 1,
                sure ==> complete,
                forall|i: int|
                    0 <= i < solutions@.len() ==>
                        grid_of((#[trigger] solutions@[i]).cells())[guess_index as int]
                        < digit,
                ascending_at(solutions@, guess_index as int),
                branches(cells, cages, guess_index as int, digit - 1, depth as int) == (
                    positions(solutions@),
                    complete,
                ),
                complete ==> forall|g: Seq<int>|
                    is_solution(cells, cages, g) && g[guess_index as int] < digit ==> lists(
                        solutions@,
                        g,
                    ),
            decreases 10 - digit,
        {
            if self.board[guess_index].allows(digit) {
                let mut branch = self.duplicate();
                let mut cell = branch.board[guess_index];
                proof {
                    crate::util::lemma_bit_shift(0, digit as int);
                    lemma_bit_algebra(cell.bits(), 1u64 << digit);
                    assert(has_bit(cell.bits() & (1u64 << digit), digit as int));
                    crate::util::lemma_has_bit_nonzero(
                        cell.bits() & (1u64 << digit),
                        digit as int,
                    );
                }
                let fixed = cell.restrict_to(1u64 << digit);
                assert(fixed is Ok);
                branch.board[guess_index] = cell;
                let ghost narrowed = branch.cells();
                proof {
                    assert(narrowed =~= cells.update(guess_index as int, cell));
                    assert(narrows(narrowed, cells));
                    assert(board_wf(narrowed));
                    lemma_derived_follow_narrows(narrowed, cells, cages);
                    crate::util::lemma_popcount_power_of_two(digit as int);
                    lemma_domain_of_one(cell.bits(), digit as int);
                    lemma_open_cells_narrows(narrowed, cells, 81, guess_index as int);
                    assert forall|g: Seq<int>| #[trigger]
                        is_solution(narrowed, cages, g) <==> is_solution(cells, cages, g)
                            && g[guess_index as int] == digit by {
                        if is_solution(narrowed, cages, g) {
                            lemma_within_narrows(narrowed, cells, g);
                            assert(narrowed[guess_index as int].has(g[guess_index as int]));
                        }
                        if is_solution(cells, cages, g) && g[guess_index as int] == digit {
                            assert forall|j: int| 0 <= j < 81 implies (#[trigger] narrowed[j]).has(
                                g[j],
                            ) by {
                                assert(cells[j].has(g[j]));
                            }
                        }
                    }
                }
                let ghost before = solutions@;
                let ghost pre = branch;
                proof {
                    crate::cell::lemma_of_bits(cells[guess_index as int].bits() & (1u64 << digit));
                    crate::cell::lemma_cell_by_bits(
                        cell,
                        Cell::of_bits(cells[guess_index as int].bits() & (1u64 << digit)),
                    );
                    assert(narrowed == guessed(cells, guess_index as int, digit as int));
                }
                match branch.solve_until_stuck_then_guess_and_fork(depth + 1) {
                    Ok(found) => {
                        let mut more = found.solutions;
                        let ghost added = more@;
                        solutions.append(&mut more);
                        if !found.complete {
                            complete = false;
                        }
                        proof {
                            assert(solutions@ =~= before + added);
                            assert(positions(solutions@) =~= positions(before) + positions(added));
                            assert(results_ok(added, narrowed, cages));
                            assert forall|i: int| 0 <= i < solutions@.len() implies (
                            #[trigger] solutions@[i]).wf() && all_solved(solutions@[i].cells())
                                && is_solution(cells, cages, grid_of(solutions@[i].cells()))
                                && (i >= before.len() ==> grid_of(
                                solutions@[i].cells(),
                            )[guess_index as int] == digit) by {
                                if i < before.len() {
                                    assert(solutions@[i] == before[i]);
                                } else {
                                    let item = added[i - before.len()];
                                    assert(solutions@[i] == item);
                                    assert(is_solution(narrowed, cages, grid_of(item.cells())));
                                }
                            }
                            assert forall|i: int, j: int|
                                0 <= i < j < solutions@.len() implies grid_of(
                                (#[trigger] solutions@[i]).cells(),
                            ) != grid_of((#[trigger] solutions@[j]).cells()) by {
                                if j < before.len() {
                                    assert(solutions@[i] == before[i]);
                                    assert(solutions@[j] == before[j]);
                                } else if i >= before.len() {
                                    assert(solutions@[i] == added[i - before.len()]);
                                    assert(solutions@[j] == added[j - before.len()]);
                                } else {
                                    assert(solutions@[i] == before[i]);
                                    assert(grid_of(solutions@[i].cells())[guess_index as int]
                                        < digit);
                                }
                            }
                            assert forall|i: int, j: int|
                                0 <= i < j < solutions@.len() implies grid_of(
                                (#[trigger] solutions@[i]).cells(),
                            )[guess_index as int] <= grid_of(
                                (#[trigger] solutions@[j]).cells(),
                            )[guess_index as int] by {
                                if j < before.len() {
                                    assert(solutions@[i] == before[i]);
                                    assert(solutions@[j] == before[j]);
                                } else if i < before.len() {
                                    assert(solutions@[i] == before[i]);
                                }
                            }
                            if complete {
                                assert forall|g: Seq<int>|
                                    is_solution(cells, cages, g) && g[guess_index as int] < digit
                                        + 1 implies lists(solutions@, g) by {
                                    if g[guess_index as int] < digit {
                                        assert(lists(before, g));
                                        let i = choose|i: int|
                                            0 <= i < before.len() && grid_of(
                                                (#[trigger] before[i]).cells(),
                                            ) == g;
                                        assert(solutions@[i] == before[i]);
                                    } else {
                                        assert(is_solution(narrowed, cages, g));
                                        assert(pre.solved_by(g));
                                        assert(lists(added, g));
                                        let i = choose|i: int|
                                            0 <= i < added.len() && grid_of(
                                                (#[trigger] added[i]).cells(),
                                            ) == g;
                                        assert(solutions@[before.len() + i] == added[i]);
                                    }
                                }
                            }
                        }
                    },
                    Err(e) => {
                        match e {
                            SolveError::Contradiction => {
                                proof {
                                    if complete {
                                        assert forall|g: Seq<int>|
                                            is_solution(cells, cages, g) && g[guess_index as int]
                                                < digit + 1 implies lists(solutions@, g) by {
                                            if g[guess_index as int] == digit {
                                                assert(is_solution(narrowed, cages, g));
                                                assert(pre.solved_by(g));
                                            }
                                        }
                                    }
                                }
                            },
                            _ => {
                                complete = false;
                            },
                        }
                    },
                }
            } else {
                proof {
                    if complete {
                        assert forall|g: Seq<int>|
                            is_solution(cells, cages, g) && g[guess_index as int] < digit
                                + 1 implies lists(solutions@, g) by {
                            assert(cells[guess_index as int].has(g[guess_index as int]));
                        }
                    }
                }
            }
            digit += 1;
        }
        proof {
            assert forall|i: int| 0 <= i < solutions@.len() implies is_solution(
                old(self).cells(),
                old(self).cages(),
                grid_of((#[trigger] solutions@[i]).cells()),
            ) by {
                assert(self.solved_by(grid_of(solutions@[i].cells())));
            }
            if complete {
                assert forall|g: Seq<int>| old(self).solved_by(g) implies lists(solutions@, g) by {
                    assert(self.solved_by(g));
                    assert(1 <= g[guess_index as int] <= 9);
                }
            }
            assert(ascending_at(solutions@, guess_index as int));
        }
        Ok(SearchOutcome { solutions, complete })
    }

    /// All solved boards that the search finds, with the word whether they
    /// are all the solutions there are. They come in the order of the digits
    /// of the cell that was guessed at first. The result is `search_of` the
    /// puzzle at the depth 0.
    pub fn search(&self) -> (r: Result<SearchOutcome, SolveError>)
        requires
            self.wf(),
        ensures
            r is Err ==> r == Err::<SearchOutcome, SolveError>(SolveError::Contradiction)
                && forall|g: Seq<int>| !self.solved_by(g),
            r matches Ok(found) ==> results_ok(found.solutions@, self.cells(), self.cages()) && (
            found.complete ==> forall|g: Seq<int>|
                self.solved_by(g) ==> lists(found.solutions@, g)),
            r matches Ok(found) ==> in_guess_order(found.solutions@),
            open_cells(self.cells(), 81) <= RECURSION_LIMIT + 1 ==> (r matches Ok(found)
                ==> found.complete),
            told(r) == search_of(self.cells(), self.cages(), 0),
    {
        let mut working_copy = self.duplicate();
        let ghost pre = working_copy;
        let r = working_copy.solve_until_stuck_then_guess_and_fork(0);
        proof {
            assert forall|g: Seq<int>| pre.solved_by(g) == self.solved_by(g) by {}
        }
        r
    }

    /// The solved boards that the search finds: each is a solution of the
    /// puzzle, and none is there twice. They come in the order of the digits
    /// of the cell that was guessed at first. Where no more than eleven cells
    /// are open, or the search gives up no guess, they are all the solutions
    /// there are. The same puzzle gives the same boards in the same order:
    /// they are `solutions_of` the puzzle.
    pub fn solve(&self) -> (r: Result<Vec<Puzzle>, SolveError>)
        requires
            self.wf(),
        ensures
            r is Err ==> r == Err::<Vec<Puzzle>, SolveError>(SolveError::Contradiction)
                && forall|g: Seq<int>| !self.solved_by(g),
            r matches Ok(list) ==> results_ok(list@, self.cells(), self.cages()),
            r matches Ok(list) ==> in_guess_order(list@),
            open_cells(self.cells(), 81) <= RECURSION_LIMIT + 1 ==> (r matches Ok(list)
                ==> forall|g: Seq<int>| self.solved_by(g) ==> lists(list@, g)),
            r is Err <==> search_of(self.cells(), self.cages(), 0) is Refuted,
            r matches Ok(list) ==> positions(list@) == solutions_of(self.cells(), self.cages()),
            r matches Ok(list) ==> searched_whole(self.cells(), self.cages()) ==> forall|
                g: Seq<int>,
            | self.solved_by(g) ==> lists(list@, g),
    {
        match self.search() {
            Ok(found) => Ok(found.solutions),
            Err(e) => Err(e),
        }
    }

    /// The cell at the place `index` of the board, counted row by row.
    pub fn get_cell(&self, index: usize) -> (r: Cell)
        requires
            index < 81,
        ensures
            r == self.cells()[index as int],
    {
        self.board[index]
    }

    /// The number of cages.
    pub fn get_num_cages(&self) -> (r: usize)
        ensures
            r == self.cages().len(),
    {
        self.cages.len()
    }

    /// The cage at the place `index` in the order of the cages.
    pub fn get_cage(&self, index: usize) -> (r: Cage)
        requires
            index < self.cages().len(),
        ensures
            r@ == self.cages()[index as int],
    {
        self.cages[index].duplicate()
    }

    /// The cells that do not lie in `expected` cages, each with the number of
    /// cages that hold it, in ascending order.
    pub fn check_cages(&self, expected: usize) -> (r: Vec<(usize, usize)>)
        requires
            self.wf(),
        ensures
            forall|k: int|
                0 <= k < r@.len() ==> (#[trigger] r@[k]).0 < 81 && r@[k].1
                    == crate::derive::occurrences(
                    self.cages(),
                    self.cages().len() as int,
                    r@[k].0,
                ) && r@[k].1 != expected,
            forall|j: int, k: int|
                0 <= j < k < r@.len() ==> (#[trigger] r@[j]).0 < (#[trigger] r@[k]).0,
            forall|i: int|
                0 <= i < 81 && #[trigger] crate::derive::occurrences(
                    self.cages(),
                    self.cages().len() as int,
                    i as usize,
                ) != expected ==> exists|k: int| 0 <= k < r@.len() && (#[trigger] r@[k]).0 == i,
            r@.len() == 0 <==> balanced(self.cages(), expected as int),
    {
        unbalanced_cells(&self.cages, expected)
    }

    /// Puts in one cage of distinct digits for each entry of sum and cells.
    /// With `perform_checks`, every cell must then lie in four cages, its
    /// row, its column, its box and one more, and the cages that follow from
    /// those of nine cells are put in too. The puzzle is malformed, and stays
    /// as it was, where an entry names a cell that is not on the board or
    /// names a cell twice, or where that check fails.
    pub fn init_cages(&mut self, cages: Vec<(usize, Vec<usize>)>, perform_checks: bool) -> (r:
        Result<(), SolveError>)
        requires
            old(self).wf(),
        ensures
            final(self).wf(),
            final(self).cells() == old(self).cells(),
            r is Err <==> !inputs_wf(cages@) || (perform_checks && !balanced(
                with_inputs(old(self).cages(), cages@, cages@.len() as int),
                4,
            )),
            r is Err ==> r == Err::<(), SolveError>(SolveError::MalformedPuzzle) && final(
                self).cages() == old(self).cages(),
            r is Ok && !perform_checks ==> final(self).cages() == with_inputs(
                old(self).cages(),
                cages@,
                cages@.len() as int,
            ),
            r is Ok && perform_checks ==> final(self).cages() == with_derived(
                with_inputs(old(self).cages(), cages@, cages@.len() as int),
            ),
            r is Ok ==> forall|c: CageView|
                with_inputs(old(self).cages(), cages@, cages@.len() as int).contains(c)
                    ==> final(self).cages().contains(c),
            r is Ok ==> forall|g: Seq<int>|
                is_grid(g) ==> (meets_all(final(self).cages(), g) <==> meets_all(
                    with_inputs(old(self).cages(), cages@, cages@.len() as int),
                    g,
                )),
    {
        let ghost start = self.cages();
        let ghost cells = self.cells();
        let mut candidate = copy_cages(&self.cages);
        let mut i: usize = 0;
        while i < cages.len()
            invariant
                0 <= i <= cages.len(),
                cages_wf(start),
                cages_wf(views(candidate@)),
                views(candidate@) == with_inputs(start, cages@, i as int),
                forall|j: int| 0 <= j < i ==> input_cage(#[trigger] cages@[j]).wf(),
                *self == *old(self),
                self.wf(),
            decreases cages.len() - i,
        {
            let cage = Cage::new(copy_indices(&cages[i].1), cages[i].0, true);
            assert(cage@ == input_cage(cages@[i as int]));
            if !cage.is_well_formed() {
                return Err(SolveError::MalformedPuzzle);
            }
            insert_cage(&mut candidate, cage);
            i += 1;
        }
        let ghost base = views(candidate@);
        proof {
            lemma_with_inputs(start, cages@, cages@.len() as int);
            assert forall|g: Seq<int>|
                is_grid(g) && within(cells, g) && #[trigger] meets_unique(
                    base,
                    g,
                ) implies meets_all(base, g) by {
                assert(meets_unique(start, g));
            }
        }
        if perform_checks {
            if unbalanced_cells(&candidate, 4).len() > 0 {
                return Err(SolveError::MalformedPuzzle);
            }
            let derived = derive_cages(&candidate);
            let mut k: usize = 0;
            while k < derived.len()
                invariant
                    0 <= k <= derived.len(),
                    cages_wf(base),
                    cages_wf(views(candidate@)),
                    views(candidate@) == with_cages(base, views(derived@), k as int),
                    forall|j: int|
                        0 <= j < derived@.len() ==> (#[trigger] derived@[j])@.wf() && follows_from(
                            base,
                            derived@[j]@,
                        ),
                    forall|c: CageView| base.contains(c) ==> views(candidate@).contains(c),
                    forall|g: Seq<int>|
                        is_grid(g) ==> (meets_all(views(candidate@), g) <==> meets_all(base, g)),
                    *self == *old(self),
                    self.wf(),
                decreases derived.len() - k,
            {
                let ghost before = views(candidate@);
                proof {
                    lemma_with_cage(before, derived@[k as int]@);
                }
                insert_cage(&mut candidate, derived[k].duplicate());
                assert(views(derived@)[k as int] == derived@[k as int]@);
                k += 1;
            }
        }
        proof {
            let after = views(candidate@);
            assert forall|g: Seq<int>|
                is_grid(g) && within(cells, g) && #[trigger] meets_unique(
                    after,
                    g,
                ) implies meets_all(after, g) by {
                lemma_meets_members(after, g);
                lemma_meets_members(base, g);
                assert(meets_unique(base, g));
            }
        }
        self.cages = candidate;
        Ok(())
    }

    /// The puzzle that a written puzzle stands for: a new board with the
    /// written cages put in and checked. The written digits are not looked at.
    pub fn from_serializable(s: SerializablePuzzle) -> (r: Result<Self, SolveError>)
        ensures
            r is Ok <==> written_wf(s.cages@) && balanced(written_base(s.cages@), 4),
            r is Err ==> r == Err::<Self, SolveError>(SolveError::MalformedPuzzle),
            r matches Ok(puzzle) ==> puzzle.cages() == with_derived(written_base(s.cages@)),
            r matches Ok(puzzle) ==> puzzle.cells() == open_board(),
            r matches Ok(puzzle) ==> puzzle.wf() && has_sudoku_rules(puzzle.cages()),
            r matches Ok(puzzle) ==> forall|i: int|
                0 <= i < 81 ==> (#[trigger] puzzle.cells()[i]).bits() == ALL_DIGITS,
            r matches Ok(puzzle) ==> forall|i: int|
                0 <= i < s.cages@.len() ==> puzzle.cages().contains(
                    written_cage(#[trigger] s.cages@[i]),
                ),
            r matches Ok(puzzle) ==> forall|g: Seq<int>|
                is_grid(g) ==> (#[trigger] puzzle.solved_by(g) <==> rules_met(g) && written_met(
                    s.cages@,
                    g,
                )),
    {
        let mut output = Puzzle::new();
        let mut entries: Vec<(usize, Vec<usize>)> = Vec::new();
        let mut i: usize = 0;
        while i < s.cages.len()
            invariant
                0 <= i <= s.cages.len(),
                entries@.len() == i,
                forall|j: int|
                    0 <= j < i ==> input_cage(#[trigger] entries@[j]) == written_cage(s.cages@[j]),
            decreases s.cages.len() - i,
        {
            entries.push((s.cages[i].sum, copy_indices(&s.cages[i].cell_indices)));
            i += 1;
        }
        let ghost start = output.cages();
        proof {
            if inputs_wf(entries@) {
                lemma_with_inputs(start, entries@, entries@.len() as int);
            }
            lemma_inputs_as_cages(
                start,
                entries@,
                written_cages(s.cages@),
                entries@.len() as int,
            );
            assert(inputs_wf(entries@) <==> written_wf(s.cages@)) by {
                if inputs_wf(entries@) {
                    assert forall|i: int| 0 <= i < s.cages@.len() implies written_cage(
                        #[trigger] s.cages@[i],
                    ).wf() by {
                        assert(input_cage(entries@[i]).wf());
                    }
                }
                if written_wf(s.cages@) {
                    assert forall|i: int| 0 <= i < entries@.len() implies input_cage(
                        #[trigger] entries@[i],
                    ).wf() by {
                        assert(written_cage(s.cages@[i]).wf());
                    }
                }
            }
        }
        match output.init_cages(entries, true) {
            Ok(()) => {
                proof {
                    let base = with_inputs(start, entries@, entries@.len() as int);
                    lemma_with_inputs(start, entries@, entries@.len() as int);
                    assert forall|u: int| 0 <= u < 27 implies output.cages().contains(
                        #[trigger] unit_cage(u),
                    ) by {
                        assert(start.contains(unit_cage(u)));
                        assert(base.contains(unit_cage(u)));
                    }
                    assert forall|g: Seq<int>| is_grid(g) implies (#[trigger] output.solved_by(g)
                        <==> rules_met(g) && written_met(s.cages@, g)) by {
                        lemma_open_board(output.cells(), g);
                        lemma_meets_members(start, g);
                        assert(meets_all(output.cages(), g) <==> meets_all(base, g));
                        assert(meets_all(base, g) <==> meets_all(start, g) && inputs_met(
                            entries@,
                            entries@.len() as int,
                            g,
                        ));
                        if meets_all(start, g) {
                            assert forall|u: int| 0 <= u < 27 implies (#[trigger] unit_cage(
                                u,
                            )).satisfied_by(g) by {
                                assert(start.contains(unit_cage(u)));
                            }
                        }
                        if rules_met(g) {
                            assert forall|c: CageView| #[trigger] start.contains(
                                c) implies c.satisfied_by(
                                g,
                            ) by {
                                let u = choose|u: int| 0 <= u < 27 && c == #[trigger] unit_cage(u);
                                assert(unit_cage(u).satisfied_by(g));
                            }
                        }
                        if inputs_met(entries@, entries@.len() as int, g) {
                            assert forall|i: int| 0 <= i < s.cages@.len() implies written_cage(
                                #[trigger] s.cages@[i],
                            ).satisfied_by(g) by {
                                assert(input_cage(entries@[i]).satisfied_by(g));
                            }
                        }
                        if written_met(s.cages@, g) {
                            assert forall|i: int| 0 <= i < entries@.len() implies input_cage(
                                #[trigger] entries@[i],
                            ).satisfied_by(g) by {
                                assert(written_cage(s.cages@[i]).satisfied_by(g));
                            }
                        }
                    }
                    assert forall|i: int| 0 <= i < s.cages@.len() implies output.cages().contains(
                        written_cage(#[trigger] s.cages@[i]),
                    ) by {
                        assert(input_cage(entries@[i]) == written_cage(s.cages@[i]));
                        assert(from_input(
                            entries@,
                            entries@.len() as int,
                            input_cage(entries@[i]),
                        ));
                        assert(base.contains(input_cage(entries@[i])));
                    }
                }
                Ok(output)
            },
            Err(e) => Err(e),
        }
    }

    /// For each number of cells that some cage has, the number of cages with
    /// as many cells.
    pub fn get_cage_size_distribution(&self) -> (r: BTreeMap<usize, usize>)
        ensures
            forall|x: usize| r@.contains_key(x) <==> cage_sizes(self.cages()).contains(x),
            forall|x: usize| r@.contains_key(x) ==> r@[x] == total_in(cage_sizes(self.cages()), x),
    {
        let mut sizes: Vec<usize> = Vec::new();
        let mut i: usize = 0;
        while i < self.cages.len()
            invariant
                0 <= i <= self.cages.len(),
                sizes@.len() == i,
                forall|k: int| 0 <= k < i ==> #[trigger] sizes@[k] == self.cages()[k].cells.len(),
            decreases self.cages.len() - i,
        {
            sizes.push(self.cages[i].cells.len());
            i += 1;
        }
        assert(sizes@ =~= cage_sizes(self.cages()));
        get_population_distribution(&sizes)
    }

    /// For each cell, the number of cells of the smallest cage that holds it
    /// is taken, or 9 where that is less; and for each such number, the
    /// number of cells with it is given.
    pub fn get_cell_solvability_distribution(&self) -> (r: BTreeMap<usize, usize>)
        requires
            self.wf(),
        ensures
            forall|x: usize| r@.contains_key(x) <==> least_cage_sizes(self.cages()).contains(x),
            forall|x: usize|
                r@.contains_key(x) ==> r@[x] == total_in(least_cage_sizes(self.cages()), x),
    {
        let ghost cages = self.cages();
        let mut least: Vec<usize> = Vec::new();
        let mut c: usize = 0;
        while c < 81
            invariant
                0 <= c <= 81,
                least@.len() == c,
                forall|k: int| 0 <= k < c ==> #[trigger] least@[k] == 9,
            decreases 81 - c,
        {
            least.push(9);
            c += 1;
        }
        let mut i: usize = 0;
        while i < self.cages.len()
            invariant
                0 <= i <= self.cages.len(),
                cages == self.cages(),
                cages_wf(cages),
                least@.len() == 81,
                forall|k: int|
                    0 <= k < 81 ==> #[trigger] least@[k] == least_cage_size(
                        cages,
                        i as int,
                        k as usize,
                    ),
            decreases self.cages.len() - i,
        {
            let cage = &self.cages[i];
            assert(cage@ == cages[i as int]);
            assert(cage@.wf());
            let size: usize = cage.cells.len();
            let ghost before = least@;
            let mut k: usize = 0;
            while k < cage.cells.len()
                invariant
                    0 <= k <= cage.cells.len(),
                    cage@.wf(),
                    size == cage.cells.len(),
                    least@.len() == 81,
                    forall|x: int|
                        0 <= x < 81 ==> #[trigger] least@[x] == if crate::cage::in_prefix(
                            cage@.cells,
                            k as int,
                            x as usize,
                        ) && size < before[x] {
                            size
                        } else {
                            before[x]
                        },
                decreases cage.cells.len() - k,
            {
                let cell: usize = cage.cells[k];
                proof {
                    if crate::cage::in_prefix(cage@.cells, k as int, cell) {
                        let p = choose|p: int| 0 <= p < k && cage@.cells[p] == cell;
                        assert(cage@.cells[p] < cage@.cells[k as int]);
                    }
                }
                if size < least[cell] {
                    least.set(cell, size);
                }
                proof {
                    assert forall|x: int| 0 <= x < 81 implies #[trigger] least@[x]
                        == if crate::cage::in_prefix(cage@.cells, k + 1, x as usize) && size
                        < before[x] {
                        size
                    } else {
                        before[x]
                    } by {
                        if crate::cage::in_prefix(cage@.cells, k as int, x as usize) {
                            let p = choose|p: int| 0 <= p < k && cage@.cells[p] == x as usize;
                            assert(0 <= p < k + 1 && cage@.cells[p] == x as usize);
                        }
                        if crate::cage::in_prefix(cage@.cells, k + 1, x as usize) {
                            let p = choose|p: int| 0 <= p < k + 1 && cage@.cells[p] == x as usize;
                            if p < k {
                                assert(crate::cage::in_prefix(cage@.cells, k as int, x as usize));
                            }
                        }
                        if x == cell {
                            assert(0 <= k < k + 1 && cage@.cells[k as int] == x as usize);
                        }
                    }
                }
                k += 1;
            }
            proof {
                assert forall|x: int| 0 <= x < 81 implies #[trigger] least@[x] == least_cage_size(
                    cages,
                    i + 1,
                    x as usize,
                ) by {
                    assert(crate::cage::in_prefix(
                        cage@.cells,
                        cage@.cells.len() as int,
                        x as usize,
                    ) == cage@.cells.contains(x as usize));
                }
            }
            i += 1;
        }
        assert(least@ =~= least_cage_sizes(cages));
        get_population_distribution(&least)
    }
}

} // verus!
