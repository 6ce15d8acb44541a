//! Making puzzles: a solved grid whose cells are merged into cages, two
//! cages at a time, for as long as the solution stays the only one.

use crate::cage::{copy_indices, sort_indices};
use crate::grid::{
    cells_distinct, cells_sum, cells_wf, digits_mask, is_grid, lemma_digits_mask, CageView,
};
use crate::index_set::{as_set, ascending, listing, set_contains, set_insert, set_remove};
use crate::io::{SerializableCage, SerializablePuzzle};
use crate::partition::lemma_sorted_already;
use crate::derive::balanced;
use crate::model::{search_of, Outcome};
use crate::puzzle::{
    all_solved, grid_of, has_sudoku_rules, input_cage, is_solution, lemma_sudoku_rules,
    lemma_with_inputs, lists, open_board, rules, rules_met, sudoku_valid, unit_cell, unit_cells,
    with_cages, with_derived, written_cage, written_cages, written_met, written_wf, Puzzle,
};
use crate::util::{has_bit, lemma_bit_shift, popcnt64, popcount, strictly_increasing};
use rand::seq::SliceRandom;
use rand::Rng;
use std::collections::{BTreeMap, BTreeSet};
use vstd::prelude::*;

verus! {

/// `rand::Rng::gen_range` on the generator of the thread, for the numbers
/// from 0 up to, not including, `bound`: it gives one of them. It panics
/// on an empty range, so `bound` may not be 0.
#[verifier::external_body]
fn random_below(bound: usize) -> (r: usize)
    requires
        bound > 0,
    ensures
        r < bound,
{
    rand::thread_rng().gen_range(0..bound)
}

/// `rand::seq::SliceRandom::shuffle` on the generator of the thread: the
/// list holds afterwards what it held, in some order.
#[verifier::external_body]
fn shuffle(list: &mut Vec<usize>)
    ensures
        final(list)@.to_multiset() == old(list)@.to_multiset(),
{
    list.shuffle(&mut rand::thread_rng());
}

/// `rand::seq::SliceRandom::choose_multiple` on the generator of the thread:
/// `amount` elements of the list, or all where they are fewer, taken from
/// different places of it.
#[verifier::external_body]
fn choose_multiple(list: &Vec<usize>, amount: usize) -> (r: Vec<usize>)
    ensures
        r@.len() == if amount <= list@.len() { amount as int } else { list@.len() as int },
        exists|places: Seq<int>|
            places.len() == r@.len() && places.no_duplicates() && forall|k: int|
                0 <= k < r@.len() ==> 0 <= #[trigger] places[k] < list@.len() && r@[k]
                    == list@[places[k]],
{
    list.choose_multiple(&mut rand::thread_rng(), amount).cloned().collect()
}

/// `rand::seq::SliceRandom::choose` on the generator of the thread: nothing
/// where the list is empty, else one of its elements.
#[verifier::external_body]
fn choose_one(list: &Vec<Puzzle>) -> (r: Option<&Puzzle>)
    ensures
        r is None <==> list@.len() == 0,
        r matches Some(one) ==> exists|i: int| 0 <= i < list@.len() && *one == #[trigger] list@[i],
{
    list.choose(&mut rand::thread_rng())
}

/// A cage as it is read and written: its cells, and the cages that touch
/// it and may still be merged with it, both in ascending order.
#[derive(Debug, Clone)]
pub struct Region {
    pub cells: Vec<usize>,
    pub adjacent_cages: Vec<usize>,
}

/// The digit of the canonical solution in row `row` and column `col`.
pub open spec fn canonical_digit(row: int, col: int) -> int {
    (col + row * 3 + row / 3) % 9 + 1
}

/// The cells `i` and `j` of the board lie side by side.
pub open spec fn touching(i: int, j: int) -> bool {
    &&& 0 <= i < 81
    &&& 0 <= j < 81
    &&& (i / 9 == j / 9 && (i % 9 == j % 9 + 1 || j % 9 == i % 9 + 1)) || (i % 9 == j % 9 && (i / 9
        == j / 9 + 1 || j / 9 == i / 9 + 1))
}

/// The digits of the board as a grid.
pub open spec fn as_grid(numbers: Seq<usize>) -> Seq<int> {
    Seq::new(numbers.len(), |i: int| numbers[i] as int)
}

/// The mask of the digits that the first `n` of the cells hold.
pub open spec fn value_mask(numbers: Seq<usize>, cells: Seq<usize>, n: int) -> u64
    decreases n,
{
    if n <= 0 {
        0
    } else {
        value_mask(numbers, cells, n - 1) | (1u64 << (numbers[cells[n - 1] as int] as u64))
    }
}

/// Two cages may be merged where no digit is in both, and the digits of the
/// two are fewer than 8.
pub open spec fn may_merge(numbers: Seq<usize>, first: Seq<usize>, second: Seq<usize>) -> bool {
    let a = value_mask(numbers, first, first.len() as int);
    let b = value_mask(numbers, second, second.len() as int);
    popcount(a) + popcount(b) == popcount(a | b) && popcount(a | b) < 8
}

/// The row that takes the place of the row `row` when the rows are shuffled.
pub open spec fn row_order(row: int) -> int {
    if row == 0 {
        3
    } else if row == 1 {
        5
    } else if row == 2 {
        4
    } else if row == 3 {
        6
    } else if row == 4 {
        7
    } else if row == 5 {
        8
    } else if row == 6 {
        0
    } else if row == 7 {
        2
    } else {
        1
    }
}

/// Numbers that differ by less than nine leave different remainders by nine.
proof fn lemma_remainders_differ(x: int, y: int)
    requires
        x != y,
        -9 < x - y < 9,
    ensures
        x % 9 != y % 9,
{
}

/// Two cells of one row hold different digits in the canonical solution.
proof fn lemma_canonical_row(row: int, i: int, j: int)
    requires
        0 <= row < 9,
        0 <= i < j < 9,
    ensures
        canonical_digit(row, i) != canonical_digit(row, j),
{
    lemma_remainders_differ(i + row * 3 + row / 3, j + row * 3 + row / 3);
}

/// Two cells of one column hold different digits in the canonical solution.
proof fn lemma_canonical_column(col: int, i: int, j: int)
    requires
        0 <= col < 9,
        0 <= i < j < 9,
    ensures
        canonical_digit(i, col) != canonical_digit(j, col),
{
    let x = col + 3 * (i % 3) + i / 3;
    let y = col + 3 * (j % 3) + j / 3;
    assert(col + i * 3 + i / 3 == x + 9 * (i / 3));
    assert(col + j * 3 + j / 3 == y + 9 * (j / 3));
    assert((x + 9 * (i / 3)) % 9 == x % 9);
    assert((y + 9 * (j / 3)) % 9 == y % 9);
    assert(x != y) by {
        if i % 3 == j % 3 {
            assert(i / 3 != j / 3);
        }
    }
    lemma_remainders_differ(x, y);
}

/// Two cells of one box hold different digits in the canonical solution.
proof fn lemma_canonical_box(band: int, stack: int, i: int, j: int)
    requires
        0 <= band < 3,
        0 <= stack < 3,
        0 <= i < j < 9,
    ensures
        canonical_digit(band * 3 + i / 3, stack * 3 + i % 3) != canonical_digit(
            band * 3 + j / 3,
            stack * 3 + j % 3,
        ),
{
    let base = stack * 3 + band * 10;
    assert((band * 3 + i / 3) / 3 == band);
    assert((band * 3 + j / 3) / 3 == band);
    assert(stack * 3 + i % 3 + (band * 3 + i / 3) * 3 + (band * 3 + i / 3) / 3 == base + i);
    assert(stack * 3 + j % 3 + (band * 3 + j / 3) * 3 + (band * 3 + j / 3) / 3 == base + j);
    lemma_remainders_differ(base + i, base + j);
}

/// The row and the column of a cell of a row, a column or a box.
proof fn lemma_unit_place(u: int, j: int)
    requires
        0 <= u < 27,
        0 <= j < 9,
    ensures
        0 <= unit_cell(u, j) < 81,
        u < 9 ==> unit_cell(u, j) / 9 == u && unit_cell(u, j) % 9 == j,
        9 <= u < 18 ==> unit_cell(u, j) / 9 == j && unit_cell(u, j) % 9 == u - 9,
        18 <= u ==> unit_cell(u, j) / 9 == ((u - 18) / 3) * 3 + j / 3 && unit_cell(u, j) % 9 == ((u
            - 18) % 3) * 3 + j % 3,
{
}

/// Two cells of one row, column or box hold different digits in the
/// canonical solution.
proof fn lemma_canonical_differ(u: int, i: int, j: int)
    requires
        0 <= u < 27,
        0 <= i < j < 9,
    ensures
        0 <= unit_cell(u, i) < 81,
        0 <= unit_cell(u, j) < 81,
        canonical_digit(unit_cell(u, i) / 9, unit_cell(u, i) % 9) != canonical_digit(
            unit_cell(u, j) / 9,
            unit_cell(u, j) % 9,
        ),
{
    lemma_unit_place(u, i);
    lemma_unit_place(u, j);
    if u < 9 {
        lemma_canonical_row(u, i, j);
    } else if u < 18 {
        lemma_canonical_column(u - 9, i, j);
    } else {
        lemma_canonical_box((u - 18) / 3, (u - 18) % 3, i, j);
    }
}

/// The canonical solution keeps the rules of Sudoku.
pub proof fn lemma_canonical_valid(g: Seq<int>)
    requires
        g.len() == 81,
        forall|row: int, col: int|
            0 <= row < 9 && 0 <= col < 9 ==> #[trigger] g[row * 9 + col] == canonical_digit(
                row,
                col,
            ),
    ensures
        sudoku_valid(g),
{
    assert forall|u: int| 0 <= u < 27 implies cells_distinct(g, #[trigger] unit_cells(u)) by {
        let cells = unit_cells(u);
        assert forall|i: int, j: int| 0 <= i < j < cells.len() implies g[#[trigger] cells[i] as int]
            != g[#[trigger] cells[j] as int] by {
            lemma_canonical_differ(u, i, j);
            let a = unit_cell(u, i);
            let b = unit_cell(u, j);
            assert(g[(a / 9) * 9 + a % 9] == canonical_digit(a / 9, a % 9));
            assert(g[(b / 9) * 9 + b % 9] == canonical_digit(b / 9, b % 9));
        }
    }
}

/// The digits of the canonical solution, cell by cell, keep the rules of Sudoku.
proof fn lemma_canonical_numbers(numbers: Seq<usize>)
    requires
        numbers.len() == 81,
        forall|k: int| 0 <= k < 81 ==> #[trigger] numbers[k] == canonical_digit(k / 9, k % 9),
    ensures
        sudoku_valid(as_grid(numbers)),
{
    let g = as_grid(numbers);
    assert forall|row: int, col: int| 0 <= row < 9 && 0 <= col < 9 implies #[trigger] g[row * 9
        + col] == canonical_digit(row, col) by {
        let k = row * 9 + col;
        assert(k / 9 == row && k % 9 == col);
        assert(numbers[k] == canonical_digit(k / 9, k % 9));
    }
    lemma_canonical_valid(g);
}

/// A grid that holds the same digit in two cells exactly where a grid that
/// keeps the rules of Sudoku does, keeps them too.
pub proof fn lemma_renamed_valid(before: Seq<int>, after: Seq<int>)
    requires
        sudoku_valid(before),
        forall|i: int, j: int|
            0 <= i < 81 && 0 <= j < 81 ==> ((#[trigger] after[i] == #[trigger] after[j])
                <==> before[i] == before[j]),
    ensures
        sudoku_valid(after),
{
    assert forall|u: int| 0 <= u < 27 implies cells_distinct(after, #[trigger] unit_cells(u)) by {
        let cells = unit_cells(u);
        assert(cells_distinct(before, cells));
        assert forall|i: int, j: int| 0 <= i < j < cells.len() implies after[
            #[trigger] cells[i] as int] != after[#[trigger] cells[j] as int] by {
            assert(0 <= unit_cell(u, i) < 81 && 0 <= unit_cell(u, j) < 81);
            assert(before[cells[i] as int] != before[cells[j] as int]);
        }
    }
}

/// The place in its row, column or box that a cell comes from when the
/// rows are shuffled.
spec fn shuffled_place(u: int, j: int) -> int {
    if u < 9 {
        j
    } else if u < 18 {
        row_order(j)
    } else {
        (row_order(((u - 18) / 3) * 3 + j / 3) % 3) * 3 + j % 3
    }
}

/// The row, column or box that the cells of one come from when the rows
/// are shuffled.
spec fn shuffled_unit(u: int) -> int {
    if u < 9 {
        row_order(u)
    } else if u < 18 {
        u
    } else {
        18 + (((u - 18) / 3 + 1) % 3) * 3 + (u - 18) % 3
    }
}

/// The shuffle takes each row from another row, the rows of a band from
/// the rows of the band below it.
proof fn lemma_row_order(row: int)
    requires
        0 <= row < 9,
    ensures
        0 <= row_order(row) < 9,
        row_order(row) / 3 == (row / 3 + 1) % 3,
        forall|other: int| 0 <= other < 9 && other != row ==> row_order(other) != row_order(row),
{
}

/// Where the cell of a row, column or box comes from when the rows are
/// shuffled: a cell of one row, column or box, another for another cell.
proof fn lemma_shuffled_place(u: int, j: int)
    requires
        0 <= u < 27,
        0 <= j < 9,
    ensures
        0 <= shuffled_unit(u) < 27,
        0 <= shuffled_place(u, j) < 9,
        0 <= unit_cell(u, j) < 81,
        row_order(unit_cell(u, j) / 9) * 9 + unit_cell(u, j) % 9 == unit_cell(
            shuffled_unit(u),
            shuffled_place(u, j),
        ),
        forall|k: int| 0 <= k < 9 && k != j ==> shuffled_place(u, k) != shuffled_place(u, j),
{
    lemma_unit_place(u, j);
    if u < 9 {
        lemma_row_order(u);
    } else if u < 18 {
        lemma_row_order(j);
        assert forall|k: int| 0 <= k < 9 && k != j implies shuffled_place(u, k)
            != shuffled_place(u, j) by {
            lemma_row_order(k);
        }
    } else {
        let band = (u - 18) / 3;
        let stack = (u - 18) % 3;
        let row = band * 3 + j / 3;
        lemma_row_order(row);
        let from = shuffled_unit(u);
        let place = shuffled_place(u, j);
        assert(row / 3 == band);
        assert(place == (row_order(row) % 3) * 3 + j % 3);
        assert(place / 3 == row_order(row) % 3 && place % 3 == j % 3);
        assert((from - 18) / 3 == (band + 1) % 3 && (from - 18) % 3 == stack);
        assert(row_order(row) == ((band + 1) % 3) * 3 + row_order(row) % 3);
        assert forall|k: int| 0 <= k < 9 && k != j implies shuffled_place(u, k)
            != shuffled_place(u, j) by {
            let other = band * 3 + k / 3;
            lemma_row_order(other);
            if k / 3 == j / 3 {
                assert(k % 3 != j % 3);
            } else {
                assert(other != row);
                assert(row_order(other) / 3 == row_order(row) / 3);
                assert(row_order(other) % 3 != row_order(row) % 3);
            }
            assert(shuffled_place(u, k) == (row_order(other) % 3) * 3 + k % 3);
        }
    }
}

/// Two cells of one row, column or box come, when the rows are shuffled,
/// from two cells of one row, column or box.
proof fn lemma_shuffled_pair(u: int, i: int, j: int) -> (from: (int, int, int))
    requires
        0 <= u < 27,
        0 <= i < j < 9,
    ensures
        0 <= from.0 < 27,
        0 <= from.1 < from.2 < 9,
        ({
            let a = unit_cell(u, i);
            let b = unit_cell(u, j);
            let x = row_order(a / 9) * 9 + a % 9;
            let y = row_order(b / 9) * 9 + b % 9;
            &&& 0 <= a < 81
            &&& 0 <= b < 81
            &&& (x == unit_cell(from.0, from.1) && y == unit_cell(from.0, from.2)) || (x
                == unit_cell(from.0, from.2) && y == unit_cell(from.0, from.1))
        }),
{
    lemma_shuffled_place(u, i);
    lemma_shuffled_place(u, j);
    let p = shuffled_place(u, i);
    let q = shuffled_place(u, j);
    if p < q {
        (shuffled_unit(u), p, q)
    } else {
        (shuffled_unit(u), q, p)
    }
}

/// A grid that keeps the rules of Sudoku keeps them when its rows are shuffled.
pub proof fn lemma_shuffled_valid(before: Seq<int>, after: Seq<int>)
    requires
        sudoku_valid(before),
        forall|k: int|
            0 <= k < 81 ==> #[trigger] after[k] == before[row_order(k / 9) * 9 + k % 9],
    ensures
        sudoku_valid(after),
{
    assert forall|u: int| 0 <= u < 27 implies cells_distinct(after, #[trigger] unit_cells(u)) by {
        let cells = unit_cells(u);
        assert forall|i: int, j: int| 0 <= i < j < cells.len() implies after[
            #[trigger] cells[i] as int] != after[#[trigger] cells[j] as int] by {
            let from = lemma_shuffled_pair(u, i, j);
            let source = unit_cells(from.0);
            assert(cells_distinct(before, source));
            assert(before[source[from.1] as int] != before[source[from.2] as int]);
            let a = unit_cell(u, i);
            let b = unit_cell(u, j);
            assert(cells[i] == a && cells[j] == b);
            assert(after[a] == before[row_order(a / 9) * 9 + a % 9]);
            assert(after[b] == before[row_order(b / 9) * 9 + b % 9]);
            assert(source[from.1] == unit_cell(from.0, from.1));
            assert(source[from.2] == unit_cell(from.0, from.2));
        }
    }
}

/// The list holds the digits 1 to 9, each once.
pub open spec fn is_rearrangement(list: Seq<usize>) -> bool {
    &&& list.len() == 9
    &&& forall|k: int| 0 <= k < 9 ==> 1 <= #[trigger] list[k] <= 9
    &&& forall|p: int, q: int| 0 <= p < 9 && 0 <= q < 9 && p != q ==> list[p] != list[q]
}

/// Each digit of the grid `before` has given way, in the grid `after`, to
/// the digit that `list` holds in its place.
pub open spec fn renamed_by(before: Seq<usize>, after: Seq<usize>, list: Seq<usize>) -> bool {
    after.len() == before.len() && forall|i: int|
        0 <= i < before.len() ==> #[trigger] after[i] == list[before[i] - 1]
}

/// A list that holds the digits 1 to 9 in some order holds nine different digits.
proof fn lemma_rearranged(base: Seq<usize>, list: Seq<usize>)
    requires
        base.len() == 9,
        forall|k: int| 0 <= k < 9 ==> #[trigger] base[k] == k + 1,
        list.to_multiset() == base.to_multiset(),
    ensures
        list.len() == 9,
        forall|k: int| 0 <= k < 9 ==> 1 <= #[trigger] list[k] <= 9,
        forall|p: int, q: int| 0 <= p < 9 && 0 <= q < 9 && p != q ==> list[p] != list[q],
{
    broadcast use vstd::seq_lib::group_to_multiset_ensures;

    assert(base.no_duplicates());
    base.lemma_multiset_has_no_duplicates();
    list.lemma_multiset_has_no_duplicates_conv();
    assert(list.to_multiset().len() == list.len());
    assert(base.to_multiset().len() == base.len());
    assert forall|k: int| 0 <= k < 9 implies 1 <= #[trigger] list[k] <= 9 by {
        assert(list.to_multiset().count(list[k]) > 0);
        assert(base.contains(list[k]));
        let j = choose|j: int| 0 <= j < base.len() && base[j] == list[k];
    }
}

/// The written cages as pairs of sum and cells.
pub open spec fn written_views(cages: Seq<SerializableCage>) -> Seq<(int, Seq<usize>)> {
    Seq::new(cages.len(), |k: int| (cages[k].sum as int, cages[k].cell_indices@))
}

/// A pair of cages that may be tried, with the weight by which it is picked.
#[derive(Debug, Clone, Copy, PartialEq, Eq)]
pub struct Merge {
    pub first: usize,
    pub second: usize,
    pub weight: usize,
}

/// The pair of the cages `a` and `b` is in the list.
pub open spec fn listed(list: Seq<Merge>, a: int, b: int) -> bool {
    exists|k: int| 0 <= k < list.len() && (#[trigger] list[k]).first == a && list[k].second == b
}

/// The weights of the first `n` pairs, added up.
pub open spec fn cumulative(list: Seq<Merge>, n: int) -> int
    decreases n,
{
    if n <= 0 {
        0
    } else {
        cumulative(list, n - 1) + list[n - 1].weight
    }
}

proof fn lemma_listed_push(list: Seq<Merge>, merge: Merge)
    ensures
        forall|a: int, b: int| listed(list, a, b) ==> #[trigger] listed(list.push(merge), a, b),
{
    assert forall|a: int, b: int| listed(list, a, b) implies #[trigger] listed(
        list.push(merge),
        a,
        b,
    ) by {
        let k = choose|k: int|
            0 <= k < list.len() && (#[trigger] list[k]).first == a && list[k].second == b;
        assert(list.push(merge)[k] == list[k]);
    }
}

/// The weights add up to no less as more pairs are counted.
proof fn lemma_cumulative_grows(list: Seq<Merge>, m: int, n: int)
    requires
        0 <= m <= n,
    ensures
        0 <= cumulative(list, m) <= cumulative(list, n),
    decreases n,
{
    if m < n {
        lemma_cumulative_grows(list, m, n - 1);
    } else if n > 0 {
        lemma_cumulative_grows(list, m - 1, n - 1);
    }
}

/// The weights of the pairs, added up. They must add up to a number that
/// the machine can hold.
pub fn total_weight(list: &Vec<Merge>) -> (r: usize)
    requires
        cumulative(list@, list@.len() as int) <= usize::MAX,
    ensures
        r == cumulative(list@, list@.len() as int),
{
    let mut total: usize = 0;
    let mut k: usize = 0;
    while k < list.len()
        invariant
            0 <= k <= list.len(),
            cumulative(list@, list@.len() as int) <= usize::MAX,
            total == cumulative(list@, k as int),
        decreases list.len() - k,
    {
        proof {
            lemma_cumulative_grows(list@, k + 1, list@.len() as int);
        }
        total += list[k].weight;
        k += 1;
    }
    total
}

/// The place of the first pair up to which the weights add up to more than `random_number`.
pub fn select_merge(list: &Vec<Merge>, random_number: usize) -> (r: usize)
    requires
        random_number < cumulative(list@, list@.len() as int),
    ensures
        r < list@.len(),
        cumulative(list@, r as int) <= random_number < cumulative(list@, r + 1),
{
    let mut total: usize = 0;
    let mut k: usize = 0;
    while k < list.len()
        invariant
            0 <= k <= list.len(),
            total == cumulative(list@, k as int),
            total <= random_number,
            random_number < cumulative(list@, list@.len() as int),
        decreases list.len() - k,
    {
        if list[k].weight > random_number - total {
            return k;
        }
        total += list[k].weight;
        k += 1;
    }
    0
}

/// Some entry holds just the cell `i`.
pub open spec fn keeps(entries: Seq<(usize, Vec<usize>)>, i: int) -> bool {
    exists|k: int| 0 <= k < entries.len() && (#[trigger] entries[k]).1@ == seq![i as usize]
}

/// An entry with one cell of the board stands for a well-formed cage of that cell.
proof fn lemma_single_entry(entry: (usize, Vec<usize>))
    requires
        entry.1@.len() == 1,
        entry.1@[0] < 81,
    ensures
        input_cage(entry).wf(),
        input_cage(entry).cells == entry.1@,
{
    lemma_sorted_already(entry.1@);
}

/// A cage as the generator keeps it: the set of its cells, and the set of
/// the cages that touch it and may still be merged with it.
#[derive(Debug, Clone)]
struct Plot {
    cells: BTreeSet<usize>,
    adjacent_cages: BTreeSet<usize>,
}

/// The cage with the number `key`, where the map holds one, with its cells
/// and the cages that touch it as ascending lists.
fn lookup(map: &BTreeMap<usize, Plot>, key: usize) -> (r: Option<Region>)
    ensures
        r is Some <==> map@.contains_key(key),
        r matches Some(region) ==> region.cells@ == listing(map@[key].cells@)
            && region.adjacent_cages@ == listing(map@[key].adjacent_cages@),
{
    broadcast use vstd::laws_cmp::group_laws_cmp;
    broadcast use vstd::std_specs::btree::group_btree_axioms;

    assert(vstd::laws_cmp::obeys_cmp::<usize>());
    match map.get(&key) {
        Some(plot) => Some(
            Region {
                cells: ascending(&plot.cells),
                adjacent_cages: ascending(&plot.adjacent_cages),
            },
        ),
        None => None,
    }
}

/// Whether the map holds a cage with the number `key`.
fn holds(map: &BTreeMap<usize, Plot>, key: usize) -> (r: bool)
    ensures
        r == map@.contains_key(key),
{
    broadcast use vstd::laws_cmp::group_laws_cmp;
    broadcast use vstd::std_specs::btree::group_btree_axioms;

    assert(vstd::laws_cmp::obeys_cmp::<usize>());
    map.contains_key(&key)
}

/// Puts the cage into the map under the number `key`, in place of the one
/// that was there.
fn store(map: &mut BTreeMap<usize, Plot>, key: usize, region: Region)
    requires
        strictly_increasing(region.cells@),
        strictly_increasing(region.adjacent_cages@),
    ensures
        final(map)@ == old(map)@.insert(key, final(map)@[key]),
        listing(final(map)@[key].cells@) == region.cells@,
        listing(final(map)@[key].adjacent_cages@) == region.adjacent_cages@,
{
    broadcast use vstd::laws_cmp::group_laws_cmp;
    broadcast use vstd::std_specs::btree::group_btree_axioms;

    assert(vstd::laws_cmp::obeys_cmp::<usize>());
    let plot = Plot {
        cells: as_set(&region.cells),
        adjacent_cages: as_set(&region.adjacent_cages),
    };
    let _ = map.insert(key, plot);
}

/// Takes the cage with the number `key` out of the map.
fn take_out(map: &mut BTreeMap<usize, Plot>, key: usize)
    ensures
        final(map)@ == old(map)@.remove(key),
{
    broadcast use vstd::laws_cmp::group_laws_cmp;
    broadcast use vstd::std_specs::btree::group_btree_axioms;

    assert(vstd::laws_cmp::obeys_cmp::<usize>());
    let _ = map.remove(&key);
}

/// A solved grid with its cells shared out among cages, each cage under its number.
#[derive(Debug, Clone)]
pub struct Generator {
    numbers: Vec<usize>,
    cages: BTreeMap<usize, Plot>,
}

impl Generator {
    /// The digits of the grid, row by row.
    pub closed spec fn numbers(&self) -> Seq<usize> {
        self.numbers@
    }

    /// There is a cage with the number `i`.
    pub closed spec fn has_cage(&self, i: int) -> bool {
        0 <= i < 81 && self.cages@.contains_key(i as usize)
    }

    /// The cells of the cage with the number `i`.
    pub closed spec fn cells_of(&self, i: int) -> Seq<usize> {
        listing(self.cages@[i as usize].cells@)
    }

    /// The cages that touch the cage with the number `i` and may still be merged with it.
    pub closed spec fn adjacent_of(&self, i: int) -> Seq<usize> {
        listing(self.cages@[i as usize].adjacent_cages@)
    }

    /// The grid holds digits, the cages hold cells of the board in
    /// ascending order, and each cage is listed with those that list it.
    pub open spec fn wf(&self) -> bool {
        &&& self.numbers().len() == 81
        &&& forall|i: int| 0 <= i < 81 ==> 1 <= #[trigger] self.numbers()[i] <= 9
        &&& forall|i: int| #[trigger]
            self.has_cage(i) ==> cells_wf(self.cells_of(i)) && self.cells_of(i).len() >= 1
                && strictly_increasing(self.adjacent_of(i))
        &&& forall|i: int, k: int|
            self.has_cage(i) && 0 <= k < self.adjacent_of(i).len() ==> self.linked(
                i,
                #[trigger] self.adjacent_of(i)[k] as int,
            )
    }

    /// The grid keeps the rules of Sudoku, and no cage holds a digit twice.
    pub open spec fn sound(&self) -> bool {
        &&& sudoku_valid(as_grid(self.numbers()))
        &&& forall|i: int| #[trigger]
            self.has_cage(i) ==> cells_distinct(as_grid(self.numbers()), self.cells_of(i))
    }

    /// The generator is sound, and every cage has fewer than 8 cells.
    pub open spec fn fit(&self) -> bool {
        &&& self.sound()
        &&& forall|i: int| #[trigger] self.has_cage(i) ==> self.cells_of(i).len() < 8
    }

    /// The cage `j` is another cage than `i`, and lists `i`.
    pub open spec fn linked(&self, i: int, j: int) -> bool {
        j != i && self.has_cage(j) && self.adjacent_of(j).contains(i as usize)
    }

    /// The number of cages.
    pub fn get_num_cages(&self) -> (r: usize)
        ensures
            r == self.count_cages(81),
    {
        let mut count: usize = 0;
        let mut i: usize = 0;
        while i < 81
            invariant
                0 <= i <= 81,
                count == self.count_cages(i as int),
                count <= i,
            decreases 81 - i,
        {
            if holds(&self.cages, i) {
                count += 1;
            }
            i += 1;
        }
        count
    }

    /// The number of cages with a number below `n`.
    pub open spec fn count_cages(&self, n: int) -> int
        decreases n,
    {
        if n <= 0 {
            0
        } else {
            self.count_cages(n - 1) + if self.has_cage(n - 1) { 1int } else { 0int }
        }
    }

    /// Whether there is a cage with the number `index`.
    pub fn contains_cage(&self, index: usize) -> (r: bool)
        ensures
            r == self.has_cage(index as int),
    {
        index < 81 && holds(&self.cages, index)
    }

    /// The cells of the cage with the number `index`.
    pub fn cage_cells(&self, index: usize) -> (r: Vec<usize>)
        requires
            self.has_cage(index as int),
        ensures
            r@ == self.cells_of(index as int),
    {
        match lookup(&self.cages, index) {
            Some(region) => copy_indices(&region.cells),
            None => Vec::new(),
        }
    }

    /// The cages listed with the cage with the number `index`.
    pub fn cage_adjacent(&self, index: usize) -> (r: Vec<usize>)
        requires
            self.has_cage(index as int),
        ensures
            r@ == self.adjacent_of(index as int),
    {
        match lookup(&self.cages, index) {
            Some(region) => copy_indices(&region.adjacent_cages),
            None => Vec::new(),
        }
    }

    /// The digits of the grid, row by row.
    pub fn get_numbers(&self) -> (r: Vec<usize>)
        ensures
            r@ == self.numbers(),
    {
        copy_indices(&self.numbers)
    }

    /// The canonical solution, each cell a cage of its own with the number of
    /// the cell, listed with the cages of the cells beside it.
    pub fn new_canonical() -> (r: Self)
        ensures
            r.wf(),
            r.sound(),
            r.fit(),
            forall|row: int, col: int|
                0 <= row < 9 && 0 <= col < 9 ==> #[trigger] r.numbers()[row * 9 + col]
                    == canonical_digit(row, col),
            forall|i: int| 0 <= i < 81 ==> #[trigger] r.has_cage(i),
            forall|i: int| 0 <= i < 81 ==> #[trigger] r.cells_of(i) == seq![i as usize],
            forall|i: int, j: usize|
                0 <= i < 81 ==> (#[trigger] r.adjacent_of(i).contains(j) <==> touching(
                    i,
                    j as int,
                )),
    {
        let mut numbers: Vec<usize> = Vec::new();
        let mut cages: BTreeMap<usize, Plot> = BTreeMap::new();
        let mut i: usize = 0;
        while i < 81
            invariant
                0 <= i <= 81,
                numbers@.len() == i,
                forall|k: int|
                    0 <= k < i ==> #[trigger] numbers@[k] == canonical_digit(k / 9, k % 9),
                forall|k: int| 0 <= k < i ==> #[trigger] cages@.contains_key(k as usize),
                forall|k: int|
                    0 <= k < i ==> listing((#[trigger] cages@[k as usize]).cells@) == seq![
                        k as usize,
                    ] && strictly_increasing(listing(cages@[k as usize].adjacent_cages@))
                        && forall|j: usize|
                        listing(cages@[k as usize].adjacent_cages@).contains(j) <==> touching(
                            k,
                            j as int,
                        ),
            decreases 81 - i,
        {
            let row: usize = i / 9;
            let col: usize = i % 9;
            numbers.push((col + row * 3 + row / 3) % 9 + 1);
            let mut cells: Vec<usize> = Vec::new();
            cells.push(i);
            let mut adjacent: Vec<usize> = Vec::new();
            if row > 0 {
                adjacent.push(i - 9);
            }
            if col > 0 {
                adjacent.push(i - 1);
            }
            if col < 8 {
                adjacent.push(i + 1);
            }
            if row < 8 {
                adjacent.push(i + 9);
            }
            proof {
                let adj = adjacent@;
                assert forall|j: usize| adj.contains(j) <==> touching(i as int, j as int) by {
                    if adj.contains(j) {
                        let k = choose|k: int| 0 <= k < adj.len() && adj[k] == j;
                    }
                    if touching(i as int, j as int) {
                        if j == i - 9 {
                            assert(adj[0] == j);
                        } else if j == i - 1 {
                            if row > 0 {
                                assert(adj[1] == j);
                            } else {
                                assert(adj[0] == j);
                            }
                        } else if j == i + 1 {
                            let at = (if row > 0 { 1int } else { 0int }) + (if col > 0 {
                                1int
                            } else {
                                0int
                            });
                            assert(adj[at] == j);
                        } else {
                            assert(j == i + 9);
                            assert(adj[adj.len() - 1] == j);
                        }
                    }
                }
                assert(cells@ =~= seq![i]);
            }
            store(&mut cages, i, Region { cells, adjacent_cages: adjacent });
            i += 1;
        }
        proof {
            lemma_canonical_numbers(numbers@);
        }
        let r = Generator { numbers, cages };
        proof {
            assert forall|row: int, col: int| 0 <= row < 9
                && 0 <= col < 9 implies #[trigger] r.numbers()[row
                * 9 + col] == canonical_digit(row, col) by {
                let k = row * 9 + col;
                assert(numbers@[k] == canonical_digit(k / 9, k % 9));
            }
            assert forall|i: int, k: int|
                r.has_cage(i) && 0 <= k < r.adjacent_of(i).len() implies r.linked(
                i,
                #[trigger] r.adjacent_of(i)[k] as int,
            ) by {
                let j = r.adjacent_of(i)[k];
                assert(r.adjacent_of(i).contains(j));
                assert(touching(i, j as int));
                assert(touching(j as int, i));
                assert(r.has_cage(j as int));
                assert(r.adjacent_of(j as int).contains(i as usize));
            }
        }
        r
    }

    /// The sum of the digits of the cells.
    fn sum_of(&self, cells: &Vec<usize>) -> (r: usize)
        requires
            self.wf(),
            cells_wf(cells@),
        ensures
            r == cells_sum(as_grid(self.numbers()), cells@, cells@.len() as int),
    {
        let mut total: usize = 0;
        let mut k: usize = 0;
        proof {
            crate::cage::lemma_cells_len(cells@);
        }
        while k < cells.len()
            invariant
                0 <= k <= cells.len(),
                cells.len() <= 81,
                self.wf(),
                cells_wf(cells@),
                total == cells_sum(as_grid(self.numbers()), cells@, k as int),
                total <= 9 * k,
            decreases cells.len() - k,
        {
            let c: usize = cells[k];
            assert(self.numbers()[c as int] <= 9);
            total += self.numbers[c];
            k += 1;
        }
        total
    }

    /// The cages with a number below `n` as they are written down, in the
    /// order of their numbers: each with the sum of its digits and its cells.
    pub open spec fn written(&self, n: int) -> Seq<(int, Seq<usize>)>
        decreases n,
    {
        if n <= 0 {
            Seq::empty()
        } else if self.has_cage(n - 1) {
            self.written(n - 1).push(
                (
                    cells_sum(
                        as_grid(self.numbers()),
                        self.cells_of(n - 1),
                        self.cells_of(n - 1).len() as int,
                    ),
                    self.cells_of(n - 1),
                ),
            )
        } else {
            self.written(n - 1)
        }
    }

    /// The puzzle written down: the digits of the grid, and the cages in the
    /// order of their numbers, each with the sum of its digits.
    pub fn serialize(&self) -> (r: SerializablePuzzle)
        requires
            self.wf(),
        ensures
            r.cell_values@ == self.numbers(),
            written_views(r.cages@) == self.written(81),
    {
        let mut cages: Vec<SerializableCage> = Vec::new();
        let mut i: usize = 0;
        assert(written_views(cages@) =~= self.written(0));
        while i < 81
            invariant
                0 <= i <= 81,
                self.wf(),
                written_views(cages@) == self.written(i as int),
            decreases 81 - i,
        {
            let ghost before = cages@;
            match lookup(&self.cages, i) {
                Some(region) => {
                    assert(self.has_cage(i as int));
                    let sum = self.sum_of(&region.cells);
                    let written = SerializableCage { sum, cell_indices: copy_indices(
                        &region.cells) };
                    cages.push(written);
                    assert(written_views(cages@) =~= self.written(i + 1));
                },
                None => {},
            }
            i += 1;
        }
        SerializablePuzzle { cell_values: copy_indices(&self.numbers), cages }
    }

    /// Gives each digit of the grid the digit that `sequence` holds in its place.
    pub fn apply_renumbering(&mut self, sequence: &Vec<usize>)
        requires
            old(self).wf(),
            sequence@.len() == 9,
            forall|k: int| 0 <= k < 9 ==> 1 <= #[trigger] sequence@[k] <= 9,
        ensures
            final(self).wf(),
            forall|i: int|
                0 <= i < 81 ==> #[trigger] final(self).numbers()[i] == sequence@[old(
                    self).numbers()[i] - 1],
            forall|i: int| final(self).has_cage(i) == old(self).has_cage(i),
            forall|i: int|
                old(self).has_cage(i) ==> final(self).cells_of(i) == old(self).cells_of(i)
                    && final(self).adjacent_of(i) == old(self).adjacent_of(i),
    {
        let mut i: usize = 0;
        while i < 81
            invariant
                0 <= i <= 81,
                sequence@.len() == 9,
                forall|k: int| 0 <= k < 9 ==> 1 <= #[trigger] sequence@[k] <= 9,
                old(self).wf(),
                self.cages == old(self).cages,
                self.numbers@.len() == 81,
                forall|j: int|
                    0 <= j < i ==> #[trigger] self.numbers@[j] == sequence@[old(
                        self).numbers@[j] - 1],
                forall|j: int| i <= j < 81 ==> #[trigger] self.numbers@[j] == old(self).numbers@[j],
            decreases 81 - i,
        {
            assert(1 <= old(self).numbers()[i as int] <= 9);
            let value: usize = self.numbers[i];
            self.numbers.set(i, sequence[value - 1]);
            i += 1;
        }
        proof {
            assert forall|j: int| 0 <= j < 81 implies 1 <= #[trigger] self.numbers()[j] <= 9 by {
                assert(1 <= old(self).numbers()[j] <= 9);
            }
            lemma_same_cages(*old(self), *self);
        }
    }

    /// Renames the digits of the grid by a random rearrangement of the
    /// digits 1 to 9: each digit gives way to the digit that the
    /// rearrangement holds in its place, so that cells hold the same digit
    /// after it exactly where they did before. The rearrangement may be the
    /// one that leaves every digit as it is.
    pub fn renumber(&mut self)
        requires
            old(self).wf(),
        ensures
            final(self).wf(),
            exists|list: Seq<usize>|
                is_rearrangement(list) && #[trigger] renamed_by(
                    old(self).numbers(),
                    final(self).numbers(),
                    list,
                ),
            sudoku_valid(as_grid(old(self).numbers())) ==> sudoku_valid(
                as_grid(final(self).numbers()),
            ),
            old(self).sound() ==> final(self).sound(),
            old(self).fit() ==> final(self).fit(),
            forall|i: int, j: int|
                0 <= i < 81 && 0 <= j < 81 ==> ((#[trigger] final(self).numbers()[i] == (
                #[trigger] final(self).numbers()[j])) <==> old(self).numbers()[i] == old(
                    self).numbers()[j]),
            forall|i: int| final(self).has_cage(i) == old(self).has_cage(i),
            forall|i: int|
                old(self).has_cage(i) ==> final(self).cells_of(i) == old(self).cells_of(i)
                    && final(self).adjacent_of(i) == old(self).adjacent_of(i),
    {
        let mut sequence: Vec<usize> = Vec::new();
        let mut d: usize = 1;
        while d <= 9
            invariant
                1 <= d <= 10,
                sequence@.len() == d - 1,
                forall|k: int| 0 <= k < d - 1 ==> #[trigger] sequence@[k] == k + 1,
            decreases 10 - d,
        {
            sequence.push(d);
            d += 1;
        }
        let ghost base = sequence@;
        shuffle(&mut sequence);
        proof {
            lemma_rearranged(base, sequence@);
        }
        self.apply_renumbering(&sequence);
        proof {
            assert(is_rearrangement(sequence@));
            assert(renamed_by(old(self).numbers(), self.numbers(), sequence@));
            assert forall|i: int, j: int| 0 <= i < 81 && 0 <= j < 81 implies ((
            #[trigger] self.numbers()[i] == (#[trigger] self.numbers()[j])) <==> old(
                self).numbers()[i] == old(self).numbers()[j]) by {
                let p = old(self).numbers()[i] - 1;
                let q = old(self).numbers()[j] - 1;
                assert(1 <= old(self).numbers()[i] <= 9 && 1 <= old(self).numbers()[j] <= 9);
                if p != q {
                    assert(sequence@[p] != sequence@[q]);
                }
            }
            if sudoku_valid(as_grid(old(self).numbers())) {
                lemma_renamed_valid(as_grid(old(self).numbers()), as_grid(self.numbers()));
            }
            if old(self).sound() {
                let before = as_grid(old(self).numbers());
                let after = as_grid(self.numbers());
                assert forall|c: int| #[trigger] self.has_cage(c) implies cells_distinct(
                    after,
                    self.cells_of(c),
                ) by {
                    let cells = self.cells_of(c);
                    assert(old(self).has_cage(c));
                    assert(cells_distinct(before, cells));
                    assert forall|p: int, q: int| 0 <= p < q < cells.len() implies after[
                        #[trigger] cells[p] as int] != after[#[trigger] cells[q] as int] by {
                        assert(cells[p] < 81 && cells[q] < 81);
                        assert(before[cells[p] as int] != before[cells[q] as int]);
                    }
                }
            }
        }
    }

    /// Puts the rows of the grid in the order 3, 5, 4, 6, 7, 8, 0, 2, 1.
    pub fn shuffle_rows(&mut self)
        requires
            old(self).wf(),
        ensures
            final(self).wf(),
            sudoku_valid(as_grid(old(self).numbers())) ==> sudoku_valid(
                as_grid(final(self).numbers()),
            ),
            forall|row: int, col: int|
                0 <= row < 9 && 0 <= col < 9 ==> #[trigger] final(self).numbers()[row * 9 + col]
                    == old(self).numbers()[row_order(row) * 9 + col],
            forall|i: int| final(self).has_cage(i) == old(self).has_cage(i),
            forall|i: int|
                old(self).has_cage(i) ==> final(self).cells_of(i) == old(self).cells_of(i)
                    && final(self).adjacent_of(i) == old(self).adjacent_of(i),
    {
        let mut new_numbers: Vec<usize> = Vec::new();
        let mut i: usize = 0;
        while i < 81
            invariant
                0 <= i <= 81,
                self.wf(),
                *self == *old(self),
                new_numbers@.len() == i,
                forall|k: int|
                    0 <= k < i ==> #[trigger] new_numbers@[k] == self.numbers()[row_order(k / 9)
                        * 9 + k % 9],
            decreases 81 - i,
        {
            let row: usize = i / 9;
            let source: usize = if row == 0 {
                3
            } else if row == 1 {
                5
            } else if row == 2 {
                4
            } else if row == 3 {
                6
            } else if row == 4 {
                7
            } else if row == 5 {
                8
            } else if row == 6 {
                0
            } else if row == 7 {
                2
            } else {
                1
            };
            new_numbers.push(self.numbers[source * 9 + i % 9]);
            i += 1;
        }
        self.numbers = new_numbers;
        proof {
            assert forall|k: int| 0 <= k < 81 implies 1 <= #[trigger] self.numbers()[k] <= 9 by {
                let from = row_order(k / 9) * 9 + k % 9;
                assert(1 <= old(self).numbers()[from] <= 9);
            }
            assert forall|row: int, col: int| 0 <= row < 9
                && 0 <= col < 9 implies #[trigger] self.numbers()[row
                * 9 + col] == old(self).numbers()[row_order(row) * 9 + col] by {
                let k = row * 9 + col;
                assert(k / 9 == row && k % 9 == col);
                assert(self.numbers@[k] == old(self).numbers()[row_order(k / 9) * 9 + k % 9]);
            }
            lemma_same_cages(*old(self), *self);
            if sudoku_valid(as_grid(old(self).numbers())) {
                let before = as_grid(old(self).numbers());
                let after = as_grid(self.numbers());
                assert forall|k: int| 0 <= k < 81 implies #[trigger] after[k] == before[row_order(
                    k / 9,
                ) * 9 + k % 9] by {
                    assert(self.numbers@[k] == old(self).numbers()[row_order(k / 9) * 9 + k % 9]);
                }
                lemma_shuffled_valid(before, after);
            }
        }
    }

    /// The mask of the digits that the cells hold.
    fn values_of(&self, cells: &Vec<usize>) -> (r: u64)
        requires
            self.wf(),
            cells_wf(cells@),
        ensures
            r == value_mask(self.numbers(), cells@, cells@.len() as int),
    {
        let mut mask: u64 = 0;
        let mut k: usize = 0;
        while k < cells.len()
            invariant
                0 <= k <= cells.len(),
                self.wf(),
                cells_wf(cells@),
                mask == value_mask(self.numbers(), cells@, k as int),
            decreases cells.len() - k,
        {
            let c: usize = cells[k];
            assert(1 <= self.numbers()[c as int] <= 9);
            let digit: u64 = self.numbers[c] as u64;
            mask = mask | (1u64 << digit);
            k += 1;
        }
        mask
    }

    /// A copy of the cage with the number `index`.
    fn region(&self, index: usize) -> (r: Region)
        requires
            self.has_cage(index as int),
        ensures
            r.cells@ == self.cells_of(index as int),
            r.adjacent_cages@ == self.adjacent_of(index as int),
    {
        match lookup(&self.cages, index) {
            Some(region) => Region {
                cells: copy_indices(&region.cells),
                adjacent_cages: copy_indices(&region.adjacent_cages),
            },
            None => Region { cells: Vec::new(), adjacent_cages: Vec::new() },
        }
    }

    /// The cage `a` has taken in the cage `b`, which is gone: `a` has the
    /// cells of both and is listed with the cages that either was listed
    /// with, and the cages that listed `b` list `a` in its place.
    pub open spec fn merged_from(&self, before: Generator, a: int, b: int) -> bool {
        &&& self.numbers() == before.numbers()
        &&& forall|i: int| #[trigger] self.has_cage(i) == (before.has_cage(i) && i != b)
        &&& cells_wf(self.cells_of(a))
        &&& forall|x: usize| #[trigger]
            self.cells_of(a).contains(x) <==> before.cells_of(a).contains(x)
                || before.cells_of(b).contains(x)
        &&& forall|i: int|
            i != a && #[trigger] self.has_cage(i) ==> self.cells_of(i) == before.cells_of(i)
        &&& forall|i: int| #[trigger] self.has_cage(i) ==> strictly_increasing(self.adjacent_of(i))
        &&& forall|x: usize| #[trigger]
            self.adjacent_of(a).contains(x) <==> (before.adjacent_of(a).contains(x)
                || before.adjacent_of(b).contains(x)) && x != a && x != b
        &&& forall|i: int, x: usize|
            i != a && self.has_cage(i) ==> (#[trigger] self.adjacent_of(i).contains(x) <==> (
            before.adjacent_of(i).contains(x) && x != b) || (x == a && before.adjacent_of(
                i,
            ).contains(b as usize)))
    }

    /// The cages `a` and `b` no longer list each other; nothing else has changed.
    pub open spec fn unlinked_from(&self, before: Generator, a: int, b: int) -> bool {
        &&& self.numbers() == before.numbers()
        &&& forall|i: int| #[trigger] self.has_cage(i) == before.has_cage(i)
        &&& forall|i: int| #[trigger] self.has_cage(i) ==> self.cells_of(i) == before.cells_of(i)
        &&& forall|i: int|
            i != a && i != b && #[trigger] self.has_cage(i) ==> self.adjacent_of(i)
                == before.adjacent_of(i)
        &&& self.without_link(before, a, b)
        &&& self.without_link(before, b, a)
    }

    /// The cage `i` lists what it listed, but for `x`.
    pub open spec fn without_link(&self, before: Generator, i: int, x: int) -> bool {
        &&& strictly_increasing(self.adjacent_of(i))
        &&& forall|y: usize| #[trigger]
            self.adjacent_of(i).contains(y) <==> before.adjacent_of(i).contains(y) && y != x
        &&& self.adjacent_of(i).len() == before.adjacent_of(i).len() - if before.adjacent_of(
            i,
        ).contains(x as usize) {
            1int
        } else {
            0int
        }
    }

    /// Merges the cage `b` into the cage `a`, where no digit is in both and
    /// the digits of the two are fewer than 8. Otherwise the two stay, and
    /// no longer list each other. Says whether they were merged.
    pub fn try_merge_cages(&mut self, a: usize, b: usize) -> (r: bool)
        requires
            old(self).wf(),
            old(self).has_cage(a as int),
            old(self).has_cage(b as int),
        ensures
            final(self).wf(),
            r == may_merge(
                old(self).numbers(),
                old(self).cells_of(a as int),
                old(self).cells_of(b as int),
            ),
            r ==> final(self).merged_from(*old(self), a as int, b as int),
            !r ==> final(self).unlinked_from(*old(self), a as int, b as int),
            old(self).sound() ==> final(self).sound(),
            old(self).fit() ==> final(self).fit(),
    {
        if a == b {
            proof {
                lemma_not_with_itself(*self, a as int);
            }
            return false;
        }
        let ghost before = *self;
        let region_a = self.region(a);
        let region_b = self.region(b);
        let mask_a = self.values_of(&region_a.cells);
        let mask_b = self.values_of(&region_b.cells);
        let both = mask_a | mask_b;
        let apart = popcnt64(mask_a) + popcnt64(mask_b) == popcnt64(both);
        if apart && popcnt64(both) < 8 {
            let mut cells = region_a.cells;
            let mut k: usize = 0;
            while k < region_b.cells.len()
                invariant
                    0 <= k <= region_b.cells.len(),
                    cells_wf(cells@),
                    cells_wf(region_b.cells@),
                    cells_wf(before.cells_of(a as int)),
                    forall|x: usize|
                        cells@.contains(x) <==> before.cells_of(a as int).contains(x)
                            || crate::cage::in_prefix(region_b.cells@, k as int, x),
                decreases region_b.cells.len() - k,
            {
                let ghost prev = cells@;
                let c: usize = region_b.cells[k];
                set_insert(&mut cells, c);
                proof {
                    assert forall|i: int| 0 <= i < cells@.len() implies #[trigger] cells@[i]
                        < 81 by {
                        assert(cells@.contains(cells@[i]));
                        if prev.contains(cells@[i]) {
                            let j = choose|j: int| 0 <= j < prev.len() && prev[j] == cells@[i];
                        }
                    }
                    assert forall|x: usize|
                        cells@.contains(x) <==> before.cells_of(a as int).contains(x)
                            || crate::cage::in_prefix(region_b.cells@, k + 1, x) by {
                        if crate::cage::in_prefix(region_b.cells@, k as int, x) {
                            let p = choose|p: int| 0 <= p < k && region_b.cells@[p] == x;
                            assert(0 <= p < k + 1 && region_b.cells@[p] == x);
                        }
                        if crate::cage::in_prefix(region_b.cells@, k + 1, x) {
                            let p = choose|p: int| 0 <= p < k + 1 && region_b.cells@[p] == x;
                            if p < k {
                                assert(crate::cage::in_prefix(region_b.cells@, k as int, x));
                            }
                        }
                        if x == c {
                            assert(0 <= k < k + 1 && region_b.cells@[k as int] == x);
                        }
                    }
                }
                k += 1;
            }
            let mut adjacent = region_a.adjacent_cages;
            let mut k: usize = 0;
            while k < region_b.adjacent_cages.len()
                invariant
                    0 <= k <= region_b.adjacent_cages.len(),
                    strictly_increasing(adjacent@),
                    forall|x: usize|
                        adjacent@.contains(x) <==> before.adjacent_of(a as int).contains(x) || (
                        crate::cage::in_prefix(region_b.adjacent_cages@, k as int, x) && x != a),
                decreases region_b.adjacent_cages.len() - k,
            {
                let x0: usize = region_b.adjacent_cages[k];
                if x0 != a {
                    set_insert(&mut adjacent, x0);
                }
                proof {
                    assert forall|x: usize|
                        adjacent@.contains(x) <==> before.adjacent_of(a as int).contains(x) || (
                        crate::cage::in_prefix(region_b.adjacent_cages@, k + 1, x) && x != a) by {
                        if crate::cage::in_prefix(region_b.adjacent_cages@, k as int, x) {
                            let p = choose|p: int| 0 <= p < k && region_b.adjacent_cages@[p] == x;
                            assert(0 <= p < k + 1 && region_b.adjacent_cages@[p] == x);
                        }
                        if crate::cage::in_prefix(region_b.adjacent_cages@, k + 1, x) {
                            let p = choose|p: int|
                                0 <= p < k + 1 && region_b.adjacent_cages@[p] == x;
                            if p < k {
                                assert(crate::cage::in_prefix(
                                    region_b.adjacent_cages@,
                                    k as int,
                                    x,
                                ));
                            }
                        }
                        if x == x0 {
                            assert(0 <= k < k + 1 && region_b.adjacent_cages@[k as int] == x);
                        }
                    }
                }
                k += 1;
            }
            let _ = set_remove(&mut adjacent, b);
            proof {
                assert forall|x: usize|
                    crate::cage::in_prefix(
                        region_b.adjacent_cages@,
                        region_b.adjacent_cages@.len() as int,
                        x,
                    ) == region_b.adjacent_cages@.contains(x) by {}
                assert forall|x: usize|
                    crate::cage::in_prefix(region_b.cells@, region_b.cells@.len() as int, x)
                        == region_b.cells@.contains(x) by {}
                assert(!before.adjacent_of(a as int).contains(a)) by {
                    if before.adjacent_of(a as int).contains(a) {
                        let p = choose|p: int|
                            0 <= p < before.adjacent_of(a as int).len() && before.adjacent_of(
                                a as int,
                            )[p] == a;
                        assert(before.linked(a as int, before.adjacent_of(a as int)[p] as int));
                    }
                }
            }
            let ghost merged_cells = cells@;
            let ghost merged_adjacent = adjacent@;
            store(&mut self.cages, a, Region { cells, adjacent_cages: adjacent });
            take_out(&mut self.cages, b);
            proof {
                assert forall|j: int|
                    0 <= j < 81 && j != a && j != b implies #[trigger] self.has_cage(j)
                    == before.has_cage(j) && self.cells_of(j) == before.cells_of(j)
                    && self.adjacent_of(j) == before.adjacent_of(j) by {
                    assert(self.cages@[j as usize] == before.cages@[j as usize]);
                }
                assert forall|j: int|
                    0 <= j < 81 && j != a && j != b && #[trigger] self.has_cage(
                        j,
                    ) implies self.cells_of(j) == before.cells_of(j) && strictly_increasing(
                    self.adjacent_of(j),
                ) && self.adjacent_of(j) == before.adjacent_of(j) by {
                    assert(before.has_cage(j));
                }
            }
            let mut i: usize = 0;
            while i < 81
                invariant
                    0 <= i <= 81,
                    a != b,
                    a < 81,
                    b < 81,
                    before.wf(),
                    self.numbers == before.numbers,
                    self.has_cage(a as int),
                    !self.has_cage(b as int),
                    self.cells_of(a as int) == merged_cells,
                    self.adjacent_of(a as int) == merged_adjacent,
                    forall|j: int|
                        0 <= j < 81 && j != a && j != b ==> #[trigger] self.has_cage(j)
                            == before.has_cage(j),
                    forall|j: int|
                        0 <= j < 81 && j != a && j != b && #[trigger] self.has_cage(j)
                            ==> self.cells_of(j) == before.cells_of(j) && strictly_increasing(
                            self.adjacent_of(j),
                        ),
                    forall|j: int, x: usize|
                        0 <= j < i && j != a && j != b && self.has_cage(j) ==> (
                        #[trigger] self.adjacent_of(j).contains(x) <==> (before.adjacent_of(
                            j,
                        ).contains(x) && x != b) || (x == a && before.adjacent_of(j).contains(b))),
                    forall|j: int|
                        i <= j < 81 && j != a && j != b && #[trigger] self.has_cage(j)
                            ==> self.adjacent_of(j) == before.adjacent_of(j),
                decreases 81 - i,
            {
                if i != a && i != b && holds(&self.cages, i) {
                    assert(self.has_cage(i as int));
                    assert(before.has_cage(i as int));
                    assert(strictly_increasing(self.adjacent_of(i as int)));
                    assert(self.adjacent_of(i as int) == before.adjacent_of(i as int));
                    let mut region = self.region(i);
                    let ghost old_adjacent = region.adjacent_cages@;
                    let mut adjacent = region.adjacent_cages;
                    if set_remove(&mut adjacent, b) {
                        set_insert(&mut adjacent, a);
                    }
                    let ghost new_adjacent = adjacent@;
                    let ghost snapshot = *self;
                    store(&mut self.cages, i, Region { cells: region.cells,
                        adjacent_cages: adjacent });
                    proof {
                        assert forall|j: int|
                            0 <= j < 81 && j != i implies #[trigger] self.has_cage(j)
                            == snapshot.has_cage(j) && self.cells_of(j) == snapshot.cells_of(j)
                            && self.adjacent_of(j) == snapshot.adjacent_of(j) by {
                            assert(self.cages@[j as usize] == snapshot.cages@[j as usize]);
                        }
                        assert forall|j: int|
                            0 <= j < 81 && j != a && j != b implies #[trigger] self.has_cage(j)
                            == before.has_cage(j) by {
                            if j != i {
                                assert(snapshot.has_cage(j) == before.has_cage(j));
                            }
                        }
                        assert forall|j: int|
                            0 <= j < 81 && j != a && j != b && #[trigger] self.has_cage(
                                j,
                            ) implies self.cells_of(j) == before.cells_of(j)
                            && strictly_increasing(self.adjacent_of(j)) by {
                            assert(snapshot.has_cage(j));
                            if j == i {
                                assert(self.adjacent_of(j) == new_adjacent);
                                assert(self.cells_of(j) == snapshot.cells_of(j));
                            }
                        }
                        assert forall|j: int, x: usize|
                            0 <= j < i + 1 && j != a && j != b && self.has_cage(j) implies (
                        #[trigger] self.adjacent_of(j).contains(x) <==> (before.adjacent_of(
                            j,
                        ).contains(x) && x != b) || (x == a && before.adjacent_of(j).contains(
                            b,
                        ))) by {
                            if j != i {
                                assert(snapshot.has_cage(j));
                                assert(snapshot.adjacent_of(j).contains(x) <==> (
                                before.adjacent_of(j).contains(x) && x != b) || (x == a
                                    && before.adjacent_of(j).contains(b)));
                            } else {
                                assert(snapshot.has_cage(j));
                                assert(old_adjacent == before.adjacent_of(j));
                                if !old_adjacent.contains(b) && old_adjacent.contains(a) {
                                }
                            }
                        }
                        assert forall|j: int|
                            i + 1 <= j < 81 && j != a && j != b && #[trigger] self.has_cage(
                                j,
                            ) implies self.adjacent_of(j) == before.adjacent_of(j) by {
                            assert(snapshot.has_cage(j));
                        }
                    }
                }
                i += 1;
            }
            proof {
                lemma_merged_wf(before, *self, a as int, b as int);
                if before.sound() {
                    lemma_merged_sound(before, *self, a as int, b as int);
                    lemma_merged_size(before, *self, a as int, b as int);
                }
            }
            true
        } else {
            let mut region_a = region_a;
            let mut region_b = region_b;
            let mut adjacent_a = region_a.adjacent_cages;
            let _ = set_remove(&mut adjacent_a, b);
            let mut adjacent_b = region_b.adjacent_cages;
            let _ = set_remove(&mut adjacent_b, a);
            store(&mut self.cages, a, Region { cells: region_a.cells, adjacent_cages: adjacent_a });
            store(&mut self.cages, b, Region { cells: region_b.cells, adjacent_cages: adjacent_b });
            proof {
                assert forall|j: int|
                    0 <= j < 81 && j != a && j != b implies #[trigger] self.has_cage(j)
                    == before.has_cage(j) && self.cells_of(j) == before.cells_of(j)
                    && self.adjacent_of(j) == before.adjacent_of(j) by {
                    assert(self.cages@[j as usize] == before.cages@[j as usize]);
                }
                assert forall|i: int| #[trigger] self.has_cage(i) == before.has_cage(i) by {}
                assert forall|i: int| #[trigger] self.has_cage(i) implies self.cells_of(i)
                    == before.cells_of(i) by {
                    assert(before.has_cage(i));
                }
                assert forall|i: int| i != a && i != b && #[trigger] self.has_cage(
                    i,
                ) implies self.adjacent_of(i) == before.adjacent_of(i) by {
                    assert(before.has_cage(i));
                }
                assert(self.without_link(before, a as int, b as int));
                assert(self.without_link(before, b as int, a as int));
                assert(self.unlinked_from(before, a as int, b as int));
                lemma_unlinked_wf(before, *self, a as int, b as int);
                if before.sound() {
                    lemma_same_cells_sound(before, *self);
                }
            }
            false
        }
    }

    /// The pair of cages, with its weight, is one that may be tried: the
    /// first lists the second, and the weight is twice 1024 divided by
    /// the number of their cells less one.
    pub open spec fn offers(&self, merge: Merge) -> bool {
        &&& self.has_cage(merge.first as int)
        &&& self.has_cage(merge.second as int)
        &&& merge.first < merge.second
        &&& self.adjacent_of(merge.first as int).contains(merge.second)
        &&& merge.weight == 2 * (1024int / (self.cells_of(merge.first as int).len()
            + self.cells_of(merge.second as int).len() - 1) as int)
    }

    /// No cage lists another.
    pub open spec fn no_links(&self) -> bool {
        forall|i: int| #[trigger] self.has_cage(i) ==> self.adjacent_of(i).len() == 0
    }

    /// The pairs of cages that list each other, the lesser number first, in
    /// the order of their numbers, each with its weight.
    pub fn possible_merges(&self) -> (r: Vec<Merge>)
        requires
            self.wf(),
        ensures
            forall|k: int| 0 <= k < r@.len() ==> self.offers(#[trigger] r@[k]),
            forall|a: int, b: int|
                self.has_cage(a) && a < b && self.adjacent_of(a).contains(b as usize) && b < 81
                    ==> #[trigger] listed(r@, a, b),
            forall|j: int, k: int|
                0 <= j < k < r@.len() ==> (#[trigger] r@[j]).first < (#[trigger] r@[k]).first || (
                r@[j].first == r@[k].first && r@[j].second < r@[k].second),
            r@.len() <= 81 * 81,
            r@.len() == 0 <==> self.no_links(),
    {
        let mut list: Vec<Merge> = Vec::new();
        let mut a: usize = 0;
        while a < 81
            invariant
                0 <= a <= 81,
                self.wf(),
                forall|k: int| 0 <= k < list@.len() ==> self.offers(#[trigger] list@[k]),
                forall|k: int| 0 <= k < list@.len() ==> (#[trigger] list@[k]).first < a,
                forall|x: int, y: int|
                    0 <= x < a && self.has_cage(x) && x < y && self.adjacent_of(x).contains(
                        y as usize,
                    ) && y < 81 ==> #[trigger] listed(list@, x, y),
                forall|j: int, k: int|
                    0 <= j < k < list@.len() ==> (#[trigger] list@[j]).first < (
                    #[trigger] list@[k]).first || (list@[j].first == list@[k].first
                        && list@[j].second < list@[k].second),
                list@.len() <= 81 * a,
            decreases 81 - a,
        {
            if holds(&self.cages, a) {
                assert(self.has_cage(a as int));
                let region = self.region(a);
                proof {
                    lemma_adjacent_bound(*self, a as int);
                    crate::cage::lemma_cells_len(self.cells_of(a as int));
                }
                let ghost start = list@;
                let mut k: usize = 0;
                while k < region.adjacent_cages.len()
                    invariant
                        0 <= k <= region.adjacent_cages.len(),
                        a < 81,
                        self.wf(),
                        self.has_cage(a as int),
                        region.adjacent_cages@ == self.adjacent_of(a as int),
                        region.cells@ == self.cells_of(a as int),
                        region.cells@.len() <= 81,
                        region.adjacent_cages@.len() <= 81,
                        list@.len() <= 81 * a + k,
                        forall|j: int| 0 <= j < list@.len() ==> self.offers(#[trigger] list@[j]),
                        forall|j: int| 0 <= j < list@.len() ==> (#[trigger] list@[j]).first <= a,
                        forall|j: int|
                            0 <= j < list@.len() && (#[trigger] list@[j]).first == a ==> exists|
                                p: int,
                            |
                                0 <= p < k && region.adjacent_cages@[p] == list@[j].second,
                        forall|x: int, y: int|
                            0 <= x < a && self.has_cage(x) && x < y && self.adjacent_of(x).contains(
                                y as usize,
                            ) && y < 81 ==> #[trigger] listed(list@, x, y),
                        forall|p: int|
                            0 <= p < k && a < region.adjacent_cages@[p] ==> listed(
                                list@,
                                a as int,
                                #[trigger] region.adjacent_cages@[p] as int,
                            ),
                        forall|i: int, j: int|
                            0 <= i < j < list@.len() ==> (#[trigger] list@[i]).first < (
                            #[trigger] list@[j]).first || (list@[i].first == list@[j].first
                                && list@[i].second < list@[j].second),
                    decreases region.adjacent_cages.len() - k,
                {
                    let b: usize = region.adjacent_cages[k];
                    proof {
                        assert(self.linked(a as int, self.adjacent_of(a as int)[k as int] as int));
                        assert(self.has_cage(b as int));
                        crate::cage::lemma_cells_len(self.cells_of(b as int));
                    }
                    if a < b {
                        let other = self.region(b);
                        let size: usize = region.cells.len() + other.cells.len() - 1;
                        let merge = Merge { first: a, second: b, weight: 2 * (1024 / size) };
                        let ghost prev = list@;
                        list.push(merge);
                        proof {
                            assert(self.adjacent_of(a as int).contains(b));
                            assert(self.offers(merge));
                            lemma_listed_push(prev, merge);
                            assert(list@[prev.len() as int] == merge);
                            assert(listed(list@, a as int, b as int));
                            assert forall|j: int|
                                0 <= j < list@.len() && (#[trigger] list@[j]).first
                                    == a implies exists|p: int|
                                0 <= p < k + 1 && region.adjacent_cages@[p] == list@[j].second by {
                                if j < prev.len() {
                                    assert(list@[j] == prev[j]);
                                    let p = choose|p: int|
                                        0 <= p < k && region.adjacent_cages@[p] == prev[j].second;
                                    assert(0 <= p < k + 1);
                                } else {
                                    assert(region.adjacent_cages@[k as int] == list@[j].second);
                                }
                            }
                            assert forall|i: int, j: int|
                                0 <= i < j < list@.len() implies (#[trigger] list@[i]).first < (
                            #[trigger] list@[j]).first || (list@[i].first == list@[j].first
                                && list@[i].second < list@[j].second) by {
                                if j < prev.len() {
                                    assert(list@[i] == prev[i] && list@[j] == prev[j]);
                                } else {
                                    assert(list@[i] == prev[i]);
                                    if prev[i].first == a {
                                        let p = choose|p: int|
                                            0 <= p < k && region.adjacent_cages@[p]
                                                == prev[i].second;
                                        assert(region.adjacent_cages@[p]
                                            < region.adjacent_cages@[k as int]);
                                    }
                                }
                            }
                        }
                    } else {
                        proof {
                            assert forall|j: int|
                                0 <= j < list@.len() && (#[trigger] list@[j]).first
                                    == a implies exists|p: int|
                                0 <= p < k + 1 && region.adjacent_cages@[p] == list@[j].second by {
                                let p = choose|p: int|
                                    0 <= p < k && region.adjacent_cages@[p] == list@[j].second;
                                assert(0 <= p < k + 1);
                            }
                        }
                    }
                    k += 1;
                }
                proof {
                    assert forall|x: int, y: int|
                        0 <= x < a + 1 && self.has_cage(x) && x < y && self.adjacent_of(x).contains(
                            y as usize,
                        ) && y < 81 implies #[trigger] listed(list@, x, y) by {
                        if x == a {
                            let p = choose|p: int|
                                0 <= p < self.adjacent_of(x).len() && self.adjacent_of(x)[p]
                                    == y as usize;
                            assert(listed(list@, a as int, region.adjacent_cages@[p] as int));
                        }
                    }
                }
            }
            a += 1;
        }
        proof {
            if list@.len() == 0 {
                assert forall|i: int| #[trigger] self.has_cage(i) implies self.adjacent_of(i).len()
                    == 0 by {
                    if self.adjacent_of(i).len() > 0 {
                        let x = self.adjacent_of(i)[0];
                        assert(self.linked(i, self.adjacent_of(i)[0] as int));
                        assert(self.adjacent_of(i).contains(x));
                        if i < x {
                            assert(listed(list@, i, x as int));
                        } else {
                            assert(listed(list@, x as int, i));
                        }
                    }
                }
            } else {
                assert(self.offers(list@[0]));
                let m = list@[0];
                if self.no_links() {
                    assert(self.has_cage(m.first as int));
                    let p = choose|p: int|
                        0 <= p < self.adjacent_of(m.first as int).len() && self.adjacent_of(
                            m.first as int,
                        )[p] == m.second;
                }
            }
        }
        list
    }

    /// Picks at random a pair of cages that list each other, pairs of fewer
    /// cells more often, and tries to merge them. Nothing where no cage lists
    /// another; else the pair, with the word whether it was merged.
    fn attempt_random_merge(&mut self) -> (r: Option<(usize, usize, bool)>)
        requires
            old(self).wf(),
        ensures
            final(self).wf(),
            r is None ==> old(self).no_links() && *final(self) == *old(self),
            r matches Some(tried) ==> old(self).has_cage(tried.0 as int) && old(self).has_cage(
                tried.1 as int,
            ) && tried.0 < tried.1 && old(self).adjacent_of(tried.0 as int).contains(tried.1) && (
            tried.2 ==> final(self).merged_from(*old(self), tried.0 as int, tried.1 as int)) && (
            !tried.2 ==> final(self).unlinked_from(*old(self), tried.0 as int, tried.1 as int)),
            r matches Some(tried) ==> tried.2 == may_merge(
                old(self).numbers(),
                old(self).cells_of(tried.0 as int),
                old(self).cells_of(tried.1 as int),
            ),
            old(self).sound() ==> final(self).sound(),
            old(self).fit() ==> final(self).fit(),
    {
        let list = self.possible_merges();
        if list.len() == 0 {
            return None;
        }
        proof {
            lemma_weights_positive(*self, list@, list@.len() as int);
        }
        let total = total_weight(&list);
        let random_number = random_below(total);
        let index = select_merge(&list, random_number);
        let a: usize = list[index].first;
        let b: usize = list[index].second;
        assert(self.offers(list@[index as int]));
        let merged = self.try_merge_cages(a, b);
        Some((a, b, merged))
    }

    /// The cage `a` lists the cage `b`, which has the greater number.
    pub open spec fn lists_pair(&self, a: int, b: int) -> bool {
        self.has_cage(a) && self.has_cage(b) && a < b && self.adjacent_of(a).contains(b as usize)
    }

    /// Some pair of cages that list each other may be merged.
    pub open spec fn can_merge(&self) -> bool {
        exists|a: int, b: int| #[trigger]
            self.lists_pair(a, b) && may_merge(self.numbers(), self.cells_of(a), self.cells_of(b))
    }

    /// A pair of cages that list each other was tried: it was merged, where
    /// it might be, or else the two no longer list each other.
    pub open spec fn attempted(&self, before: Generator, merged: bool) -> bool {
        exists|a: int, b: int| #[trigger]
            before.lists_pair(a, b) && merged == may_merge(
                before.numbers(),
                before.cells_of(a),
                before.cells_of(b),
            ) && (merged ==> self.merged_from(before, a, b)) && (!merged ==> self.unlinked_from(
                before,
                a,
                b,
            ))
    }

    /// Picks at random a pair of cages that list each other, pairs of fewer
    /// cells more often, and tries to merge them. Says whether they were
    /// merged; an error where no cage lists another.
    pub fn try_merge_random_cages(&mut self) -> (r: Result<bool, ()>)
        requires
            old(self).wf(),
        ensures
            final(self).wf(),
            r is Err <==> old(self).no_links(),
            r is Err ==> *final(self) == *old(self),
            r matches Ok(merged) ==> final(self).attempted(*old(self), merged),
            old(self).sound() ==> final(self).sound(),
            old(self).fit() ==> final(self).fit(),
    {
        let ghost before = *self;
        match self.attempt_random_merge() {
            None => Err(()),
            Some(tried) => {
                proof {
                    let a = tried.0 as int;
                    let b = tried.1 as int;
                    assert(before.lists_pair(a, b));
                    assert(before.adjacent_of(a).len() > 0) by {
                        let p = choose|p: int|
                            0 <= p < before.adjacent_of(a).len() && before.adjacent_of(a)[p]
                                == tried.1;
                    }
                }
                Ok(tried.2)
            },
        }
    }

    /// The same grid, cages and cells; no cage lists a cage that it did not list.
    pub open spec fn trimmed_from(&self, before: Generator) -> bool {
        &&& self.numbers() == before.numbers()
        &&& forall|i: int| #[trigger] self.has_cage(i) == before.has_cage(i)
        &&& forall|i: int| #[trigger] self.has_cage(i) ==> self.cells_of(i) == before.cells_of(i)
        &&& forall|i: int, x: usize|
            self.has_cage(i) && #[trigger] self.adjacent_of(i).contains(x) ==> before.adjacent_of(
                i,
            ).contains(x)
        &&& forall|i: int|
            #[trigger] self.has_cage(i) ==> self.adjacent_of(i).len() <= before.adjacent_of(i).len()
    }

    /// No generator in which the cage `a` has taken in the cage `b` is
    /// shown to have one solution and no other.
    pub open spec fn rejected(&self, a: int, b: int) -> bool {
        forall|after: Generator|
            after.wf() && #[trigger] after.joined_from(*self, a, b) ==> !shown_unique(
                after.cage_views(81),
            )
    }

    /// The cage `a` has taken in the cage `b`, which might be merged with
    /// it: `b` is gone, `a` has the cells of both, and the other cages have
    /// their cells.
    pub open spec fn joined_from(&self, before: Generator, a: int, b: int) -> bool {
        &&& may_merge(before.numbers(), before.cells_of(a), before.cells_of(b))
        &&& self.numbers() == before.numbers()
        &&& forall|i: int| #[trigger] self.has_cage(i) == (before.has_cage(i) && i != b)
        &&& forall|x: usize| #[trigger]
            self.cells_of(a).contains(x) <==> before.cells_of(a).contains(x)
                || before.cells_of(b).contains(x)
        &&& forall|i: int|
            i != a && #[trigger] self.has_cage(i) ==> self.cells_of(i) == before.cells_of(i)
        &&& self.count_cages(81) == before.count_cages(81) - 1
    }

    /// Tries pairs of cages that list each other, picked at random, until
    /// one is merged: that pair comes back. Nothing where no pair is left
    /// that can be merged.
    fn merge_random_pair(&mut self) -> (r: Option<(usize, usize)>)
        requires
            old(self).wf(),
        ensures
            final(self).wf(),
            r is None ==> final(self).trimmed_from(*old(self)) && final(self).no_links(),
            r matches Some(pair) ==> old(self).has_cage(pair.0 as int) && old(self).has_cage(
                pair.1 as int,
            ) && pair.0 < pair.1 && old(self).adjacent_of(pair.0 as int).contains(pair.1)
                && final(self).joined_from(*old(self), pair.0 as int, pair.1 as int),
            r is Some <==> old(self).can_merge(),
            old(self).sound() ==> final(self).sound(),
            old(self).fit() ==> final(self).fit(),
    {
        loop
            invariant
                self.wf(),
                old(self).wf(),
                self.trimmed_from(*old(self)),
                old(self).can_merge() ==> self.can_merge(),
                old(self).sound() ==> self.sound(),
                old(self).fit() ==> self.fit(),
            decreases links(*self, 81),
        {
            let ghost prev = *self;
            match self.attempt_random_merge() {
                None => {
                    proof {
                        if prev.can_merge() {
                            let (x, y) = choose|x: int, y: int| #[trigger]
                                prev.lists_pair(x, y) && may_merge(
                                    prev.numbers(),
                                    prev.cells_of(x),
                                    prev.cells_of(y),
                                );
                            assert(prev.adjacent_of(x).len() == 0);
                        }
                    }
                    return None;
                },
                Some(tried) => {
                    let ghost a = tried.0 as int;
                    let ghost b = tried.1 as int;
                    proof {
                        assert(prev.lists_pair(a, b));
                        assert(old(self).has_cage(a) && old(self).has_cage(b));
                        assert(prev.cells_of(a) == old(self).cells_of(a));
                        assert(prev.cells_of(b) == old(self).cells_of(b));
                        assert(old(self).adjacent_of(a).contains(b as usize));
                        assert(old(self).lists_pair(a, b));
                    }
                    if tried.2 {
                        proof {
                            assert(prev.has_cage(a) == old(self).has_cage(a));
                            assert(prev.has_cage(b) == old(self).has_cage(b));
                            assert(prev.cells_of(a) == old(self).cells_of(a));
                            assert(prev.cells_of(b) == old(self).cells_of(b));
                            lemma_count_merged(prev, *self, b, 81);
                            lemma_count_same(*old(self), prev, 81);
                            assert forall|i: int| #[trigger] self.has_cage(i) == (old(
                                self).has_cage(i) && i != b) by {
                                assert(prev.has_cage(i) == old(self).has_cage(i));
                            }
                            assert forall|i: int| i != a && #[trigger] self.has_cage(
                                i,
                            ) implies self.cells_of(i) == old(self).cells_of(i) by {
                                assert(prev.has_cage(i));
                            }
                        }
                        return Some((tried.0, tried.1));
                    }
                    proof {
                        assert forall|i: int| #[trigger] self.has_cage(i) == old(self).has_cage(
                            i,
                        ) by {
                            assert(prev.has_cage(i) == old(self).has_cage(i));
                        }
                        assert forall|i: int| #[trigger] self.has_cage(i) implies self.cells_of(i)
                            == old(self).cells_of(i) && self.adjacent_of(i).len()
                            <= prev.adjacent_of(i).len() && self.adjacent_of(i).len() <= old(
                                self).adjacent_of(i).len() by {
                            assert(prev.has_cage(i));
                        }
                        assert forall|i: int, x: usize|
                            self.has_cage(i) && #[trigger] self.adjacent_of(i).contains(
                                x,
                            ) implies old(self).adjacent_of(i).contains(x) by {
                            assert(prev.has_cage(i));
                            assert(prev.adjacent_of(i).contains(x));
                        }
                        lemma_links_shrink(prev, *self, 81, a);
                        if prev.can_merge() {
                            let (x, y) = choose|x: int, y: int| #[trigger]
                                prev.lists_pair(x, y) && may_merge(
                                    prev.numbers(),
                                    prev.cells_of(x),
                                    prev.cells_of(y),
                                );
                            assert(!(x == a && y == b));
                            assert(self.has_cage(x) && self.has_cage(y));
                            assert(self.cells_of(x) == prev.cells_of(x));
                            assert(self.cells_of(y) == prev.cells_of(y));
                            assert(prev.adjacent_of(x).contains(y as usize));
                            assert(self.adjacent_of(x).contains(y as usize)) by {
                                if x == a {
                                    assert(self.without_link(prev, a, b));
                                } else if x == b {
                                    assert(self.without_link(prev, b, a));
                                } else {
                                    assert(self.adjacent_of(x) == prev.adjacent_of(x));
                                }
                            }
                            assert(self.lists_pair(x, y));
                        }
                    }
                },
            }
        }
    }

    /// Tries pairs of cages that list each other, picked at random, until
    /// one is merged. Says whether one was: one is, where some pair of
    /// cages that list each other may be merged.
    pub fn merge_random_cages(&mut self) -> (r: bool)
        requires
            old(self).wf(),
        ensures
            final(self).wf(),
            final(self).numbers() == old(self).numbers(),
            r == old(self).can_merge(),
            r ==> final(self).one_merged(*old(self)),
            r ==> final(self).count_cages(81) == old(self).count_cages(81) - 1,
            !r ==> final(self).trimmed_from(*old(self)) && final(self).no_links(),
            old(self).sound() ==> final(self).sound(),
            old(self).fit() ==> final(self).fit(),
    {
        match self.merge_random_pair() {
            Some(pair) => {
                assert(self.joined_from(*old(self), pair.0 as int, pair.1 as int));
                true
            },
            None => false,
        }
    }

    /// A copy of the generator.
    pub fn duplicate(&self) -> (r: Self)
        requires
            self.wf(),
        ensures
            r.wf(),
            r.numbers() == self.numbers(),
            forall|i: int| #[trigger] r.has_cage(i) == self.has_cage(i),
            forall|i: int|
                #[trigger] self.has_cage(i) ==> r.cells_of(i) == self.cells_of(i)
                    && r.adjacent_of(i) == self.adjacent_of(i),
            self.sound() ==> r.sound(),
            self.fit() ==> r.fit(),
    {
        let mut cages: BTreeMap<usize, Plot> = BTreeMap::new();
        let mut i: usize = 0;
        while i < 81
            invariant
                0 <= i <= 81,
                self.wf(),
                forall|j: int|
                    0 <= j < 81 ==> #[trigger] cages@.contains_key(j as usize) == (j < i
                        && self.has_cage(j)),
                forall|j: int|
                    0 <= j < i && self.has_cage(j) ==> listing(
                        (#[trigger] cages@[j as usize]).cells@,
                    ) == self.cells_of(j) && listing(cages@[j as usize].adjacent_cages@)
                        == self.adjacent_of(j),
            decreases 81 - i,
        {
            if holds(&self.cages, i) {
                assert(self.has_cage(i as int));
                store(&mut cages, i, self.region(i));
            }
            i += 1;
        }
        let r = Generator { numbers: copy_indices(&self.numbers), cages };
        proof {
            assert forall|i: int| #[trigger] r.has_cage(i) == self.has_cage(i) by {}
            assert forall|i: int| #[trigger] self.has_cage(i) implies r.cells_of(i)
                == self.cells_of(i) && r.adjacent_of(i) == self.adjacent_of(i) by {}
            lemma_copy_wf(*self, r);
        }
        r
    }

    /// Strikes the cages `a` and `b` from each other's lists.
    pub fn discard_pair(&mut self, a: usize, b: usize)
        requires
            old(self).wf(),
            old(self).has_cage(a as int),
            old(self).has_cage(b as int),
            a != b,
        ensures
            final(self).wf(),
            final(self).unlinked_from(*old(self), a as int, b as int),
            old(self).sound() ==> final(self).sound(),
            old(self).fit() ==> final(self).fit(),
    {
        let ghost before = *self;
        let region_a = self.region(a);
        let region_b = self.region(b);
        let mut adjacent_a = region_a.adjacent_cages;
        let _ = set_remove(&mut adjacent_a, b);
        let mut adjacent_b = region_b.adjacent_cages;
        let _ = set_remove(&mut adjacent_b, a);
        store(&mut self.cages, a, Region { cells: region_a.cells, adjacent_cages: adjacent_a });
        store(&mut self.cages, b, Region { cells: region_b.cells, adjacent_cages: adjacent_b });
        proof {
            assert forall|j: int|
                    0 <= j < 81 && j != a && j != b implies #[trigger] self.has_cage(j)
                    == before.has_cage(j) && self.cells_of(j) == before.cells_of(j)
                    && self.adjacent_of(j) == before.adjacent_of(j) by {
                    assert(self.cages@[j as usize] == before.cages@[j as usize]);
                }
            assert forall|i: int| #[trigger] self.has_cage(i) == before.has_cage(i) by {}
            assert forall|i: int| #[trigger] self.has_cage(i) implies self.cells_of(i)
                == before.cells_of(i) by {
                assert(before.has_cage(i));
            }
            assert forall|i: int| i != a && i != b && #[trigger] self.has_cage(
                i,
            ) implies self.adjacent_of(i) == before.adjacent_of(i) by {
                assert(before.has_cage(i));
            }
            assert(self.without_link(before, a as int, b as int));
            assert(self.without_link(before, b as int, a as int));
            lemma_unlinked_wf(before, *self, a as int, b as int);
        }
    }

    /// Takes over the digits of a solved board.
    pub fn adopt(&mut self, solved: &Puzzle)
        requires
            old(self).wf(),
            solved.wf(),
            all_solved(solved.cells()),
        ensures
            final(self).wf(),
            as_grid(final(self).numbers()) == grid_of(solved.cells()),
            forall|i: int| final(self).has_cage(i) == old(self).has_cage(i),
            forall|i: int|
                old(self).has_cage(i) ==> final(self).cells_of(i) == old(self).cells_of(i)
                    && final(self).adjacent_of(i) == old(self).adjacent_of(i),
    {
        let ghost target = grid_of(solved.cells());
        proof {
            crate::puzzle::lemma_grid_of(solved.cells());
        }
        let mut i: usize = 0;
        while i < 81
            invariant
                0 <= i <= 81,
                old(self).wf(),
                solved.wf(),
                all_solved(solved.cells()),
                target == grid_of(solved.cells()),
                is_grid(target),
                crate::grid::within(solved.cells(), target),
                self.cages == old(self).cages,
                self.numbers@.len() == 81,
                forall|j: int| 0 <= j < i ==> #[trigger] self.numbers@[j] == target[j],
                forall|j: int| i <= j < 81 ==> #[trigger] self.numbers@[j] == old(self).numbers@[j],
            decreases 81 - i,
        {
            let cell = solved.get_cell(i);
            match cell.get_solution() {
                Some(digit) => {
                    proof {
                        assert(solved.cells()[i as int].has(target[i as int]));
                        crate::util::lemma_bit_shift(0, digit as int);
                        assert(1 <= target[i as int] <= 9);
                    }
                    self.numbers.set(i, digit);
                },
                None => {
                    assert(popcount(solved.cells()[i as int].bits()) == 1);
                },
            }
            i += 1;
        }
        proof {
            assert(as_grid(self.numbers()) =~= target);
            assert forall|j: int| 0 <= j < 81 implies 1 <= #[trigger] self.numbers()[j] <= 9 by {
                assert(1 <= target[j] <= 9);
            }
            lemma_same_cages(*old(self), *self);
        }
    }

    /// For each of the first 27 cells, and for each other cell whose digit
    /// is not among `chosen`, an entry with the digit as the sum and the cell.
    pub fn kept_entries(&self, chosen: &Vec<usize>) -> (r: Vec<(usize, Vec<usize>)>)
        requires
            self.wf(),
        ensures
            forall|k: int|
                0 <= k < r@.len() ==> (#[trigger] r@[k]).1@.len() == 1 && r@[k].1@[0] < 81
                    && r@[k].0
                    == self.numbers()[r@[k].1@[0] as int],
            forall|i: int|
                0 <= i < 81 && (i < 27 || !chosen@.contains(self.numbers()[i]))
                    ==> #[trigger] keeps(
                    r@,
                    i,
                ),
            forall|k: int|
                0 <= k < r@.len() ==> (#[trigger] r@[k]).1@[0] < 27 || !chosen@.contains(r@[k].0),
    {
        let mut entries: Vec<(usize, Vec<usize>)> = Vec::new();
        let mut i: usize = 0;
        while i < 81
            invariant
                0 <= i <= 81,
                self.wf(),
                forall|k: int|
                    0 <= k < entries@.len() ==> (#[trigger] entries@[k]).1@.len() == 1
                        && entries@[k].1@[0] < 81 && entries@[k].0
                        == self.numbers()[entries@[k].1@[0] as int],
                forall|j: int|
                    0 <= j < i && (j < 27 || !chosen@.contains(self.numbers()[j]))
                        ==> #[trigger] keeps(entries@, j),
                forall|k: int|
                    0 <= k < entries@.len() ==> (#[trigger] entries@[k]).1@[0] < 27
                        || !chosen@.contains(entries@[k].0),
            decreases 81 - i,
        {
            let value: usize = self.numbers[i];
            if i < 27 || !set_contains(chosen, value) {
                let mut cells: Vec<usize> = Vec::new();
                cells.push(i);
                let ghost before = entries@;
                entries.push((value, cells));
                proof {
                    assert(entries@[before.len() as int].1@[0] == i);
                    assert(keeps(entries@, i as int));
                    assert forall|j: int|
                        0 <= j < i && (j < 27 || !chosen@.contains(
                            self.numbers()[j],
                        )) implies #[trigger] keeps(entries@, j) by {
                        assert(keeps(before, j));
                        let k = choose|k: int|
                            0 <= k < before.len() && (#[trigger] before[k]).1@ == seq![j as usize];
                        assert(entries@[k] == before[k]);
                    }
                }
            }
            i += 1;
        }
        entries
    }

    /// Takes four digits at random and lets go of them outside the first
    /// three rows; then takes over a solution of what is left of the grid,
    /// picked at random among those that the search finds. Where it finds
    /// none, the grid stays. The other digits stay where they are.
    pub fn partial_resolution(&mut self)
        requires
            old(self).wf(),
        ensures
            final(self).wf(),
            sudoku_valid(as_grid(old(self).numbers())) ==> sudoku_valid(
                as_grid(final(self).numbers()),
            ),
            final(self).numbers() == old(self).numbers() || sudoku_valid(
                as_grid(final(self).numbers()),
            ),
            exists|chosen: Seq<usize>|
                chosen.len() == 4 && #[trigger] kept_outside(
                    old(self).numbers(),
                    final(self).numbers(),
                    chosen,
                ),
            forall|i: int| final(self).has_cage(i) == old(self).has_cage(i),
            forall|i: int|
                old(self).has_cage(i) ==> final(self).cells_of(i) == old(self).cells_of(i)
                    && final(self).adjacent_of(i) == old(self).adjacent_of(i),
    {
        let mut digits: Vec<usize> = Vec::new();
        let mut d: usize = 1;
        while d <= 9
            invariant
                1 <= d <= 10,
                digits@.len() == d - 1,
            decreases 10 - d,
        {
            digits.push(d);
            d += 1;
        }
        let picked = choose_multiple(&digits, 4);
        let chosen = sort_indices(&picked);
        proof {
            crate::cage::lemma_sorted(picked@, chosen@);
            picked@.to_multiset_ensures();
            chosen@.to_multiset_ensures();
            assert(chosen@.len() == 4);
            assert(kept_outside(self.numbers(), self.numbers(), chosen@));
        }
        let entries = self.kept_entries(&chosen);
        let ghost inputs = entries@;
        let mut puzzle = Puzzle::new();
        let ghost start = puzzle.cages();
        proof {
            assert forall|k: int| 0 <= k < inputs.len() implies input_cage(
                #[trigger] inputs[k],
            ).wf() by {
                lemma_single_entry(inputs[k]);
            }
            lemma_with_inputs(start, inputs, inputs.len() as int);
        }
        match puzzle.init_cages(entries, false) {
            Ok(()) => {},
            Err(_) => {
                return ;
            },
        }
        let list = match puzzle.solve() {
            Ok(list) => list,
            Err(_) => {
                return ;
            },
        };
        match choose_one(&list) {
            Some(solved) => {
                let ghost g = grid_of(solved.cells());
                proof {
                    let i = choose|i: int| 0 <= i < list@.len() && *solved == #[trigger] list@[i];
                    assert(list@[i].wf());
                    assert(is_solution(puzzle.cells(), puzzle.cages(), g));
                    assert(has_sudoku_rules(puzzle.cages())) by {
                        assert forall|u: int| 0 <= u < 27 implies puzzle.cages().contains(
                            #[trigger] crate::puzzle::unit_cage(u),
                        ) by {
                            assert(start.contains(crate::puzzle::unit_cage(u)));
                        }
                    }
                    lemma_sudoku_rules(puzzle.cages(), g);
                    assert forall|c: int|
                        0 <= c < 81 && (c < 27 || !chosen@.contains(
                            old(self).numbers()[c],
                        )) implies g[c] == old(self).numbers()[c] by {
                        assert(keeps(inputs, c));
                        let k = choose|k: int|
                            0 <= k < inputs.len() && (#[trigger] inputs[k]).1@ == seq![c as usize];
                        lemma_single_entry(inputs[k]);
                        assert(crate::puzzle::from_input(
                            inputs,
                            inputs.len() as int,
                            input_cage(inputs[k]),
                        ));
                        assert(puzzle.cages().contains(input_cage(inputs[k])));
                        crate::puzzle::lemma_meets_members(puzzle.cages(), g);
                        assert(input_cage(inputs[k]).satisfied_by(g));
                        reveal_with_fuel(cells_sum, 2);
                    }
                }
                self.adopt(solved);
                proof {
                    assert forall|c: int|
                        0 <= c < 81 && (c < 27 || !chosen@.contains(
                            old(self).numbers()[c],
                        )) implies #[trigger] self.numbers()[c] == old(self).numbers()[c] by {
                        assert(as_grid(self.numbers())[c] == g[c]);
                    }
                    assert(kept_outside(old(self).numbers(), self.numbers(), chosen@));
                }
            },
            None => {},
        }
    }

    /// A random solved grid, each cell a cage of its own: the canonical
    /// solution, ten times renumbered, shuffled by rows and partly solved anew.
    pub fn new_random() -> (r: Self)
        ensures
            r.wf(),
            r.sound(),
            r.fit(),
            forall|i: int| 0 <= i < 81 ==> #[trigger] r.has_cage(i),
            forall|i: int| 0 <= i < 81 ==> #[trigger] r.cells_of(i) == seq![i as usize],
            forall|i: int, j: usize|
                0 <= i < 81 ==> (#[trigger] r.adjacent_of(i).contains(j) <==> touching(
                    i,
                    j as int,
                )),
    {
        let mut output = Self::new_canonical();
        let ghost start = output;
        let mut round: usize = 0;
        while round < 10
            invariant
                0 <= round <= 10,
                output.wf(),
                sudoku_valid(as_grid(output.numbers())),
                forall|i: int| 0 <= i < 81 ==> #[trigger] start.has_cage(i),
                forall|i: int| output.has_cage(i) == start.has_cage(i),
                forall|i: int|
                    start.has_cage(i) ==> output.cells_of(i) == start.cells_of(i)
                        && output.adjacent_of(i) == start.adjacent_of(i),
            decreases 10 - round,
        {
            output.renumber();
            output.shuffle_rows();
            output.partial_resolution();
            round += 1;
        }
        proof {
            assert forall|i: int| 0 <= i < 81 implies #[trigger] output.has_cage(i)
                && output.cells_of(i) == seq![i as usize] by {
                assert(start.has_cage(i));
            }
            assert forall|i: int, j: usize| 0 <= i < 81 implies (#[trigger] output.adjacent_of(
                i,
            ).contains(j) <==> touching(i, j as int)) by {
                assert(start.has_cage(i));
                assert(start.adjacent_of(i).contains(j) <==> touching(i, j as int));
            }
            assert forall|i: int| #[trigger] output.has_cage(i) implies cells_distinct(
                as_grid(output.numbers()),
                output.cells_of(i),
            ) by {
                assert(0 <= i < 81);
                assert(output.cells_of(i) == seq![i as usize]);
            }
        }
        output
    }

    /// The cage with the number `i` as a cage of the puzzle: its cells, the
    /// sum of their digits, and distinct digits.
    pub open spec fn cage_view(&self, i: int) -> CageView {
        CageView {
            cells: self.cells_of(i),
            sum: cells_sum(
                as_grid(self.numbers()),
                self.cells_of(i),
                self.cells_of(i).len() as int,
            ),
            uniqueness: true,
        }
    }

    /// The grid solves the puzzle that the cages make: it keeps the rules of
    /// Sudoku and meets every cage.
    pub open spec fn solved_by(&self, g: Seq<int>) -> bool {
        &&& is_grid(g)
        &&& rules_met(g)
        &&& forall|i: int| #[trigger] self.has_cage(i) ==> self.cage_view(i).satisfied_by(g)
    }

    /// The puzzle that the cages make has a solution, and only one.
    pub open spec fn has_one_solution(&self) -> bool {
        &&& exists|g: Seq<int>| #[trigger] self.solved_by(g)
        &&& forall|g: Seq<int>, h: Seq<int>|
            #[trigger] self.solved_by(g) && #[trigger] self.solved_by(h) ==> g == h
    }

    /// The cages with a number below `n` as cages of a puzzle, in the order
    /// of their numbers.
    pub open spec fn cage_views(&self, n: int) -> Seq<CageView>
        decreases n,
    {
        if n <= 0 {
            Seq::empty()
        } else if self.has_cage(n - 1) {
            self.cage_views(n - 1).push(self.cage_view(n - 1))
        } else {
            self.cage_views(n - 1)
        }
    }

    /// Whether the search shows that the puzzle that the cages make has a
    /// solution and only one: it must find one solved board and no more, and
    /// must not have given up on any guess.
    pub fn has_unique_solution(&self) -> (r: bool)
        requires
            self.wf(),
        ensures
            r ==> self.has_one_solution(),
            r == shown_unique(self.cage_views(81)),
    {
        let written = self.serialize();
        let ghost cages = written.cages@;
        proof {
            lemma_cage_views(*self, 81);
            assert(written_cages(cages) =~= self.cage_views(81)) by {
                assert forall|k: int| 0 <= k < cages.len() implies written_cages(cages)[k]
                    == self.cage_views(81)[k] by {
                    assert(written_views(cages)[k] == self.written(81)[k]);
                    lemma_sorted_already(self.cage_views(81)[k].cells);
                }
            }
            assert(written_wf(cages)) by {
                assert forall|k: int| 0 <= k < cages.len() implies written_cage(
                    #[trigger] cages[k],
                ).wf() by {
                    assert(written_cages(cages)[k] == self.cage_views(81)[k]);
                }
            }
        }
        let puzzle = match Puzzle::from_serializable(written) {
            Ok(puzzle) => puzzle,
            Err(_) => {
                return false;
            },
        };
        proof {
            lemma_written(*self, 81);
            assert forall|g: Seq<int>| is_grid(g) implies (#[trigger] written_met(cages, g)
                <==> forall|i: int| #[trigger] self.has_cage(i) ==> self.cage_view(i).satisfied_by(
                    g,
                )) by {
                if written_met(cages, g) {
                    assert forall|i: int| #[trigger] self.has_cage(i) implies self.cage_view(
                        i,
                    ).satisfied_by(g) by {
                        assert(self.found_at(81, i));
                        let k = choose|k: int|
                            0 <= k < self.written(81).len() && #[trigger] self.written(81)[k] == (
                                self.cage_view(i).sum,
                                self.cells_of(i),
                            );
                        assert(written_views(cages)[k] == self.written(81)[k]);
                        lemma_sorted_already(self.cells_of(i));
                        assert(written_cage(cages[k]) == self.cage_view(i));
                    }
                }
                if forall|i: int| #[trigger] self.has_cage(i) ==> self.cage_view(i).satisfied_by(
                    g) {
                    assert forall|k: int| 0 <= k < cages.len() implies written_cage(
                        #[trigger] cages[k],
                    ).satisfied_by(g) by {
                        assert(written_views(cages)[k] == self.written(81)[k]);
                        assert(self.from_cage(81, self.written(81)[k]));
                        let i = choose|i: int|
                            0 <= i < 81 && #[trigger] self.has_cage(i) && self.written(81)[k] == (
                                self.cage_view(i).sum,
                                self.cells_of(i),
                            );
                        lemma_sorted_already(self.cells_of(i));
                        assert(written_cage(cages[k]) == self.cage_view(i));
                    }
                }
            }
            assert forall|g: Seq<int>| #[trigger] self.solved_by(g) <==> puzzle.solved_by(g) by {
                if is_grid(g) {
                    assert(puzzle.solved_by(g) <==> rules_met(g) && written_met(cages, g));
                }
            }
        }
        match puzzle.search() {
            Ok(found) => {
                let unique = found.complete && found.solutions.len() == 1;
                proof {
                    if unique {
                        let g0 = grid_of(found.solutions@[0].cells());
                        assert(puzzle.solved_by(g0));
                        assert(self.solved_by(g0));
                        assert forall|g: Seq<int>, h: Seq<int>|
                            #[trigger] self.solved_by(g) && #[trigger] self.solved_by(
                                h,
                            ) implies g == h by {
                            assert(puzzle.solved_by(g) && puzzle.solved_by(h));
                            assert(lists(found.solutions@, g));
                            assert(lists(found.solutions@, h));
                        }
                    }
                }
                unique
            },
            Err(_) => false,
        }
    }

    /// One cage has taken in another.
    pub open spec fn one_merged(&self, before: Generator) -> bool {
        exists|a: int, b: int| #[trigger] self.joined_from(before, a, b)
    }

    /// Merges a pair of cages picked at random, where one can be merged, and
    /// says whether the puzzle still has one solution and only one. An error
    /// where no pair is left that can be merged.
    pub fn try_eliminate_cage(&mut self) -> (r: Result<bool, ()>)
        requires
            old(self).wf(),
        ensures
            final(self).wf(),
            r is Err <==> !old(self).can_merge(),
            r is Err ==> final(self).trimmed_from(*old(self)) && final(self).no_links(),
            r matches Ok(unique) ==> final(self).one_merged(*old(self)) && (unique ==> final(
                self).has_one_solution()),
            r matches Ok(unique) ==> unique == shown_unique(final(self).cage_views(81)),
            old(self).sound() ==> final(self).sound(),
            old(self).fit() ==> final(self).fit(),
    {
        match self.merge_random_pair() {
            Some(pair) => {
                assert(self.joined_from(*old(self), pair.0 as int, pair.1 as int));
                Ok(self.has_unique_solution())
            },
            None => Err(()),
        }
    }

    /// Merges two cages that lie side by side, picked at random, such that
    /// the puzzle keeps one solution and only one. Pairs that cannot be merged
    /// so are struck from each other's lists. Says whether two cages were
    /// merged. None are only where no pair is left to try, and every pair
    /// that listed each other and might be merged was tried: merged, it is
    /// not shown to leave one solution.
    pub fn eliminate_cage(&mut self) -> (r: bool)
        requires
            old(self).wf(),
        ensures
            final(self).wf(),
            r ==> final(self).one_merged(*old(self)) && final(self).has_one_solution(),
            r ==> shown_unique(final(self).cage_views(81)),
            r ==> old(self).can_merge(),
            !r ==> final(self).trimmed_from(*old(self)) && !final(self).can_merge(),
            !r ==> forall|a: int, b: int| #[trigger]
                old(self).lists_pair(a, b) && may_merge(
                    old(self).numbers(),
                    old(self).cells_of(a),
                    old(self).cells_of(b),
                ) ==> old(self).rejected(a, b),
            old(self).sound() ==> final(self).sound(),
            old(self).fit() ==> final(self).fit(),
    {
        loop
            invariant
                self.wf(),
                old(self).wf(),
                self.trimmed_from(*old(self)),
                old(self).sound() ==> self.sound(),
                old(self).fit() ==> self.fit(),
                forall|a: int, b: int| #[trigger]
                    old(self).lists_pair(a, b) && may_merge(
                        old(self).numbers(),
                        old(self).cells_of(a),
                        old(self).cells_of(b),
                    ) && !self.lists_pair(a, b) ==> old(self).rejected(a, b),
            decreases links(*self, 81),
        {
            let ghost prev = *self;
            let mut copy = self.duplicate();
            let ghost fresh = copy;
            match copy.merge_random_pair() {
                None => {
                    proof {
                        if self.can_merge() {
                            let (x, y) = choose|x: int, y: int| #[trigger]
                                self.lists_pair(x, y) && may_merge(
                                    self.numbers(),
                                    self.cells_of(x),
                                    self.cells_of(y),
                                );
                            assert(fresh.lists_pair(x, y));
                        }
                        assert forall|a: int, b: int| #[trigger]
                            old(self).lists_pair(a, b) && may_merge(
                                old(self).numbers(),
                                old(self).cells_of(a),
                                old(self).cells_of(b),
                            ) implies old(self).rejected(a, b) by {
                            if self.lists_pair(a, b) {
                                assert(self.cells_of(a) == old(self).cells_of(a));
                                assert(self.cells_of(b) == old(self).cells_of(b));
                            }
                        }
                    }
                    return false;
                },
                Some(pair) => {
                    let ghost a = pair.0 as int;
                    let ghost b = pair.1 as int;
                    proof {
                        assert(fresh.has_cage(a) == prev.has_cage(a));
                        assert(fresh.has_cage(b) == prev.has_cage(b));
                        assert(prev.adjacent_of(a) == fresh.adjacent_of(a));
                    }
                    if copy.has_unique_solution() {
                        proof {
                            let (x, y) = choose|x: int, y: int| #[trigger]
                                fresh.lists_pair(x, y) && may_merge(
                                    fresh.numbers(),
                                    fresh.cells_of(x),
                                    fresh.cells_of(y),
                                );
                            assert(prev.has_cage(x) && prev.has_cage(y));
                            assert(prev.adjacent_of(x).contains(y as usize));
                            assert(old(self).adjacent_of(x).contains(y as usize));
                            assert(old(self).lists_pair(x, y));
                            lemma_count_same(prev, fresh, 81);
                            lemma_count_same(*old(self), prev, 81);
                            assert forall|i: int| #[trigger] copy.has_cage(i) == (old(
                                self).has_cage(i) && i != b) by {
                                assert(fresh.has_cage(i) == prev.has_cage(i));
                                assert(prev.has_cage(i) == old(self).has_cage(i));
                            }
                            assert(prev.has_cage(a) && prev.has_cage(b));
                            assert forall|i: int| i != a && #[trigger] copy.has_cage(
                                i,
                            ) implies copy.cells_of(i) == old(self).cells_of(i) by {
                                assert(fresh.has_cage(i));
                                assert(prev.has_cage(i));
                            }
                            assert(copy.joined_from(*old(self), a, b));
                        }
                        *self = copy;
                        return true;
                    }
                    proof {
                        lemma_count_same(prev, fresh, 81);
                        lemma_count_same(*old(self), prev, 81);
                        assert forall|i: int| #[trigger] copy.has_cage(i) == (old(self).has_cage(
                            i,
                        ) && i != b) by {
                            assert(fresh.has_cage(i) == prev.has_cage(i));
                            assert(prev.has_cage(i) == old(self).has_cage(i));
                        }
                        assert(prev.has_cage(a) && prev.has_cage(b));
                        assert forall|i: int| i != a && #[trigger] copy.has_cage(
                            i,
                        ) implies copy.cells_of(i) == old(self).cells_of(i) by {
                            assert(fresh.has_cage(i));
                            assert(prev.has_cage(i));
                        }
                        assert(copy.joined_from(*old(self), a, b));
                        assert(old(self).rejected(a, b)) by {
                            assert forall|after: Generator|
                                after.wf() && #[trigger] after.joined_from(
                                    *old(self),
                                    a,
                                    b,
                                ) implies !shown_unique(after.cage_views(81)) by {
                                lemma_joined_views(*old(self), after, copy, a, b, 81);
                            }
                        }
                    }
                    self.discard_pair(pair.0, pair.1);
                    proof {
                        assert forall|x: int, y: int| #[trigger]
                            old(self).lists_pair(x, y) && may_merge(
                                old(self).numbers(),
                                old(self).cells_of(x),
                                old(self).cells_of(y),
                            ) && !self.lists_pair(x, y) implies old(self).rejected(x, y) by {
                            if prev.lists_pair(x, y) && !(x == a && y == b) {
                                assert(self.has_cage(x) && self.has_cage(y));
                                if x == a {
                                    assert(self.without_link(prev, a, b));
                                } else if x == b {
                                    assert(self.without_link(prev, b, a));
                                } else {
                                    assert(self.adjacent_of(x) == prev.adjacent_of(x));
                                }
                                assert(self.adjacent_of(x).contains(y as usize));
                            }
                        }
                        assert forall|i: int| #[trigger] self.has_cage(i) == old(self).has_cage(
                            i,
                        ) by {
                            assert(prev.has_cage(i) == old(self).has_cage(i));
                        }
                        assert forall|i: int| #[trigger] self.has_cage(i) implies self.cells_of(i)
                            == old(self).cells_of(i) && self.adjacent_of(i).len()
                            <= prev.adjacent_of(i).len() && self.adjacent_of(i).len() <= old(
                                self).adjacent_of(i).len() by {
                            assert(prev.has_cage(i));
                        }
                        assert forall|i: int, x: usize|
                            self.has_cage(i) && #[trigger] self.adjacent_of(i).contains(
                                x,
                            ) implies old(self).adjacent_of(i).contains(x) by {
                            assert(prev.has_cage(i));
                            assert(prev.adjacent_of(i).contains(x));
                        }
                        lemma_links_shrink(prev, *self, 81, a);
                    }
                },
            }
        }
    }

    /// The pair of sum and cells is that of a cage with a number below `n`.
    pub open spec fn from_cage(&self, n: int, entry: (int, Seq<usize>)) -> bool {
        exists|i: int|
            0 <= i < n && #[trigger] self.has_cage(i) && entry == (
                self.cage_view(i).sum,
                self.cells_of(i),
            )
    }

    /// The cage with the number `i` is among the written cages with a number below `n`.
    pub open spec fn found_at(&self, n: int, i: int) -> bool {
        exists|k: int|
            0 <= k < self.written(n).len() && #[trigger] self.written(n)[k] == (
                self.cage_view(i).sum,
                self.cells_of(i),
            )
    }
}

/// The grid `after` holds what `before` held in the first three rows, and
/// wherever `before` held a digit that is not among `chosen`.
pub open spec fn kept_outside(before: Seq<usize>, after: Seq<usize>, chosen: Seq<usize>) -> bool {
    forall|i: int|
        0 <= i < 81 && (i < 27 || !chosen.contains(before[i])) ==> #[trigger] after[i] == before[i]
}

/// Whether the search shows that the puzzle of the rules of Sudoku and the
/// cages has a solution and only one: every cell lies in one of the cages,
/// the search finds one board, and it gave up no guess.
pub open spec fn shown_unique(cages: Seq<CageView>) -> bool {
    let base = with_cages(rules(), cages, cages.len() as int);
    &&& balanced(base, 4)
    &&& match search_of(open_board(), with_derived(base), 0) {
        Outcome::Found { boards, complete } => complete && boards.len() == 1,
        _ => false,
    }
}

/// A cage may not be merged with itself, and does not list itself.
proof fn lemma_not_with_itself(gen: Generator, a: int)
    requires
        gen.wf(),
        gen.has_cage(a),
    ensures
        !may_merge(gen.numbers(), gen.cells_of(a), gen.cells_of(a)),
        gen.unlinked_from(gen, a, a),
{
    let numbers = gen.numbers();
    let cells = gen.cells_of(a);
    let n = cells.len() as int;
    let mask = value_mask(numbers, cells, n);
    lemma_value_mask(numbers, cells, n);
    lemma_digits_mask(as_grid(numbers), cells, n);
    assert(cells[0] < 81);
    let d = as_grid(numbers)[cells[0] as int];
    assert(has_bit(mask, d));
    crate::util::lemma_count_zero(mask, 64);
    crate::util::lemma_or_rearrange(mask, mask, 0);
    crate::util::lemma_bit_algebra(mask, mask);
    crate::util::lemma_bits_equal(mask | mask, mask);
    if gen.adjacent_of(a).contains(a as usize) {
        let k = choose|k: int|
            0 <= k < gen.adjacent_of(a).len() && gen.adjacent_of(a)[k] == a as usize;
        assert(gen.linked(a, gen.adjacent_of(a)[k] as int));
    }
    assert(gen.without_link(gen, a, a));
}

/// Two generators in which one cage has taken in the same other cage make
/// the same cages of a puzzle.
proof fn lemma_joined_views(
    before: Generator,
    first: Generator,
    second: Generator,
    a: int,
    b: int,
    n: int,
)
    requires
        first.wf(),
        second.wf(),
        first.joined_from(before, a, b),
        second.joined_from(before, a, b),
    ensures
        first.cage_views(n) == second.cage_views(n),
    decreases n,
{
    if n > 0 {
        lemma_joined_views(before, first, second, a, b, n - 1);
        let i = n - 1;
        assert(first.has_cage(i) == second.has_cage(i));
        if first.has_cage(i) {
            if i == a {
                crate::derive::lemma_increasing_same(first.cells_of(a), second.cells_of(a));
            }
            assert(first.cells_of(i) == second.cells_of(i));
        }
    }
}

/// The cages of a well-formed generator as cages of a puzzle: each is
/// well-formed, and is what is written of it.
proof fn lemma_cage_views(gen: Generator, n: int)
    requires
        gen.wf(),
        0 <= n,
    ensures
        gen.cage_views(n).len() == gen.written(n).len(),
        forall|k: int|
            0 <= k < gen.cage_views(n).len() ==> (#[trigger] gen.cage_views(n)[k]).wf()
                && gen.cage_views(n)[k].uniqueness && gen.written(n)[k] == (
                gen.cage_views(n)[k].sum,
                gen.cage_views(n)[k].cells,
            ),
    decreases n,
{
    if n > 0 {
        lemma_cage_views(gen, n - 1);
    }
}

/// The mask of the digits of cells is the mask of the digits that the grid gives them.
proof fn lemma_value_mask(numbers: Seq<usize>, cells: Seq<usize>, n: int)
    requires
        0 <= n <= cells.len(),
        forall|k: int| 0 <= k < cells.len() ==> #[trigger] cells[k] < numbers.len(),
    ensures
        value_mask(numbers, cells, n) == digits_mask(as_grid(numbers), cells, n),
    decreases n,
{
    if n > 0 {
        lemma_value_mask(numbers, cells, n - 1);
        let c = cells[n - 1];
        assert(as_grid(numbers)[c as int] == numbers[c as int]);
        assert((numbers[c as int] as int) as u64 == numbers[c as int] as u64);
    }
}

/// A generator with the grid and the cells of a sound one is sound.
pub proof fn lemma_same_cells_sound(before: Generator, after: Generator)
    requires
        before.sound(),
        after.numbers() == before.numbers(),
        forall|i: int|
            #[trigger] after.has_cage(i) ==> before.has_cage(i) && after.cells_of(i)
                == before.cells_of(i),
    ensures
        after.sound(),
{
}

/// Where a cage of a sound generator has taken in another that shares no
/// digit with it, the generator is still sound.
pub proof fn lemma_merged_sound(before: Generator, after: Generator, a: int, b: int)
    requires
        before.wf(),
        after.wf(),
        before.sound(),
        before.has_cage(a),
        before.has_cage(b),
        may_merge(before.numbers(), before.cells_of(a), before.cells_of(b)),
        after.numbers() == before.numbers(),
        forall|i: int| #[trigger] after.has_cage(i) == (before.has_cage(i) && i != b),
        forall|x: usize| #[trigger]
            after.cells_of(a).contains(x) <==> before.cells_of(a).contains(x)
                || before.cells_of(b).contains(x),
        forall|i: int|
            i != a && #[trigger] after.has_cage(i) ==> after.cells_of(i) == before.cells_of(i),
    ensures
        after.sound(),
{
    let numbers = before.numbers();
    let g = as_grid(numbers);
    let first = before.cells_of(a);
    let second = before.cells_of(b);
    let both = after.cells_of(a);
    let mask_a = value_mask(numbers, first, first.len() as int);
    let mask_b = value_mask(numbers, second, second.len() as int);
    lemma_value_mask(numbers, first, first.len() as int);
    lemma_value_mask(numbers, second, second.len() as int);
    lemma_digits_mask(g, first, first.len() as int);
    lemma_digits_mask(g, second, second.len() as int);
    crate::util::lemma_apart(mask_a, mask_b);
    assert(cells_distinct(g, first));
    assert(cells_distinct(g, second));
    assert forall|i: int| #[trigger] after.has_cage(i) implies cells_distinct(
        g,
        after.cells_of(i),
    ) by {
        if i == a {
            assert(a != b);
            assert forall|p: int, q: int|
                0 <= p < q < both.len() implies g[#[trigger] both[p] as int]
                != g[#[trigger] both[q] as int] by {
                let x = both[p];
                let y = both[q];
                assert(x < y);
                assert(both.contains(x) && both.contains(y));
                if first.contains(x) && first.contains(y) {
                    let i1 = choose|i1: int| 0 <= i1 < first.len() && first[i1] == x;
                    let i2 = choose|i2: int| 0 <= i2 < first.len() && first[i2] == y;
                    if i1 < i2 {
                        assert(g[first[i1] as int] != g[first[i2] as int]);
                    } else {
                        assert(g[first[i2] as int] != g[first[i1] as int]);
                    }
                } else if second.contains(x) && second.contains(y) {
                    let i1 = choose|i1: int| 0 <= i1 < second.len() && second[i1] == x;
                    let i2 = choose|i2: int| 0 <= i2 < second.len() && second[i2] == y;
                    if i1 < i2 {
                        assert(g[second[i1] as int] != g[second[i2] as int]);
                    } else {
                        assert(g[second[i2] as int] != g[second[i1] as int]);
                    }
                } else {
                    let u = if first.contains(x) { x } else { y };
                    let v = if first.contains(x) { y } else { x };
                    assert(first.contains(u) && second.contains(v));
                    let i1 = choose|i1: int| 0 <= i1 < first.len() && first[i1] == u;
                    let i2 = choose|i2: int| 0 <= i2 < second.len() && second[i2] == v;
                    assert(g[first[i1] as int] == g[u as int]);
                    assert(g[second[i2] as int] == g[v as int]);
                    assert(has_bit(mask_a, g[u as int]));
                    assert(has_bit(mask_b, g[v as int]));
                }
            }
        } else {
            assert(before.has_cage(i));
        }
    }
}

/// Where a cage of a sound generator has taken in another, the cage made
/// has fewer than 8 cells.
pub proof fn lemma_merged_size(before: Generator, after: Generator, a: int, b: int)
    requires
        before.wf(),
        after.wf(),
        before.sound(),
        before.has_cage(a),
        before.has_cage(b),
        may_merge(before.numbers(), before.cells_of(a), before.cells_of(b)),
        after.numbers() == before.numbers(),
        forall|i: int| #[trigger] after.has_cage(i) == (before.has_cage(i) && i != b),
        forall|x: usize| #[trigger]
            after.cells_of(a).contains(x) <==> before.cells_of(a).contains(x)
                || before.cells_of(b).contains(x),
        forall|i: int|
            i != a && #[trigger] after.has_cage(i) ==> after.cells_of(i) == before.cells_of(i),
    ensures
        after.cells_of(a).len() < 8,
{
    if a == b {
        lemma_not_with_itself(before, a);
    }
    lemma_merged_sound(before, after, a, b);
    let numbers = before.numbers();
    let g = as_grid(numbers);
    let first = before.cells_of(a);
    let second = before.cells_of(b);
    let both = after.cells_of(a);
    let mask_a = value_mask(numbers, first, first.len() as int);
    let mask_b = value_mask(numbers, second, second.len() as int);
    let mask = digits_mask(g, both, both.len() as int);
    lemma_value_mask(numbers, first, first.len() as int);
    lemma_value_mask(numbers, second, second.len() as int);
    lemma_digits_mask(g, first, first.len() as int);
    lemma_digits_mask(g, second, second.len() as int);
    assert(after.has_cage(a));
    assert(cells_distinct(g, both));
    lemma_digits_mask(g, both, both.len() as int);
    crate::util::lemma_bit_algebra(mask_a, mask_b);
    assert forall|d: int| 0 <= d < 64 && has_bit(mask, d) implies has_bit(mask_a | mask_b, d) by {
        let k = choose|k: int| 0 <= k < both.len() && g[#[trigger] both[k] as int] == d;
        assert(both.contains(both[k]));
        if first.contains(both[k]) {
            let p = choose|p: int| 0 <= p < first.len() && first[p] == both[k];
            assert(g[first[p] as int] == d);
        } else {
            let p = choose|p: int| 0 <= p < second.len() && second[p] == both[k];
            assert(g[second[p] as int] == d);
        }
    }
    crate::util::lemma_count_subset(mask, mask_a | mask_b, 64);
}

/// The grid of a sound generator solves the puzzle that its cages make.
pub proof fn lemma_grid_solves(generator: Generator)
    requires
        generator.wf(),
        generator.sound(),
    ensures
        generator.solved_by(as_grid(generator.numbers())),
{
    let g = as_grid(generator.numbers());
    assert(is_grid(g));
    crate::puzzle::lemma_valid_meets_rules(g);
}

/// A generator with the cages of a well-formed one and with digits in its grid is well-formed.
proof fn lemma_same_cages(before: Generator, after: Generator)
    requires
        before.wf(),
        after.cages == before.cages,
        after.numbers().len() == 81,
        forall|i: int| 0 <= i < 81 ==> 1 <= #[trigger] after.numbers()[i] <= 9,
    ensures
        after.wf(),
        forall|i: int| after.has_cage(i) == before.has_cage(i),
        forall|i: int|
            before.has_cage(i) ==> after.cells_of(i) == before.cells_of(i) && after.adjacent_of(i)
                == before.adjacent_of(i),
{
    assert forall|i: int| #[trigger] after.has_cage(i) implies cells_wf(after.cells_of(i))
        && after.cells_of(i).len() >= 1 && strictly_increasing(after.adjacent_of(i)) by {
        assert(before.has_cage(i));
    }
    assert forall|i: int, k: int|
        after.has_cage(i) && 0 <= k < after.adjacent_of(i).len() implies after.linked(
        i,
        #[trigger] after.adjacent_of(i)[k] as int,
    ) by {
        assert(before.has_cage(i));
        assert(before.linked(i, before.adjacent_of(i)[k] as int));
    }
}

/// A generator in which one cage has taken in another is well-formed.
proof fn lemma_merged_wf(before: Generator, after: Generator, a: int, b: int)
    requires
        before.wf(),
        before.has_cage(a),
        before.has_cage(b),
        a != b,
        after.has_cage(a),
        !after.has_cage(b),
        after.numbers() == before.numbers(),
        cells_wf(after.cells_of(a)),
        strictly_increasing(after.adjacent_of(a)),
        forall|x: usize| #[trigger]
            after.cells_of(a).contains(x) <==> before.cells_of(a).contains(x) || before.cells_of(
                b,
            ).contains(x),
        forall|x: usize| #[trigger]
            after.adjacent_of(a).contains(x) <==> (before.adjacent_of(a).contains(x)
                || before.adjacent_of(b).contains(x)) && x != a && x != b,
        forall|j: int|
            0 <= j < 81 && j != a && j != b ==> #[trigger] after.has_cage(j) == before.has_cage(j),
        forall|j: int|
            0 <= j < 81 && j != a && j != b && #[trigger] after.has_cage(j) ==> after.cells_of(j)
                == before.cells_of(j) && strictly_increasing(after.adjacent_of(j)),
        forall|j: int, x: usize|
            0 <= j < 81 && j != a && j != b && after.has_cage(j) ==> (#[trigger] after.adjacent_of(
                j,
            ).contains(x) <==> (before.adjacent_of(j).contains(x) && x != b) || (x == a
                && before.adjacent_of(j).contains(b as usize))),
    ensures
        after.wf(),
        after.merged_from(before, a, b),
{
    assert(before.cells_of(a).len() >= 1);
    assert(after.cells_of(a).contains(before.cells_of(a)[0]));
    assert forall|i: int| #[trigger] after.has_cage(i) == (before.has_cage(i) && i != b) by {
        if 0 <= i < 81 && i != a && i != b {
            assert(after.has_cage(i) == before.has_cage(i));
        }
    }
    assert forall|i: int| #[trigger] after.has_cage(i) implies cells_wf(after.cells_of(i))
        && after.cells_of(i).len() >= 1 && strictly_increasing(after.adjacent_of(i)) by {
        if i != a {
            assert(before.has_cage(i));
        }
    }
    assert forall|i: int, k: int|
        after.has_cage(i) && 0 <= k < after.adjacent_of(i).len() implies after.linked(
        i,
        #[trigger] after.adjacent_of(i)[k] as int,
    ) by {
        let x = after.adjacent_of(i)[k];
        assert(after.adjacent_of(i).contains(x));
        if i == a {
            if before.adjacent_of(a).contains(x) {
                let p = choose|p: int|
                    0 <= p < before.adjacent_of(a).len() && before.adjacent_of(a)[p] == x;
                assert(before.linked(a, before.adjacent_of(a)[p] as int));
            } else {
                let p = choose|p: int|
                    0 <= p < before.adjacent_of(b).len() && before.adjacent_of(b)[p] == x;
                assert(before.linked(b, before.adjacent_of(b)[p] as int));
            }
            assert(after.has_cage(x as int) == before.has_cage(x as int));
            assert(after.adjacent_of(x as int).contains(a as usize));
        } else {
            assert(before.has_cage(i));
            if x == a && before.adjacent_of(i).contains(b as usize) {
                let p = choose|p: int|
                    0 <= p < before.adjacent_of(i).len() && before.adjacent_of(i)[p] == b;
                assert(before.linked(i, before.adjacent_of(i)[p] as int));
                assert(before.adjacent_of(b).contains(i as usize));
                assert(after.adjacent_of(a).contains(i as usize));
            } else {
                let p = choose|p: int|
                    0 <= p < before.adjacent_of(i).len() && before.adjacent_of(i)[p] == x;
                assert(before.linked(i, before.adjacent_of(i)[p] as int));
                if x == a {
                    assert(before.adjacent_of(a).contains(i as usize));
                    assert(after.adjacent_of(a).contains(i as usize));
                } else {
                    assert(after.has_cage(x as int) == before.has_cage(x as int));
                    assert(after.adjacent_of(x as int).contains(i as usize));
                }
            }
        }
    }
    assert forall|i: int, x: usize| i != a && after.has_cage(i) implies (
        #[trigger] after.adjacent_of(
        i,
    ).contains(x) <==> (before.adjacent_of(i).contains(x) && x != b) || (x == a
        && before.adjacent_of(i).contains(b as usize))) by {
        assert(0 <= i < 81 && i != b);
    }
    assert forall|i: int| i != a && #[trigger] after.has_cage(i) implies after.cells_of(i)
        == before.cells_of(i) by {
        assert(0 <= i < 81 && i != b);
    }
}

/// A generator in which two cages no longer list each other is well-formed.
proof fn lemma_unlinked_wf(before: Generator, after: Generator, a: int, b: int)
    requires
        before.wf(),
        before.has_cage(a),
        before.has_cage(b),
        a != b,
        after.unlinked_from(before, a, b),
    ensures
        after.wf(),
{
    assert forall|i: int| #[trigger] after.has_cage(i) implies cells_wf(after.cells_of(i))
        && after.cells_of(i).len() >= 1 && strictly_increasing(after.adjacent_of(i)) by {
        assert(before.has_cage(i));
    }
    assert forall|i: int, k: int|
        after.has_cage(i) && 0 <= k < after.adjacent_of(i).len() implies after.linked(
        i,
        #[trigger] after.adjacent_of(i)[k] as int,
    ) by {
        let x = after.adjacent_of(i)[k];
        assert(after.adjacent_of(i).contains(x));
        assert(before.has_cage(i));
        assert(before.adjacent_of(i).contains(x));
        let p = choose|p: int| 0 <= p < before.adjacent_of(i).len() && before.adjacent_of(
            i)[p] == x;
        assert(before.linked(i, before.adjacent_of(i)[p] as int));
        assert(after.has_cage(x as int));
        assert(before.adjacent_of(x as int).contains(i as usize));
        assert(after.adjacent_of(x as int).contains(i as usize));
    }
}

/// The number of entries in the lists of the cages with a number below `n`.
pub open spec fn links(gen: Generator, n: int) -> int
    decreases n,
{
    if n <= 0 {
        0
    } else {
        links(gen, n - 1) + if gen.has_cage(n - 1) {
            gen.adjacent_of(n - 1).len() as int
        } else {
            0int
        }
    }
}

/// Where no list has grown, the lists have no more entries; fewer, where
/// the list of a cage below `n` has shrunk.
proof fn lemma_links_shrink(before: Generator, after: Generator, n: int, a: int)
    requires
        forall|i: int| #[trigger] after.has_cage(i) == before.has_cage(i),
        forall|i: int|
            #[trigger] after.has_cage(i) ==> after.adjacent_of(i).len() <= before.adjacent_of(
                i,
            ).len(),
    ensures
        0 <= links(after, n) <= links(before, n),
        0 <= a < n && after.has_cage(a) && after.adjacent_of(a).len() < before.adjacent_of(a).len()
            ==> links(after, n) < links(before, n),
    decreases n,
{
    if n > 0 {
        lemma_links_shrink(before, after, n - 1, a);
        assert(after.has_cage(n - 1) == before.has_cage(n - 1));
    }
}

/// Where the lists have no entries, no cage lists another.
proof fn lemma_no_links(gen: Generator, n: int)
    requires
        links(gen, n) == 0,
        0 <= n,
    ensures
        forall|i: int| 0 <= i < n && #[trigger] gen.has_cage(i) ==> gen.adjacent_of(i).len() == 0,
    decreases n,
{
    if n > 0 {
        lemma_links_nonnegative(gen, n - 1);
        lemma_no_links(gen, n - 1);
    }
}

proof fn lemma_links_nonnegative(gen: Generator, n: int)
    ensures
        links(gen, n) >= 0,
    decreases n,
{
    if n > 0 {
        lemma_links_nonnegative(gen, n - 1);
    }
}

/// Once a cage has taken in another, there is one cage fewer.
proof fn lemma_count_merged(before: Generator, after: Generator, b: int, n: int)
    requires
        forall|i: int| #[trigger] after.has_cage(i) == (before.has_cage(i) && i != b),
        before.has_cage(b),
    ensures
        after.count_cages(n) == before.count_cages(n) - if b < n { 1int } else { 0int },
    decreases n,
{
    if n > 0 {
        lemma_count_merged(before, after, b, n - 1);
        assert(after.has_cage(n - 1) == (before.has_cage(n - 1) && n - 1 != b));
    }
}

/// The number of cages stays where the same cages are there.
proof fn lemma_count_same(before: Generator, after: Generator, n: int)
    requires
        forall|i: int| #[trigger] after.has_cage(i) == before.has_cage(i),
    ensures
        after.count_cages(n) == before.count_cages(n),
    decreases n,
{
    if n > 0 {
        lemma_count_same(before, after, n - 1);
        assert(after.has_cage(n - 1) == before.has_cage(n - 1));
    }
}

/// The list of a cage holds at most 81 cages.
proof fn lemma_adjacent_bound(gen: Generator, i: int)
    requires
        gen.wf(),
        gen.has_cage(i),
    ensures
        gen.adjacent_of(i).len() <= 81,
{
    let adj = gen.adjacent_of(i);
    assert forall|k: int| 0 <= k < adj.len() implies #[trigger] adj[k] < 81 by {
        assert(gen.linked(i, adj[k] as int));
    }
    crate::cage::lemma_cells_len(adj);
}

/// Each pair that may be tried has a weight above zero, and at most 2048.
proof fn lemma_weights_positive(gen: Generator, list: Seq<Merge>, n: int)
    requires
        gen.wf(),
        0 <= n <= list.len(),
        forall|k: int| 0 <= k < list.len() ==> gen.offers(#[trigger] list[k]),
    ensures
        forall|k: int| 0 <= k < list.len() ==> 12 <= (#[trigger] list[k]).weight <= 2048,
        12 * n <= cumulative(list, n) <= 2048 * n,
    decreases n,
{
    assert forall|k: int| 0 <= k < list.len() implies 12 <= (#[trigger] list[k]).weight <= 2048 by {
        let m = list[k];
        assert(gen.offers(m));
        crate::cage::lemma_cells_len(gen.cells_of(m.first as int));
        crate::cage::lemma_cells_len(gen.cells_of(m.second as int));
        let size = gen.cells_of(m.first as int).len() + gen.cells_of(m.second as int).len() - 1;
        assert(1 <= size <= 161);
        assert(6 <= 1024int / size <= 1024) by (nonlinear_arith)
            requires
                1 <= size <= 161,
        ;
    }
    if n > 0 {
        lemma_weights_positive(gen, list, n - 1);
    }
}

/// A copy of a well-formed generator is well-formed.
proof fn lemma_copy_wf(before: Generator, after: Generator)
    requires
        before.wf(),
        after.numbers() == before.numbers(),
        forall|i: int| #[trigger] after.has_cage(i) == before.has_cage(i),
        forall|i: int|
            #[trigger] before.has_cage(i) ==> after.cells_of(i) == before.cells_of(i)
                && after.adjacent_of(i) == before.adjacent_of(i),
    ensures
        after.wf(),
{
    assert forall|i: int| #[trigger] after.has_cage(i) implies cells_wf(after.cells_of(i))
        && after.cells_of(i).len() >= 1 && strictly_increasing(after.adjacent_of(i)) by {
        assert(before.has_cage(i));
    }
    assert forall|i: int, k: int|
        after.has_cage(i) && 0 <= k < after.adjacent_of(i).len() implies after.linked(
        i,
        #[trigger] after.adjacent_of(i)[k] as int,
    ) by {
        assert(before.has_cage(i));
        assert(before.linked(i, before.adjacent_of(i)[k] as int));
        assert(before.has_cage(before.adjacent_of(i)[k] as int));
    }
}

/// What is written of the cages with a number below `n`: one entry for each
/// cage, and each entry for a cage.
proof fn lemma_written(gen: Generator, n: int)
    requires
        0 <= n,
    ensures
        forall|k: int|
            0 <= k < gen.written(n).len() ==> gen.from_cage(n, #[trigger] gen.written(n)[k]),
        forall|i: int| 0 <= i < n && gen.has_cage(i) ==> #[trigger] gen.found_at(n, i),
    decreases n,
{
    if n > 0 {
        lemma_written(gen, n - 1);
        let prev = gen.written(n - 1);
        let cur = gen.written(n);
        assert forall|k: int| 0 <= k < cur.len() implies gen.from_cage(n, #[trigger] cur[k]) by {
            if k < prev.len() {
                assert(cur[k] == prev[k]);
                assert(gen.from_cage(n - 1, prev[k]));
                let i = choose|i: int|
                    0 <= i < n - 1 && #[trigger] gen.has_cage(i) && prev[k] == (
                        gen.cage_view(i).sum,
                        gen.cells_of(i),
                    );
                assert(0 <= i < n && gen.has_cage(i));
            } else {
                assert(gen.has_cage(n - 1));
            }
        }
        assert forall|i: int| 0 <= i < n && gen.has_cage(i) implies #[trigger] gen.found_at(
            n,
            i,
        ) by {
            if i < n - 1 {
                assert(gen.found_at(n - 1, i));
                let k = choose|k: int|
                    0 <= k < prev.len() && #[trigger] prev[k] == (
                        gen.cage_view(i).sum,
                        gen.cells_of(i),
                    );
                assert(cur[k] == prev[k]);
            } else {
                assert(cur[prev.len() as int] == (gen.cage_view(i).sum, gen.cells_of(i)));
            }
        }
    }
}

} // verus!
