//! Cages that follow from others: what is left of a row, column or box once
//! the cages inside it are taken out, and what the cages across its border
//! hold beyond it.

use crate::cage::{in_prefix, index_leq, lemma_sorted, lemma_sorted_cells_wf, sorted, Cage};
use crate::partition::{lemma_sorted_already, lemma_wf_distinct};
use crate::grid::{cells_distinct, cells_sum, cells_wf, is_grid, CageView};
use crate::puzzle::{cages_wf, meets_all, views};
use crate::util::strictly_increasing;
use vstd::prelude::*;

verus! {

/// The largest cage that is added as what is left of a row, column or box.
pub const MAX_DERIVED_CAGE_SIZE: usize = 8;

/// The largest cage that is added as what reaches beyond a row, column or box.
pub const MAX_EXCESS_CAGE_SIZE: usize = 4;

/// The sum of the digits that the grid gives to those of the first `n` cells
/// of the board that are among `cells`.
pub open spec fn member_sum(g: Seq<int>, cells: Seq<usize>, n: int) -> int
    decreases n,
{
    if n <= 0 {
        0
    } else {
        member_sum(g, cells, n - 1) + if cells.contains((n - 1) as usize) {
            g[n - 1]
        } else {
            0
        }
    }
}

/// Every grid that meets the cages meets `cage`.
pub open spec fn follows_from(cages: Seq<CageView>, cage: CageView) -> bool {
    forall|g: Seq<int>| is_grid(g) && #[trigger] meets_all(cages, g) ==> cage.satisfied_by(g)
}

/// For every grid that meets the cages, the digits of `cells` add up to `sum`.
pub open spec fn sum_follows(cages: Seq<CageView>, cells: Seq<usize>, sum: int) -> bool {
    forall|g: Seq<int>|
        is_grid(g) && #[trigger] meets_all(cages, g) ==> member_sum(g, cells, 81) == sum
}

/// One cell more among the members adds its digit.
proof fn lemma_member_sum_add(g: Seq<int>, s: Seq<usize>, t: Seq<usize>, x: usize, n: int)
    requires
        forall|y: usize| t.contains(y) <==> s.contains(y) || y == x,
        !s.contains(x),
        0 <= n <= 81,
    ensures
        member_sum(g, t, n) == member_sum(g, s, n) + if x < n { g[x as int] } else { 0 },
    decreases n,
{
    if n > 0 {
        lemma_member_sum_add(g, s, t, x, n - 1);
    }
}

/// The sum over a list of ascending cells is the sum over its members.
pub proof fn lemma_cells_sum_members(g: Seq<int>, cells: Seq<usize>, k: int)
    requires
        cells_wf(cells),
        0 <= k <= cells.len(),
    ensures
        cells_sum(g, cells, k) == member_sum(g, cells.take(k), 81),
    decreases k,
{
    if k > 0 {
        lemma_cells_sum_members(g, cells, k - 1);
        let s = cells.take(k - 1);
        let t = cells.take(k);
        let x = cells[k - 1];
        assert forall|y: usize| t.contains(y) <==> s.contains(y) || y == x by {
            if t.contains(y) {
                let i = choose|i: int| 0 <= i < t.len() && t[i] == y;
                if i < k - 1 {
                    assert(s[i] == y);
                }
            }
            if s.contains(y) {
                let i = choose|i: int| 0 <= i < s.len() && s[i] == y;
                assert(t[i] == y);
            }
            if y == x {
                assert(t[k - 1] == y);
            }
        }
        if s.contains(x) {
            let i = choose|i: int| 0 <= i < s.len() && s[i] == x;
            assert(cells[i] < cells[k - 1]);
        }
        lemma_member_sum_add(g, s, t, x, 81);
    } else {
        lemma_member_sum_none(g, cells.take(0), 81);
    }
}

proof fn lemma_member_sum_none(g: Seq<int>, s: Seq<usize>, n: int)
    requires
        s.len() == 0,
    ensures
        member_sum(g, s, n) == 0,
    decreases n,
{
    if n > 0 {
        lemma_member_sum_none(g, s, n - 1);
    }
}

/// The sum over the members of a list is the sums over the members of two
/// lists that share it out between them.
pub proof fn lemma_member_sum_split(
    g: Seq<int>,
    a: Seq<usize>,
    b: Seq<usize>,
    c: Seq<usize>,
    n: int,
)
    requires
        forall|x: usize| a.contains(x) <==> b.contains(x) || c.contains(x),
        forall|x: usize| !(b.contains(x) && c.contains(x)),
    ensures
        member_sum(g, a, n) == member_sum(g, b, n) + member_sum(g, c, n),
    decreases n,
{
    if n > 0 {
        lemma_member_sum_split(g, a, b, c, n - 1);
    }
}

/// The sum that a cage asks for is a sum over the members of its cells.
pub proof fn lemma_cage_member_sum(cage: CageView, g: Seq<int>)
    requires
        cage.wf(),
        cage.satisfied_by(g),
    ensures
        member_sum(g, cage.cells, 81) == cage.sum,
{
    lemma_cells_sum_members(g, cage.cells, cage.cells.len() as int);
    assert(cage.cells.take(cage.cells.len() as int) =~= cage.cells);
}

/// Cells with distinct digits: ascending cells among them have distinct digits too.
pub proof fn lemma_subset_distinct(g: Seq<int>, sub: Seq<usize>, sup: Seq<usize>)
    requires
        strictly_increasing(sub),
        forall|x: usize| sub.contains(x) ==> sup.contains(x),
        cells_distinct(g, sup),
    ensures
        cells_distinct(g, sub),
{
    assert forall|i: int, j: int| 0 <= i < j < sub.len() implies g[#[trigger] sub[i] as int]
        != g[#[trigger] sub[j] as int] by {
        assert(sub.contains(sub[i]));
        assert(sub.contains(sub[j]));
        let p = choose|p: int| 0 <= p < sup.len() && sup[p] == sub[i];
        let q = choose|q: int| 0 <= q < sup.len() && sup[q] == sub[j];
        assert(sub[i] < sub[j]);
        if p < q {
            assert(g[sup[p] as int] != g[sup[q] as int]);
        } else if q < p {
            assert(g[sup[q] as int] != g[sup[p] as int]);
        }
    }
}

/// Taking a cage out of a cage that holds its cells leaves a cage that
/// follows from the two.
pub proof fn lemma_residual(
    parent: CageView,
    child: CageView,
    rest: CageView,
    g: Seq<int>,
)
    requires
        parent.wf(),
        child.wf(),
        rest.wf(),
        parent.uniqueness,
        forall|x: usize| rest.cells.contains(x) <==> parent.cells.contains(x)
            && !child.cells.contains(x),
        forall|x: usize| child.cells.contains(x) ==> parent.cells.contains(x),
        rest.sum == parent.sum - child.sum,
        parent.satisfied_by(g),
        child.satisfied_by(g),
    ensures
        rest.satisfied_by(g),
{
    lemma_cage_member_sum(parent, g);
    lemma_cage_member_sum(child, g);
    lemma_member_sum_split(g, parent.cells, rest.cells, child.cells, 81);
    lemma_cells_sum_members(g, rest.cells, rest.cells.len() as int);
    assert(rest.cells.take(rest.cells.len() as int) =~= rest.cells);
    lemma_subset_distinct(g, rest.cells, parent.cells);
}

/// What ascending cells hold after sorting two lists together is what the lists hold.
pub proof fn lemma_sorted_members(a: Seq<usize>, b: Seq<usize>)
    ensures
        forall|x: usize| sorted(a + b).contains(x) <==> a.contains(x) || b.contains(x),
        strictly_increasing(sorted(a + b)) ==> forall|x: usize| !(a.contains(x) && b.contains(x)),
{
    broadcast use vstd::seq_lib::group_to_multiset_ensures;
    broadcast use vstd::multiset::group_multiset_axioms;

    let t = sorted(a + b);
    lemma_sorted(a + b, t);
    vstd::seq_lib::lemma_multiset_commutative(a, b);
    assert forall|x: usize| t.contains(x) <==> a.contains(x) || b.contains(x) by {
        assert(t.contains(x) <==> t.to_multiset().count(x) > 0);
        assert(a.contains(x) <==> a.to_multiset().count(x) > 0);
        assert(b.contains(x) <==> b.to_multiset().count(x) > 0);
    }
    if strictly_increasing(t) {
        assert(t.no_duplicates()) by {
            assert forall|i: int, j: int| 0 <= i < t.len() && 0 <= j < t.len() && i
                != j implies t[i] != t[j] by {
                if i < j {
                    assert(t[i] < t[j]);
                } else {
                    assert(t[j] < t[i]);
                }
            }
        }
        t.lemma_multiset_has_no_duplicates();
        assert forall|x: usize| !(a.contains(x) && b.contains(x)) by {
            if a.contains(x) && b.contains(x) {
                assert(a.to_multiset().count(x) > 0);
                assert(b.to_multiset().count(x) > 0);
                assert(t.to_multiset().count(x) >= 2);
            }
        }
    }
}

/// The cells of `a` that are not among `b`, in the order of `a`.
pub open spec fn minus(a: Seq<usize>, b: Seq<usize>) -> Seq<usize>
    decreases a.len(),
{
    if a.len() == 0 {
        a
    } else if b.contains(a.last()) {
        minus(a.drop_last(), b)
    } else {
        minus(a.drop_last(), b).push(a.last())
    }
}

/// Every cell of `a` is among `b`.
pub open spec fn inside(a: Seq<usize>, b: Seq<usize>) -> bool {
    forall|x: usize| a.contains(x) ==> b.contains(x)
}

/// Some cell is among both `a` and `b`.
pub open spec fn overlap(a: Seq<usize>, b: Seq<usize>) -> bool {
    exists|x: usize| a.contains(x) && b.contains(x)
}

/// What `minus` holds, and that it keeps the order.
pub proof fn lemma_minus(a: Seq<usize>, b: Seq<usize>)
    ensures
        forall|x: usize| minus(a, b).contains(x) <==> a.contains(x) && !b.contains(x),
        strictly_increasing(a) ==> strictly_increasing(minus(a, b)),
        minus(a, b).len() <= a.len(),
    decreases a.len(),
{
    if a.len() > 0 {
        let head = a.drop_last();
        let m = minus(head, b);
        let r = minus(a, b);
        lemma_minus(head, b);
        assert forall|x: usize| r.contains(x) <==> a.contains(x) && !b.contains(x) by {
            if a.contains(x) {
                let i = choose|i: int| 0 <= i < a.len() && a[i] == x;
                if i < a.len() - 1 {
                    assert(head[i] == x);
                }
            }
            if head.contains(x) {
                let i = choose|i: int| 0 <= i < head.len() && head[i] == x;
                assert(a[i] == x);
            }
            assert(a[a.len() - 1] == a.last());
            if !b.contains(a.last()) {
                if r.contains(x) {
                    let i = choose|i: int| 0 <= i < r.len() && r[i] == x;
                    if i < m.len() {
                        assert(m[i] == x);
                    }
                }
                if m.contains(x) {
                    let i = choose|i: int| 0 <= i < m.len() && m[i] == x;
                    assert(r[i] == x);
                }
                assert(r[m.len() as int] == a.last());
            }
        }
        if strictly_increasing(a) && !b.contains(a.last()) {
            assert forall|i: int, j: int| 0 <= i < j < r.len() implies r[i] < r[j] by {
                if j < m.len() {
                    assert(m[i] < m[j]);
                } else {
                    assert(r =~= m.push(a.last()));
                    assert(r[i] == m[i]);
                    assert(r[j] == a.last());
                    assert(m.contains(m[i]));
                    assert(head.contains(m[i]));
                    let p = choose|p: int| 0 <= p < head.len() && head[p] == m[i];
                    assert(a[p] == head[p]);
                    assert(a[p] < a[a.len() - 1]);
                }
            }
        }
    }
}

/// Ascending lists that hold the same cells are the same list.
pub proof fn lemma_increasing_same(a: Seq<usize>, b: Seq<usize>)
    requires
        strictly_increasing(a),
        strictly_increasing(b),
        forall|x: usize| a.contains(x) <==> b.contains(x),
    ensures
        a == b,
{
    broadcast use vstd::seq_lib::group_to_multiset_ensures;

    lemma_increasing_distinct(a);
    lemma_increasing_distinct(b);
    a.lemma_multiset_has_no_duplicates();
    b.lemma_multiset_has_no_duplicates();
    assert(a.to_multiset() =~= b.to_multiset()) by {
        assert forall|x: usize| a.to_multiset().count(x) == b.to_multiset().count(x) by {
            assert(a.contains(x) <==> a.to_multiset().count(x) > 0);
            assert(b.contains(x) <==> b.to_multiset().count(x) > 0);
        }
    }
    assert(vstd::relations::sorted_by(a, index_leq())) by {
        assert forall|i: int, j: int| 0 <= i < j < a.len() implies #[trigger] index_leq()(
            a[i],
            a[j],
        ) by {
            assert(a[i] < a[j]);
        }
    }
    assert(vstd::relations::sorted_by(b, index_leq())) by {
        assert forall|i: int, j: int| 0 <= i < j < b.len() implies #[trigger] index_leq()(
            b[i],
            b[j],
        ) by {
            assert(b[i] < b[j]);
        }
    }
    lemma_sorted(b, a);
    lemma_sorted(b, b);
}

/// An ascending list holds nothing twice.
proof fn lemma_increasing_distinct(a: Seq<usize>)
    requires
        strictly_increasing(a),
    ensures
        a.no_duplicates(),
{
    assert forall|i: int, j: int| 0 <= i < a.len() && 0 <= j < a.len() && i != j implies a[i]
        != a[j] by {
        if i < j {
            assert(a[i] < a[j]);
        } else {
            assert(a[j] < a[i]);
        }
    }
}

/// Two lists of cells of the board, each ascending, that share no cell
/// make one such list when they are sorted together.
pub proof fn lemma_sorted_apart(a: Seq<usize>, b: Seq<usize>)
    requires
        cells_wf(a),
        cells_wf(b),
        !overlap(a, b),
    ensures
        cells_wf(sorted(a + b)),
{
    let t = a + b;
    assert forall|i: int, j: int| 0 <= i < t.len() && 0 <= j < t.len() && i != j implies t[i]
        != t[j] by {
        let lo = if i < j { i } else { j };
        let hi = if i < j { j } else { i };
        if hi < a.len() {
            assert(a[lo] < a[hi]);
        } else if lo >= a.len() {
            assert(b[lo - a.len()] < b[hi - a.len()]);
        } else {
            assert(a.contains(a[lo]));
            assert(b.contains(b[hi - a.len()]));
        }
    }
    assert forall|i: int| 0 <= i < t.len() implies #[trigger] t[i] < 81 by {
        if i < a.len() {
            assert(a[i] < 81);
        } else {
            assert(b[i - a.len()] < 81);
        }
    }
    lemma_sorted_cells_wf(t);
}

/// What a pass over the cages has found for a parent cage: the cells that
/// are left of it with the sum they must have, and the cells of the cages
/// across the border of what is left with the sum of their sums.
pub struct Survey {
    pub rest: Seq<usize>,
    pub rest_sum: int,
    pub across: Seq<usize>,
    pub across_sum: int,
    /// No two of the cages across the border share a cell.
    pub apart: bool,
}

/// What the pass has found after the first `n` cages. A cage of fewer than
/// nine cells that lies within what is left is taken out of it; one that
/// holds some of what is left, and more, is added to those across the border.
pub open spec fn survey(cages: Seq<CageView>, parent: int, n: int) -> Survey
    decreases n,
{
    if n <= 0 {
        Survey {
            rest: cages[parent].cells,
            rest_sum: cages[parent].sum,
            across: Seq::empty(),
            across_sum: 0,
            apart: true,
        }
    } else {
        let s = survey(cages, parent, n - 1);
        let child = cages[n - 1];
        if child.cells.len() >= 9 {
            s
        } else if inside(child.cells, s.rest) {
            Survey { rest: minus(s.rest, child.cells), rest_sum: s.rest_sum - child.sum, ..s }
        } else if overlap(child.cells, s.rest) {
            Survey {
                across: sorted(s.across + child.cells),
                across_sum: s.across_sum + child.sum,
                apart: s.apart && !overlap(s.across, child.cells),
                ..s
            }
        } else {
            s
        }
    }
}

/// The cage of what is left, where that is from one to eight cells.
pub open spec fn remainder(s: Survey) -> Seq<CageView> {
    if 0 < s.rest.len() <= MAX_DERIVED_CAGE_SIZE {
        seq![CageView { cells: s.rest, sum: s.rest_sum, uniqueness: true }]
    } else {
        Seq::empty()
    }
}

/// The cage of what the cages across the border hold beyond what is left,
/// where they share no cell, cover what is left, and hold from one to four
/// cells more.
pub open spec fn beyond(s: Survey) -> Seq<CageView> {
    let cells = minus(s.across, s.rest);
    if s.apart && s.across_sum <= usize::MAX && inside(s.rest, s.across) && 0 < cells.len()
        <= MAX_EXCESS_CAGE_SIZE && s.rest_sum <= s.across_sum {
        seq![CageView { cells, sum: s.across_sum - s.rest_sum, uniqueness: false }]
    } else {
        Seq::empty()
    }
}

/// The cages that follow from the cage at `parent` and the smaller cages:
/// none where the parent's digits need not be distinct or the sums of the
/// cages within it are more than its own.
pub open spec fn derived(cages: Seq<CageView>, parent: int) -> Seq<CageView> {
    let s = survey(cages, parent, cages.len() as int);
    if !cages[parent].uniqueness || s.rest_sum < 0 {
        Seq::empty()
    } else {
        beyond(s) + remainder(s)
    }
}

/// The cages that follow from those of the first `n` cages that have nine cells.
pub open spec fn derived_all(cages: Seq<CageView>, n: int) -> Seq<CageView>
    decreases n,
{
    if n <= 0 {
        Seq::empty()
    } else if cages[n - 1].cells.len() == 9 {
        derived_all(cages, n - 1) + derived(cages, n - 1)
    } else {
        derived_all(cages, n - 1)
    }
}

/// As the pass goes on, the sum of what is left does not grow, the sum of
/// the cages across the border does not shrink, and cages that shared a
/// cell still do.
pub proof fn lemma_survey_goes_on(cages: Seq<CageView>, parent: int, m: int, n: int)
    requires
        0 <= m <= n <= cages.len(),
        forall|i: int| 0 <= i < cages.len() ==> (#[trigger] cages[i]).sum >= 0,
    ensures
        survey(cages, parent, n).rest_sum <= survey(cages, parent, m).rest_sum,
        survey(cages, parent, n).across_sum >= survey(cages, parent, m).across_sum,
        survey(cages, parent, n).apart ==> survey(cages, parent, m).apart,
    decreases n - m,
{
    if m < n {
        lemma_survey_goes_on(cages, parent, m, n - 1);
        assert(cages[n - 1].sum >= 0);
    }
}

/// What is left of the parent after the first `n` cages: each cell of it
/// that one of those cages holds, a cage of fewer than nine cells, is among
/// the cells of the cages across the border.
proof fn lemma_survey_covers(cages: Seq<CageView>, parent: int, n: int)
    requires
        0 <= n <= cages.len(),
    ensures
        forall|x: usize, i: int|
            0 <= i < n && cages[i].cells.len() < 9 && (#[trigger] cages[i]).cells.contains(x)
                && #[trigger] survey(cages, parent, n).rest.contains(x) ==> survey(
                cages,
                parent,
                n,
            ).across.contains(x),
    decreases n,
{
    if n > 0 {
        lemma_survey_covers(cages, parent, n - 1);
        let s = survey(cages, parent, n - 1);
        let t = survey(cages, parent, n);
        let child = cages[n - 1];
        lemma_minus(s.rest, child.cells);
        lemma_sorted_members(s.across, child.cells);
        assert forall|x: usize, i: int|
            0 <= i < n && cages[i].cells.len() < 9 && (#[trigger] cages[i]).cells.contains(x)
                && #[trigger] t.rest.contains(x) implies t.across.contains(x) by {
            assert(s.rest.contains(x));
            if i < n - 1 {
                assert(s.across.contains(x));
            } else if !inside(child.cells, s.rest) {
                assert(overlap(child.cells, s.rest));
            }
        }
    }
}

/// Where every cell of the parent lies in some cage of fewer than nine
/// cells, the cages across the border cover what is left of the parent.
pub proof fn lemma_rest_covered(cages: Seq<CageView>, parent: int)
    requires
        0 <= parent < cages.len(),
        forall|x: usize| #[trigger]
            cages[parent].cells.contains(x) ==> exists|i: int|
                0 <= i < cages.len() && cages[i].cells.len() < 9 && (
                #[trigger] cages[i]).cells.contains(x),
    ensures
        inside(
            survey(cages, parent, cages.len() as int).rest,
            survey(cages, parent, cages.len() as int).across,
        ),
{
    let n = cages.len() as int;
    let s = survey(cages, parent, n);
    lemma_survey_covers(cages, parent, n);
    lemma_rest_within(cages, parent, n);
    assert forall|x: usize| s.rest.contains(x) implies s.across.contains(x) by {
        assert(cages[parent].cells.contains(x));
        let i = choose|i: int|
            0 <= i < cages.len() && cages[i].cells.len() < 9
                && (#[trigger] cages[i]).cells.contains(x);
        assert(cages[i].cells.contains(x) && survey(cages, parent, n).rest.contains(x));
    }
}

/// What is left of the parent is a part of it.
pub proof fn lemma_rest_within(cages: Seq<CageView>, parent: int, n: int)
    ensures
        inside(survey(cages, parent, n).rest, cages[parent].cells),
    decreases n,
{
    if n > 0 {
        lemma_rest_within(cages, parent, n - 1);
        lemma_minus(survey(cages, parent, n - 1).rest, cages[n - 1].cells);
    }
}

/// The number of those of the first `n` cages that hold the cell.
pub open spec fn occurrences(cages: Seq<CageView>, n: int, cell: usize) -> int
    decreases n,
{
    if n <= 0 {
        0
    } else {
        occurrences(cages, n - 1, cell) + if cages[n - 1].cells.contains(cell) {
            1int
        } else {
            0int
        }
    }
}

/// Every cell of the board lies in `expected` of the cages.
pub open spec fn balanced(cages: Seq<CageView>, expected: int) -> bool {
    forall|i: int|
        0 <= i < 81 ==> #[trigger] occurrences(cages, cages.len() as int, i as usize) == expected
}

/// For each cell of the board, the number of cages that hold it.
pub fn count_occurrences(list: &Vec<Cage>) -> (r: Vec<usize>)
    requires
        cages_wf(views(list@)),
    ensures
        r@.len() == 81,
        forall|i: int|
            0 <= i < 81 ==> #[trigger] r@[i] == occurrences(
                views(list@),
                list@.len() as int,
                i as usize,
            ),
{
    let ghost cages = views(list@);
    let mut sums: Vec<usize> = Vec::new();
    let mut i: usize = 0;
    while i < 81
        invariant
            0 <= i <= 81,
            sums@.len() == i,
            forall|j: int| 0 <= j < i ==> #[trigger] sums@[j] == 0,
        decreases 81 - i,
    {
        sums.push(0);
        i += 1;
    }
    let mut c: usize = 0;
    while c < list.len()
        invariant
            0 <= c <= list.len(),
            cages == views(list@),
            cages_wf(cages),
            sums@.len() == 81,
            forall|j: int|
                0 <= j < 81 ==> #[trigger] sums@[j] == occurrences(cages, c as int, j as usize),
            forall|j: int| 0 <= j < 81 ==> #[trigger] sums@[j] <= c,
        decreases list.len() - c,
    {
        let cage = &list[c];
        assert(cage@ == cages[c as int]);
        assert(cage@.wf());
        let ghost before = sums@;
        let mut k: usize = 0;
        while k < cage.cells.len()
            invariant
                0 <= k <= cage.cells.len(),
                cage@.wf(),
                c < list.len(),
                sums@.len() == 81,
                forall|j: int| 0 <= j < 81 ==> #[trigger] before[j] <= c,
                forall|j: int|
                    0 <= j < 81 ==> #[trigger] sums@[j] == before[j] + if in_prefix(
                        cage@.cells,
                        k as int,
                        j as usize,
                    ) {
                        1int
                    } else {
                        0int
                    },
            decreases cage.cells.len() - k,
        {
            let cell: usize = cage.cells[k];
            proof {
                if in_prefix(cage@.cells, k as int, cell) {
                    let p = choose|p: int| 0 <= p < k && cage@.cells[p] == cell;
                    assert(cage@.cells[p] < cage@.cells[k as int]);
                }
            }
            let ghost prev = sums@;
            sums.set(cell, sums[cell] + 1);
            proof {
                assert forall|j: int| 0 <= j < 81 implies #[trigger] sums@[j] == before[j]
                    + if in_prefix(cage@.cells, k + 1, j as usize) {
                    1int
                } else {
                    0int
                } by {
                    if in_prefix(cage@.cells, k as int, j as usize) {
                        let p = choose|p: int| 0 <= p < k && cage@.cells[p] == j as usize;
                        assert(0 <= p < k + 1 && cage@.cells[p] == j as usize);
                    }
                    if in_prefix(cage@.cells, k + 1, j as usize) {
                        let p = choose|p: int| 0 <= p < k + 1 && cage@.cells[p] == j as usize;
                        if p < k {
                            assert(in_prefix(cage@.cells, k as int, j as usize));
                        }
                    }
                    if j == cell {
                        assert(0 <= k < k + 1 && cage@.cells[k as int] == j as usize);
                    }
                }
            }
            k += 1;
        }
        proof {
            assert forall|j: int| 0 <= j < 81 implies #[trigger] sums@[j] == occurrences(
                cages,
                c + 1,
                j as usize,
            ) by {
                assert(in_prefix(cage@.cells, cage@.cells.len() as int, j as usize)
                    == cage@.cells.contains(j as usize));
            }
        }
        c += 1;
    }
    sums
}

/// The cells that do not lie in `expected` of the cages, each with the
/// number of cages that hold it, in ascending order.
pub fn unbalanced_cells(list: &Vec<Cage>, expected: usize) -> (r: Vec<(usize, usize)>)
    requires
        cages_wf(views(list@)),
    ensures
        forall|k: int|
            0 <= k < r@.len() ==> (#[trigger] r@[k]).0 < 81 && r@[k].1 == occurrences(
                views(list@),
                list@.len() as int,
                r@[k].0,
            ) && r@[k].1 != expected,
        forall|j: int, k: int| 0 <= j < k < r@.len() ==> (#[trigger] r@[j]).0 < (
            #[trigger] r@[k]).0,
        forall|i: int|
            0 <= i < 81 && #[trigger] occurrences(views(list@), list@.len() as int, i as usize)
                != expected ==> exists|k: int| 0 <= k < r@.len() && (#[trigger] r@[k]).0 == i,
        r@.len() == 0 <==> balanced(views(list@), expected as int),
{
    let ghost cages = views(list@);
    let sums = count_occurrences(list);
    let mut out: Vec<(usize, usize)> = Vec::new();
    let mut i: usize = 0;
    while i < 81
        invariant
            0 <= i <= 81,
            sums@.len() == 81,
            cages == views(list@),
            forall|j: int|
                0 <= j < 81 ==> #[trigger] sums@[j] == occurrences(
                    cages,
                    cages.len() as int,
                    j as usize,
                ),
            forall|k: int|
                0 <= k < out@.len() ==> (#[trigger] out@[k]).0 < i && out@[k].1 == occurrences(
                    cages,
                    cages.len() as int,
                    out@[k].0,
                ) && out@[k].1 != expected,
            forall|j: int, k: int|
                0 <= j < k < out@.len() ==> (#[trigger] out@[j]).0 < (#[trigger] out@[k]).0,
            forall|x: int|
                0 <= x < i && #[trigger] occurrences(cages, cages.len() as int, x as usize)
                    != expected ==> exists|k: int|
                    0 <= k < out@.len() && (#[trigger] out@[k]).0 == x,
            out@.len() == 0 <==> forall|x: int|
                0 <= x < i ==> #[trigger] occurrences(cages, cages.len() as int, x as usize)
                    == expected,
        decreases 81 - i,
    {
        let ghost before = out@;
        if sums[i] != expected {
            out.push((i, sums[i]));
            proof {
                assert(sums@[i as int] == occurrences(cages, cages.len() as int, i as usize));
                assert forall|x: int|
                    0 <= x < i + 1 && #[trigger] occurrences(
                        cages,
                        cages.len() as int,
                        x as usize,
                    ) != expected implies exists|k: int|
                    0 <= k < out@.len() && (#[trigger] out@[k]).0 == x by {
                    if x < i {
                        let k = choose|k: int| 0 <= k < before.len() && (
                            #[trigger] before[k]).0 == x;
                        assert(out@[k].0 == x);
                    } else {
                        assert(out@[before.len() as int].0 == x);
                    }
                }
            }
        } else {
            proof {
                assert(sums@[i as int] == occurrences(cages, cages.len() as int, i as usize));
            }
        }
        i += 1;
    }
    proof {
        assert(cages.len() == list@.len());
        assert forall|i: int|
            0 <= i < 81 && #[trigger] occurrences(views(list@), list@.len() as int, i as usize)
                != expected implies exists|k: int|
            0 <= k < out@.len() && (#[trigger] out@[k]).0 == i by {
            assert(occurrences(cages, cages.len() as int, i as usize) != expected);
        }
    }
    out
}

/// Whether a list holds nothing says whether one list lies within another,
/// where the first holds what the one has beyond the other.
proof fn lemma_none_beyond(a: Seq<usize>, b: Seq<usize>, beyond: Seq<usize>)
    requires
        forall|x: usize| beyond.contains(x) <==> a.contains(x) && !b.contains(x),
    ensures
        beyond.len() == 0 <==> inside(a, b),
{
    if beyond.len() > 0 {
        assert(beyond.contains(beyond[0]));
    }
    if !inside(a, b) {
        let x = choose|x: usize| a.contains(x) && !b.contains(x);
        assert(beyond.contains(x));
    }
}

/// Whether a list holds something says whether two lists share a cell,
/// where the first holds what they share.
proof fn lemma_some_shared(a: Seq<usize>, b: Seq<usize>, shared: Seq<usize>)
    requires
        forall|x: usize| shared.contains(x) <==> a.contains(x) && b.contains(x),
    ensures
        shared.len() > 0 <==> overlap(a, b),
{
    if shared.len() > 0 {
        assert(shared.contains(shared[0]));
    }
    if overlap(a, b) {
        let x = choose|x: usize| a.contains(x) && b.contains(x);
        assert(shared.contains(x));
    }
}

/// The cages that follow from the cage at `index` and the cages of fewer
/// than nine cells, which are gone through in the order of the list. One
/// that lies within what is left of the parent is taken out of it, with its
/// sum. One that holds some of what is left, and more, counts as across the
/// border. First comes the cage of what the cages across the border hold
/// beyond what is left, without uniqueness: it is there where those cages
/// share no cell, cover what is left and hold from one to four cells more.
/// Then comes the cage of what is left, with distinct digits, where that is
/// from one to eight cells. There is none where the parent's digits need
/// not be distinct, or where the cages within it ask for more than its sum.
pub fn derive_from_parent(list: &Vec<Cage>, index: usize) -> (out: Vec<Cage>)
    requires
        cages_wf(views(list@)),
        index < list.len(),
    ensures
        views(out@) == derived(views(list@), index as int),
        forall|k: int|
            0 <= k < out@.len() ==> (#[trigger] out@[k])@.wf() && follows_from(
                views(list@),
                out@[k]@,
            ),
{
    let ghost base = views(list@);
    let ghost at = index as int;
    let mut out: Vec<Cage> = Vec::new();
    if !list[index].uniqueness {
        assert(views(out@) =~= derived(base, at));
        return out;
    }
    let mut parent = list[index].duplicate();
    let mut excess = Cage::empty();
    let mut excess_ok = true;
    proof {
        assert(parent@ == base[at]);
        assert(base[at].wf());
        assert forall|g: Seq<int>| is_grid(g) && #[trigger] meets_all(base, g) implies member_sum(
            g,
            excess@.cells,
            81,
        ) == 0 by {
            lemma_member_sum_none(g, excess@.cells, 81);
        }
        assert(excess@.cells =~= Seq::<usize>::empty());
    }
    let mut c: usize = 0;
    while c < list.len()
        invariant
            0 <= c <= list.len(),
            base == views(list@),
            at == index,
            index < list.len(),
            cages_wf(base),
            forall|i: int| 0 <= i < base.len() ==> (#[trigger] base[i]).sum >= 0,
            base[at].uniqueness,
            parent@.wf(),
            parent@.uniqueness,
            follows_from(base, parent@),
            parent@.cells == survey(base, at, c as int).rest,
            parent@.sum == survey(base, at, c as int).rest_sum,
            excess_ok ==> excess@.wf() && sum_follows(base, excess@.cells, excess@.sum),
            excess_ok ==> excess@.cells == survey(base, at, c as int).across && excess@.sum
                == survey(base, at, c as int).across_sum && survey(base, at, c as int).apart,
            !excess_ok ==> !survey(base, at, c as int).apart || survey(
                base,
                at,
                c as int,
            ).across_sum > usize::MAX,
            out@.len() == 0,
        decreases list.len() - c,
    {
        let child = &list[c];
        let ghost before = survey(base, at, c as int);
        let ghost after = survey(base, at, c + 1);
        proof {
            assert(child@ == base[c as int]);
            assert(child@.wf());
            assert(child@.sum >= 0);
        }
        if child.cells.len() < 9 {
            let parts = parent.get_intersection_and_difference(child);
            let ghost old_parent = parent@;
            proof {
                lemma_none_beyond(child@.cells, old_parent.cells, parts.2@);
                lemma_some_shared(old_parent.cells, child@.cells, parts.0@);
                assert(overlap(child@.cells, old_parent.cells) == overlap(
                    old_parent.cells,
                    child@.cells,
                )) by {
                    if overlap(child@.cells, old_parent.cells) {
                        let x = choose|x: usize|
                            child@.cells.contains(x) && old_parent.cells.contains(x);
                        assert(old_parent.cells.contains(x) && child@.cells.contains(x));
                    }
                    if overlap(old_parent.cells, child@.cells) {
                        let x = choose|x: usize|
                            old_parent.cells.contains(x) && child@.cells.contains(x);
                        assert(child@.cells.contains(x) && old_parent.cells.contains(x));
                    }
                }
            }
            if parts.2.len() == 0 {
                if child.sum > parent.sum {
                    proof {
                        assert(after.rest_sum < 0);
                        lemma_survey_goes_on(base, at, c + 1, base.len() as int);
                        assert(views(out@) =~= derived(base, at));
                    }
                    return out;
                }
                let rest_sum: usize = parent.sum - child.sum;
                proof {
                    assert(cells_wf(parts.1@)) by {
                        assert forall|i: int| 0 <= i < parts.1@.len() implies #[trigger] parts.1@[i]
                            < 81 by {
                            assert(parts.1@.contains(parts.1@[i]));
                            let p = choose|p: int|
                                0 <= p < old_parent.cells.len() && old_parent.cells[p]
                                    == parts.1@[i];
                        }
                    }
                    lemma_sorted_already(parts.1@);
                    lemma_wf_distinct(parts.1@);
                    lemma_minus(old_parent.cells, child@.cells);
                    lemma_increasing_same(parts.1@, minus(old_parent.cells, child@.cells));
                }
                parent = Cage::new(parts.1, rest_sum, true);
                proof {
                    assert forall|g: Seq<int>|
                        is_grid(g) && #[trigger] meets_all(base, g) implies parent@.satisfied_by(
                        g,
                    ) by {
                        assert(base[c as int].satisfied_by(g));
                        lemma_residual(old_parent, child@, parent@, g);
                    }
                    assert(after.rest == parent@.cells);
                }
            } else if parts.0.len() > 0 {
                if excess_ok {
                    match excess.sum.checked_add(child.sum) {
                        Some(_) => {
                            let ghost old_excess = excess@;
                            excess = excess.merge(child);
                            if !excess.is_well_formed() {
                                proof {
                                    if !overlap(old_excess.cells, child@.cells) {
                                        lemma_sorted_apart(old_excess.cells, child@.cells);
                                    }
                                }
                                excess_ok = false;
                            } else {
                                proof {
                                    lemma_sorted_members(old_excess.cells, child@.cells);
                                    assert(!overlap(old_excess.cells, child@.cells));
                                    assert forall|g: Seq<int>|
                                        is_grid(g) && #[trigger] meets_all(
                                            base,
                                            g,
                                        ) implies member_sum(g, excess@.cells, 81)
                                        == excess@.sum by {
                                        assert(base[c as int].satisfied_by(g));
                                        lemma_cage_member_sum(child@, g);
                                        lemma_member_sum_split(
                                            g,
                                            excess@.cells,
                                            old_excess.cells,
                                            child@.cells,
                                            81,
                                        );
                                    }
                                }
                            }
                        },
                        None => {
                            excess_ok = false;
                        },
                    }
                }
            }
        }
        c += 1;
    }
    let ghost found = survey(base, at, base.len() as int);
    if excess_ok {
        let parts = excess.get_intersection_and_difference(&parent);
        proof {
            lemma_none_beyond(parent@.cells, excess@.cells, parts.2@);
            lemma_minus(excess@.cells, parent@.cells);
            lemma_increasing_same(parts.1@, minus(excess@.cells, parent@.cells));
        }
        if parts.2.len() == 0 && 0 < parts.1.len() && parts.1.len() <= MAX_EXCESS_CAGE_SIZE
            && parent.sum <= excess.sum {
            let beyond = Cage { cells: parts.1, sum: excess.sum - parent.sum, uniqueness: false };
            proof {
                assert(cells_wf(beyond@.cells)) by {
                    assert forall|i: int|
                        0 <= i < beyond@.cells.len() implies #[trigger] beyond@.cells[i]
                        < 81 by {
                        assert(beyond@.cells.contains(beyond@.cells[i]));
                        let p = choose|p: int|
                            0 <= p < excess@.cells.len() && excess@.cells[p] == beyond@.cells[i];
                    }
                }
                assert forall|g: Seq<int>|
                    is_grid(g) && #[trigger] meets_all(base, g) implies beyond@.satisfied_by(g) by {
                    assert(parent@.satisfied_by(g));
                    lemma_cage_member_sum(parent@, g);
                    assert forall|x: usize|
                        excess@.cells.contains(x) <==> beyond@.cells.contains(x)
                            || parent@.cells.contains(x) by {
                        if parent@.cells.contains(x) && !excess@.cells.contains(x) {
                            assert(parts.2@.contains(x));
                        }
                    }
                    lemma_member_sum_split(g, excess@.cells, beyond@.cells, parent@.cells, 81);
                    lemma_cells_sum_members(g, beyond@.cells, beyond@.cells.len() as int);
                    assert(beyond@.cells.take(beyond@.cells.len() as int) =~= beyond@.cells);
                }
            }
            out.push(beyond);
        }
    }
    assert(views(out@) =~= self::beyond(found));
    if 0 < parent.cells.len() && parent.cells.len() <= MAX_DERIVED_CAGE_SIZE {
        let ghost before = out@;
        out.push(parent);
        proof {
            assert forall|k: int| 0 <= k < out@.len() implies (#[trigger] out@[k])@.wf()
                && follows_from(base, out@[k]@) by {
                if k < before.len() {
                    assert(out@[k] == before[k]);
                }
            }
            assert(views(out@) =~= views(before) + remainder(found));
        }
    }
    assert(views(out@) =~= derived(base, at));
    out
}

/// The cages that follow from the cages of nine cells and the smaller
/// cages: for each cage of nine cells in turn, what follows from it.
pub fn derive_cages(list: &Vec<Cage>) -> (out: Vec<Cage>)
    requires
        cages_wf(views(list@)),
    ensures
        views(out@) == derived_all(views(list@), list@.len() as int),
        forall|k: int|
            0 <= k < out@.len() ==> (#[trigger] out@[k])@.wf() && follows_from(
                views(list@),
                out@[k]@,
            ),
{
    let mut out: Vec<Cage> = Vec::new();
    let mut p: usize = 0;
    assert(views(out@) =~= derived_all(views(list@), 0));
    while p < list.len()
        invariant
            0 <= p <= list.len(),
            cages_wf(views(list@)),
            views(out@) == derived_all(views(list@), p as int),
            forall|k: int|
                0 <= k < out@.len() ==> (#[trigger] out@[k])@.wf() && follows_from(
                    views(list@),
                    out@[k]@,
                ),
        decreases list.len() - p,
    {
        assert(views(list@)[p as int] == list@[p as int]@);
        if list[p].cells.len() == 9 {
            let mut found = derive_from_parent(list, p);
            let ghost before = out@;
            let ghost added = found@;
            out.append(&mut found);
            proof {
                assert forall|k: int| 0 <= k < out@.len() implies (#[trigger] out@[k])@.wf()
                    && follows_from(views(list@), out@[k]@) by {
                    if k < before.len() {
                        assert(out@[k] == before[k]);
                    } else {
                        assert(out@[k] == added[k - before.len()]);
                    }
                }
                assert(views(out@) =~= views(before) + views(added));
            }
        }
        p += 1;
    }
    out
}

} // verus!
