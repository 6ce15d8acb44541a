//! Drawing a written puzzle: which cage each cell belongs to, a colour for
//! each cage that differs from those of the cages around it, where the sum of
//! each cage is printed, and the picture made of all that.

use crate::cage::copy_indices;
use crate::error::SolveError;
use crate::index_set::set_insert;
use crate::io::{SerializableCage, SerializablePuzzle};
use crate::util::strictly_increasing;
use vstd::prelude::*;

verus! {

/// The side of a cell in the picture.
pub const CELL_SIZE: u32 = 100;

/// The space around the grid.
pub const MARGIN: u32 = 80;

/// The height of the space above the grid, which holds the title.
pub const HEADER_HEIGHT: u32 = 160;

/// The width of the picture.
pub const TOTAL_WIDTH: u32 = CELL_SIZE * 9 + MARGIN * 2;

/// The height of the picture.
pub const TOTAL_HEIGHT: u32 = CELL_SIZE * 9 + HEADER_HEIGHT + MARGIN;

/// The number of colours of the palette.
pub const NUM_COLORS: usize = 9;

/// The cell `cell` is at the place `p` of the cage `k`.
pub open spec fn holds_at(cages: Seq<SerializableCage>, k: int, p: int, cell: usize) -> bool {
    0 <= k < cages.len() && 0 <= p < cages[k].cell_indices@.len() && cages[k].cell_indices@[p]
        == cell
}

/// Some cage holds the cell.
pub open spec fn covered(cages: Seq<SerializableCage>, cell: usize) -> bool {
    exists|k: int, p: int| holds_at(cages, k, p, cell)
}

/// The cages share out the board: each names cells of the board only, and
/// at least one; and each cell of the board is named once and no more.
pub open spec fn is_partition(cages: Seq<SerializableCage>) -> bool {
    &&& forall|k: int| 0 <= k < cages.len() ==> (#[trigger] cages[k]).cell_indices@.len() >= 1
    &&& forall|k: int, p: int|
        0 <= k < cages.len() && 0 <= p < cages[k].cell_indices@.len()
            ==> #[trigger] cages[k].cell_indices@[p] < 81
    &&& forall|c: usize| c < 81 ==> #[trigger] covered(cages, c)
    &&& forall|j: int, p: int, k: int, q: int, c: usize|
        #[trigger] holds_at(cages, j, p, c) && #[trigger] holds_at(cages, k, q, c) ==> j == k && p
            == q
}

/// The place `(k, p)` comes before the place `(i, q)`.
pub open spec fn place_before(k: int, p: int, i: int, q: int) -> bool {
    k < i || (k == i && p < q)
}

/// The number of cells among the first `n` that have an owner below `none`.
pub open spec fn count_owned(owner: Seq<usize>, none: usize, n: int) -> int
    decreases n,
{
    if n <= 0 {
        0
    } else {
        count_owned(owner, none, n - 1) + if owner[n - 1] != none { 1int } else { 0int }
    }
}

proof fn lemma_count_owned_update(owner: Seq<usize>, none: usize, n: int, cell: int, k: usize)
    requires
        0 <= n <= owner.len(),
        0 <= cell < owner.len(),
        owner[cell] == none,
        k != none,
    ensures
        count_owned(owner.update(cell, k), none, n) == count_owned(owner, none, n) + if cell < n {
            1int
        } else {
            0int
        },
        0 <= count_owned(owner, none, n) <= n,
    decreases n,
{
    if n > 0 {
        lemma_count_owned_update(owner, none, n - 1, cell, k);
    }
}

/// For each cell of the board the cage that holds it; nothing where the
/// cages do not share out the board.
pub fn cage_of_cells(cages: &Vec<SerializableCage>) -> (r: Option<Vec<usize>>)
    ensures
        r is Some <==> is_partition(cages@),
        r matches Some(owner) ==> owner@.len() == 81 && cages@.len() <= 81 && total_cells(
            cages@,
            cages@.len() as int,
        ) <= 81 && forall|c: int|
            0 <= c < 81 ==> #[trigger] owner@[c] < cages@.len() && owns(
                cages@,
                owner@[c] as int,
                c as usize,
            ),
{
    let none: usize = cages.len();
    let mut owner: Vec<usize> = Vec::new();
    let mut c: usize = 0;
    while c < 81
        invariant
            0 <= c <= 81,
            owner@.len() == c,
            forall|j: int| 0 <= j < c ==> #[trigger] owner@[j] == none,
        decreases 81 - c,
    {
        owner.push(none);
        c += 1;
    }
    proof {
        lemma_count_none(owner@, none, 81);
    }
    let mut k: usize = 0;
    while k < cages.len()
        invariant
            0 <= k <= cages.len(),
            none == cages.len(),
            owner@.len() == 81,
            k <= count_owned(owner@, none, 81) <= 81,
            total_cells(cages@, k as int) == count_owned(owner@, none, 81),
            forall|j: int| 0 <= j < k ==> (#[trigger] cages@[j]).cell_indices@.len() >= 1,
            forall|j: int, p: int|
                0 <= j < k && 0 <= p < cages@[j].cell_indices@.len()
                    ==> #[trigger] cages@[j].cell_indices@[p] < 81,
            forall|x: int|
                0 <= x < 81 && #[trigger] owner@[x] != none ==> owner@[x] < k && owns(
                    cages@,
                    owner@[x] as int,
                    x as usize,
                ),
            forall|j: int, p: int, x: usize|
                j < k && #[trigger] holds_at(cages@, j, p, x) ==> x < 81 && owner@[x as int] == j,
            forall|j: int, p: int, i: int, q: int, x: usize|
                j < k && i < k && #[trigger] holds_at(cages@, j, p, x) && #[trigger] holds_at(
                    cages@,
                    i,
                    q,
                    x,
                ) ==> j == i && p == q,
        decreases cages.len() - k,
    {
        let cells = &cages[k].cell_indices;
        if cells.len() == 0 {
            proof {
                assert(!is_partition(cages@));
            }
            return None;
        }
        let mut p: usize = 0;
        while p < cells.len()
            invariant
                0 <= p <= cells.len(),
                k < cages.len(),
                none == cages.len(),
                cells@ == cages@[k as int].cell_indices@,
                owner@.len() == 81,
                k + (if p > 0 { 1int } else { 0int }) <= count_owned(owner@, none, 81) <= 81,
                total_cells(cages@, k as int) + p == count_owned(owner@, none, 81),
                forall|q: int| 0 <= q < p ==> #[trigger] cells@[q] < 81,
                forall|x: int|
                    0 <= x < 81 && #[trigger] owner@[x] != none ==> owner@[x] <= k && owns(
                        cages@,
                        owner@[x] as int,
                        x as usize,
                    ),
                forall|x: int|
                    0 <= x < 81 && #[trigger] owner@[x] == k ==> crate::cage::in_prefix(
                        cells@,
                        p as int,
                        x as usize,
                    ),
                forall|j: int, q: int, x: usize|
                    place_before(j, q, k as int, p as int) && #[trigger] holds_at(cages@, j, q, x)
                        ==> x < 81 && owner@[x as int] == j,
                forall|j: int, q: int, i: int, t: int, x: usize|
                    place_before(j, q, k as int, p as int) && place_before(i, t, k as int, p as int)
                        && #[trigger] holds_at(cages@, j, q, x) && #[trigger] holds_at(
                        cages@,
                        i,
                        t,
                        x,
                    ) ==> j == i && q == t,
            decreases cells.len() - p,
        {
            let cell: usize = cells[p];
            assert(holds_at(cages@, k as int, p as int, cell));
            if cell >= 81 {
                proof {
                    assert(!is_partition(cages@));
                }
                return None;
            }
            if owner[cell] != none {
                proof {
                    let j = owner@[cell as int] as int;
                    if is_partition(cages@) {
                        if j == k {
                            assert(crate::cage::in_prefix(cells@, p as int, cell));
                            let q = choose|q: int| 0 <= q < p && cells@[q] == cell;
                            assert(holds_at(cages@, k as int, q, cell) && holds_at(
                                cages@,
                                k as int,
                                p as int,
                                cell,
                            ));
                        } else {
                            assert(owns(cages@, j, cell));
                            let q = choose|q: int| holds_at(cages@, j, q, cell);
                            assert(holds_at(cages@, j, q, cell) && holds_at(
                                cages@,
                                k as int,
                                p as int,
                                cell,
                            ));
                        }
                    }
                }
                return None;
            }
            let ghost before = owner@;
            owner.set(cell, k);
            proof {
                lemma_count_owned_update(before, none, 81, cell as int, k);
                lemma_count_bound(owner@, none, 81);
                assert(owner@ == before.update(cell as int, k));
                assert(owns(cages@, k as int, cell));
                assert forall|x: int|
                    0 <= x < 81 && #[trigger] owner@[x] == k implies crate::cage::in_prefix(
                    cells@,
                    p + 1,
                    x as usize,
                ) by {
                    if x == cell {
                        assert(0 <= p < p + 1 && cells@[p as int] == x as usize);
                    } else {
                        assert(crate::cage::in_prefix(cells@, p as int, x as usize));
                        let q = choose|q: int| 0 <= q < p && cells@[q] == x as usize;
                        assert(0 <= q < p + 1 && cells@[q] == x as usize);
                    }
                }
                assert forall|j: int, q: int, x: usize|
                    place_before(j, q, k as int, p + 1) && #[trigger] holds_at(
                        cages@,
                        j,
                        q,
                        x,
                    ) implies x < 81 && owner@[x as int] == j by {
                    if place_before(j, q, k as int, p as int) {
                        assert(before[x as int] == j);
                    }
                }
                assert forall|j: int, q: int, i: int, t: int, x: usize|
                    place_before(j, q, k as int, p + 1) && place_before(i, t, k as int, p + 1)
                        && #[trigger] holds_at(cages@, j, q, x) && #[trigger] holds_at(
                        cages@,
                        i,
                        t,
                        x,
                    ) implies j == i && q == t by {
                    let first_new = j == k && q == p;
                    let second_new = i == k && t == p;
                    if first_new && !second_new {
                        assert(before[x as int] == i);
                    }
                    if second_new && !first_new {
                        assert(before[x as int] == j);
                    }
                }
            }
            p += 1;
        }
        k += 1;
    }
    let mut c: usize = 0;
    while c < 81
        invariant
            0 <= c <= 81,
            none == cages.len(),
            owner@.len() == 81,
            total_cells(cages@, cages@.len() as int) <= 81,
            cages@.len() <= 81,
            forall|x: int|
                0 <= x < 81 && #[trigger] owner@[x] != none ==> owner@[x] < cages@.len() && owns(
                    cages@,
                    owner@[x] as int,
                    x as usize,
                ),
            forall|x: int| 0 <= x < c ==> #[trigger] owner@[x] != none,
            forall|j: int, p: int, x: usize|
                j < cages@.len() && #[trigger] holds_at(cages@, j, p, x) ==> x < 81
                    && owner@[x as int]
                    == j,
        decreases 81 - c,
    {
        if owner[c] == none {
            proof {
                if covered(cages@, c) {
                    let (j, p) = choose|j: int, p: int| holds_at(cages@, j, p, c);
                }
            }
            return None;
        }
        c += 1;
    }
    proof {
        assert forall|x: usize| x < 81 implies #[trigger] covered(cages@, x) by {
            assert(owns(cages@, owner@[x as int] as int, x));
            let q = choose|q: int| holds_at(cages@, owner@[x as int] as int, q, x);
            assert(holds_at(cages@, owner@[x as int] as int, q, x));
        }
        assert forall|j: int, p: int|
            0 <= j < cages@.len() && 0 <= p < cages@[j].cell_indices@.len()
            implies #[trigger] cages@[j].cell_indices@[p] < 81 by {}
        assert(is_partition(cages@));
    }
    Some(owner)
}

/// The number of cells that the first `n` cages name, all told.
pub open spec fn total_cells(cages: Seq<SerializableCage>, n: int) -> int
    decreases n,
{
    if n <= 0 {
        0
    } else {
        total_cells(cages, n - 1) + cages[n - 1].cell_indices@.len()
    }
}

/// The cage `k` holds the cell.
pub open spec fn owns(cages: Seq<SerializableCage>, k: int, cell: usize) -> bool {
    exists|p: int| holds_at(cages, k, p, cell)
}

proof fn lemma_count_bound(owner: Seq<usize>, none: usize, n: int)
    requires
        0 <= n,
    ensures
        0 <= count_owned(owner, none, n) <= n,
    decreases n,
{
    if n > 0 {
        lemma_count_bound(owner, none, n - 1);
    }
}

proof fn lemma_count_none(owner: Seq<usize>, none: usize, n: int)
    requires
        0 <= n <= owner.len(),
        forall|j: int| 0 <= j < n ==> #[trigger] owner[j] == none,
    ensures
        count_owned(owner, none, n) == 0,
    decreases n,
{
    if n > 0 {
        lemma_count_none(owner, none, n - 1);
    }
}

/// The cells `a` and `b` of the board lie side by side or corner to corner.
pub open spec fn king(a: int, b: int) -> bool {
    &&& 0 <= a < 81
    &&& 0 <= b < 81
    &&& a != b
    &&& -1 <= a / 9 - b / 9 <= 1
    &&& -1 <= a % 9 - b % 9 <= 1
}

/// Some cell of the cage `i` lies next to some cell of the cage `x`, among
/// the pairs of cells before the pair `(a, b)`.
pub open spec fn touches_before(owner: Seq<usize>, i: int, x: int, a: int, b: int) -> bool {
    exists|c: int, d: int|
        place_before(c, d, a, b) && #[trigger] king(c, d) && owner[c] == i && owner[d] == x
}

/// Some cell of the cage `i` lies next to some cell of another cage `x`.
pub open spec fn touches(owner: Seq<usize>, i: int, x: int) -> bool {
    i != x && touches_before(owner, i, x, 81, 0)
}

/// Whether the cells lie side by side or corner to corner.
pub fn is_king_move(a: usize, b: usize) -> (r: bool)
    requires
        a < 81,
        b < 81,
    ensures
        r == king(a as int, b as int),
{
    let row_a: usize = a / 9;
    let row_b: usize = b / 9;
    let col_a: usize = a % 9;
    let col_b: usize = b % 9;
    a != b && row_a <= row_b + 1 && row_b <= row_a + 1 && col_a <= col_b + 1 && col_b <= col_a + 1
}

/// The lists are ascending, and the list of each cage holds the cages that
/// touch it, among the pairs of cells before `(a, b)`.
pub open spec fn near_ok(near: Seq<Vec<usize>>, owner: Seq<usize>, n: int, a: int, b: int) -> bool {
    &&& near.len() == n
    &&& forall|i: int| 0 <= i < n ==> strictly_increasing((#[trigger] near[i])@)
    &&& forall|i: int, x: usize|
        0 <= i < n ==> (#[trigger] near[i]@.contains(x) <==> x != i && touches_before(
            owner,
            i,
            x as int,
            a,
            b,
        ))
}

/// For each cage the cages that touch it, in ascending order.
pub fn interference(owner: &Vec<usize>, n: usize) -> (near: Vec<Vec<usize>>)
    requires
        owner@.len() == 81,
        forall|c: int| 0 <= c < 81 ==> #[trigger] owner@[c] < n,
    ensures
        near@.len() == n,
        forall|i: int| 0 <= i < n ==> strictly_increasing((#[trigger] near@[i])@),
        forall|i: int, x: usize|
            0 <= i < n ==> (#[trigger] near@[i]@.contains(x) <==> touches(owner@, i, x as int)),
{
    let mut near: Vec<Vec<usize>> = Vec::new();
    let mut i: usize = 0;
    while i < n
        invariant
            0 <= i <= n,
            near@.len() == i,
            forall|j: int| 0 <= j < i ==> (#[trigger] near@[j])@.len() == 0,
        decreases n - i,
    {
        near.push(Vec::new());
        i += 1;
    }
    assert(near_ok(near@, owner@, n as int, 0, 0)) by {
        assert forall|i: int, x: usize| 0 <= i < n implies (#[trigger] near@[i]@.contains(x)
            <==> x != i && touches_before(owner@, i, x as int, 0, 0)) by {
            assert(near@[i]@.len() == 0);
        }
    }
    let mut a: usize = 0;
    while a < 81
        invariant
            0 <= a <= 81,
            owner@.len() == 81,
            forall|c: int| 0 <= c < 81 ==> #[trigger] owner@[c] < n,
            near_ok(near@, owner@, n as int, a as int, 0),
        decreases 81 - a,
    {
        let mut b: usize = 0;
        while b < 81
            invariant
                0 <= b <= 81,
                a < 81,
                owner@.len() == 81,
                forall|c: int| 0 <= c < 81 ==> #[trigger] owner@[c] < n,
                near_ok(near@, owner@, n as int, a as int, b as int),
            decreases 81 - b,
        {
            let first: usize = owner[a];
            let second: usize = owner[b];
            let ghost before = near@;
            if is_king_move(a, b) && first != second {
                let mut list = copy_indices(&near[first]);
                set_insert(&mut list, second);
                near.set(first, list);
            }
            proof {
                assert forall|i: int, x: usize| 0 <= i < n implies (#[trigger] near@[i]@.contains(
                    x,
                ) <==> x != i && touches_before(owner@, i, x as int, a as int, b + 1)) by {
                    assert(before[i]@.contains(x) <==> x != i && touches_before(
                        owner@,
                        i,
                        x as int,
                        a as int,
                        b as int,
                    ));
                    if touches_before(owner@, i, x as int, a as int, b as int) {
                        let (c, d) = choose|c: int, d: int|
                            place_before(c, d, a as int, b as int) && #[trigger] king(c, d)
                                && owner@[c] == i && owner@[d] == x;
                        assert(place_before(c, d, a as int, b + 1) && king(c, d));
                    }
                    if touches_before(owner@, i, x as int, a as int, b + 1) {
                        let (c, d) = choose|c: int, d: int|
                            place_before(c, d, a as int, b + 1) && #[trigger] king(c, d)
                                && owner@[c] == i && owner@[d] == x;
                        if !(c == a && d == b) {
                            assert(place_before(c, d, a as int, b as int) && king(c, d));
                        }
                    }
                    if king(a as int, b as int) && first == i && second == x {
                        assert(place_before(a as int, b as int, a as int, b + 1) && king(
                            a as int,
                            b as int,
                        ));
                    }
                }
                assert forall|i: int| 0 <= i < n implies strictly_increasing(
                    (#[trigger] near@[i])@,
                ) by {
                    assert(strictly_increasing(before[i]@));
                }
            }
            b += 1;
        }
        proof {
            assert forall|i: int, x: usize| 0 <= i < n implies (#[trigger] near@[i]@.contains(x)
                <==> x != i && touches_before(owner@, i, x as int, a + 1, 0)) by {
                if touches_before(owner@, i, x as int, a as int, 81) {
                    let (c, d) = choose|c: int, d: int|
                        place_before(c, d, a as int, 81) && #[trigger] king(c, d) && owner@[c] == i
                            && owner@[d] == x;
                    assert(place_before(c, d, a + 1, 0) && king(c, d));
                }
                if touches_before(owner@, i, x as int, a + 1, 0) {
                    let (c, d) = choose|c: int, d: int|
                        place_before(c, d, a + 1, 0) && #[trigger] king(c, d) && owner@[c] == i
                            && owner@[d] == x;
                    assert(place_before(c, d, a as int, 81) && king(c, d));
                }
            }
        }
        a += 1;
    }
    near
}

/// Cages that touch are different cages, and each touches the other.
pub proof fn lemma_touches_both_ways(owner: Seq<usize>, i: int, x: int)
    requires
        touches(owner, i, x),
    ensures
        touches(owner, x, i),
{
    let (c, d) = choose|c: int, d: int|
        place_before(c, d, 81, 0) && #[trigger] king(c, d) && owner[c] == i && owner[d] == x;
    assert(place_before(d, c, 81, 0) && king(d, c));
}

/// No cage has the colour of a cage that touches it.
pub open spec fn proper(color: Seq<usize>, near: Seq<Vec<usize>>) -> bool {
    forall|i: int, k: int|
        0 <= i < near.len() && 0 <= k < near[i]@.len()
            ==> color[i] != color[#[trigger] near[i]@[k] as int]
}

/// The lists name cages only, none lists itself, and each is listed by those it lists.
pub open spec fn near_wf(near: Seq<Vec<usize>>) -> bool {
    &&& forall|i: int, k: int|
        0 <= i < near.len() && 0 <= k < near[i]@.len() ==> #[trigger] near[i]@[k] < near.len()
            && near[i]@[k] != i
    &&& forall|i: int, x: usize|
        0 <= i < near.len() && #[trigger] near[i]@.contains(x) ==> x < near.len()
            && near[x as int]@.contains(
            i as usize,
        )
}

/// The number of cells of those of the first `n` cages that have the colour `c`.
pub open spec fn pop_sum(color: Seq<usize>, sizes: Seq<usize>, c: int, n: int) -> int
    decreases n,
{
    if n <= 0 {
        0
    } else {
        pop_sum(color, sizes, c, n - 1) + if color[n - 1] == c { sizes[n - 1] as int } else { 0int }
    }
}

/// The number of cells of the first `n` cages.
pub open spec fn total_size(sizes: Seq<usize>, n: int) -> int
    decreases n,
{
    if n <= 0 {
        0
    } else {
        total_size(sizes, n - 1) + sizes[n - 1]
    }
}

proof fn lemma_pop_sum_bounds(color: Seq<usize>, sizes: Seq<usize>, c: int, n: int, i: int)
    requires
        0 <= n <= sizes.len(),
    ensures
        0 <= pop_sum(color, sizes, c, n) <= total_size(sizes, n),
        0 <= i < n && color[i] == c ==> sizes[i] <= pop_sum(color, sizes, c, n),
        0 <= i < n ==> sizes[i] <= total_size(sizes, n),
    decreases n,
{
    if n > 0 {
        lemma_pop_sum_bounds(color, sizes, c, n - 1, i);
    }
}

proof fn lemma_pop_sum_move(color: Seq<usize>, sizes: Seq<usize>, c: int, n: int, k: int,
    new: usize)
    requires
        0 <= n <= sizes.len(),
        sizes.len() == color.len(),
        0 <= k < color.len(),
    ensures
        pop_sum(color.update(k, new), sizes, c, n) == pop_sum(color, sizes, c, n) + (if k < n
            && new == c {
            sizes[k] as int
        } else {
            0int
        }) - (if k < n && color[k] == c {
            sizes[k] as int
        } else {
            0int
        }),
    decreases n,
{
    if n > 0 {
        lemma_pop_sum_move(color, sizes, c, n - 1, k, new);
    }
}

/// The number of colours below `c` that some cage has.
pub open spec fn rank_of(population: Seq<usize>, c: int) -> int
    decreases c,
{
    if c <= 0 {
        0
    } else {
        rank_of(population, c - 1) + if population[c - 1] > 0 { 1int } else { 0int }
    }
}

proof fn lemma_rank_grows(population: Seq<usize>, c: int, d: int)
    requires
        0 <= c <= d,
    ensures
        0 <= rank_of(population, c) <= rank_of(population, d) <= d,
        c < d && population[c] > 0 ==> rank_of(population, c) < rank_of(population, d),
    decreases d,
{
    if c < d {
        lemma_rank_grows(population, c, d - 1);
    } else {
        lemma_rank_nonnegative(population, c);
    }
}

proof fn lemma_rank_nonnegative(population: Seq<usize>, c: int)
    ensures
        0 <= rank_of(population, c),
        c >= 0 ==> rank_of(population, c) <= c,
    decreases c,
{
    if c > 0 {
        lemma_rank_nonnegative(population, c - 1);
    }
}

/// The most rounds in which the cages are gone through to spare colours.
pub const MAX_ROUNDS: usize = 1000;

/// The lists of the cages that touch each cage, apart from how they are stored.
pub open spec fn lists(near: Seq<Vec<usize>>) -> Seq<Seq<usize>> {
    Seq::new(near.len(), |i: int| near[i]@)
}

/// Some cage next to the cage `k` has the colour `c`.
pub open spec fn color_near(near: Seq<Seq<usize>>, color: Seq<usize>, k: int, c: int) -> bool {
    exists|p: int| 0 <= p < near[k].len() && color[#[trigger] near[k][p] as int] == c
}

/// For each colour the number of cells of the cages that have it.
pub open spec fn population_of(color: Seq<usize>, sizes: Seq<usize>) -> Seq<usize> {
    Seq::new(color.len(), |c: int| pop_sum(color, sizes, c, color.len() as int) as usize)
}

/// The colour that the cage `k` can take of those below `c`: another than
/// its own, one that some cage has and no cage next to it, with the fewest
/// cells, and of several such the least; the number of cages where there is none.
pub open spec fn spare_color(
    near: Seq<Seq<usize>>,
    sizes: Seq<usize>,
    color: Seq<usize>,
    k: int,
    c: int,
) -> int
    decreases c,
{
    let n = color.len() as int;
    let cells = population_of(color, sizes);
    if c <= 0 {
        n
    } else {
        let best = spare_color(near, sizes, color, k, c - 1);
        let x = c - 1;
        if x != color[k] && cells[x] > 0 && !color_near(near, color, k, x) && (best == n
            || cells[x] < cells[best]) {
            x
        } else {
            best
        }
    }
}

/// The colours after each of the first `k` cages has taken, in turn, the
/// colour that it can take, and whether one of them took one.
pub open spec fn recolored(near: Seq<Seq<usize>>, sizes: Seq<usize>, color: Seq<usize>, k: int) -> (
    Seq<usize>,
    bool,
)
    decreases k,
{
    if k <= 0 {
        (color, false)
    } else {
        let before = recolored(near, sizes, color, k - 1);
        let best = spare_color(near, sizes, before.0, k - 1, color.len() as int);
        if best < color.len() {
            (before.0.update(k - 1, best as usize), true)
        } else {
            before
        }
    }
}

/// The colours after the rounds from `rounds` on: the cages take colours
/// round by round, for as long as one took a colour in the round before,
/// more than nine colours are left and the rounds are not used up.
pub open spec fn spared(
    near: Seq<Seq<usize>>,
    sizes: Seq<usize>,
    color: Seq<usize>,
    rounds: int,
    moved: bool,
) -> Seq<usize>
    decreases MAX_ROUNDS - rounds,
{
    let n = color.len() as int;
    if !moved || rounds >= MAX_ROUNDS || rank_of(population_of(color, sizes), n) <= NUM_COLORS {
        color
    } else {
        let next = recolored(near, sizes, color, n);
        spared(near, sizes, next.0, rounds + 1, next.1)
    }
}

/// A colour for each cage: the cages start with a colour each and spare
/// colours round by round; the colours that are left are numbered from 0.
pub open spec fn shades_of(near: Seq<Seq<usize>>, sizes: Seq<usize>) -> Seq<usize> {
    let n = sizes.len();
    let color = spared(near, sizes, Seq::new(n, |j: int| j as usize), 0, true);
    Seq::new(n, |j: int| rank_of(population_of(color, sizes), color[j] as int) as usize)
}

/// A colour for each cage such that no two cages that touch have the same:
/// at first each cage has its own; then, round by round and for as long as
/// that changes a colour and more than nine are left, each cage takes the
/// colour with the fewest cells, of those that another cage has and that no
/// cage next to it has. The colours that are left are numbered from 0. The
/// colours are `shades_of` the lists and the sizes.
pub fn color_cages(near: &Vec<Vec<usize>>, sizes: &Vec<usize>) -> (shade: Vec<usize>)
    requires
        near@.len() == sizes@.len(),
        sizes@.len() <= 81,
        total_size(sizes@, sizes@.len() as int) <= 81,
        forall|i: int| 0 <= i < sizes@.len() ==> #[trigger] sizes@[i] >= 1,
        near_wf(near@),
    ensures
        shade@.len() == sizes@.len(),
        proper(shade@, near@),
        forall|i: int| 0 <= i < shade@.len() ==> #[trigger] shade@[i] < sizes@.len(),
        shade@ == shades_of(lists(near@), sizes@),
{
    let n: usize = sizes.len();
    let mut color: Vec<usize> = Vec::new();
    let mut population: Vec<usize> = Vec::new();
    let mut i: usize = 0;
    while i < n
        invariant
            0 <= i <= n,
            n == sizes@.len(),
            color@.len() == i,
            population@.len() == i,
            forall|j: int| 0 <= j < i ==> #[trigger] color@[j] == j,
            forall|j: int| 0 <= j < i ==> #[trigger] population@[j] == sizes@[j],
        decreases n - i,
    {
        color.push(i);
        population.push(sizes[i]);
        i += 1;
    }
    proof {
        assert forall|c: int| 0 <= c < n implies #[trigger] population@[c] == pop_sum(
            color@,
            sizes@,
            c,
            n as int,
        ) by {
            lemma_pop_sum_own(color@, sizes@, c, n as int);
        }
    }
    let mut rounds: usize = 0;
    let mut progress = true;
    let ghost links = lists(near@);
    let ghost first = color@;
    proof {
        assert(first =~= Seq::new(n as nat, |j: int| j as usize));
        assert(population@ =~= population_of(color@, sizes@));
    }
    while progress && rounds < MAX_ROUNDS && count_populated(&population) > NUM_COLORS
        invariant
            0 <= rounds <= MAX_ROUNDS,
            links == lists(near@),
            population@ == population_of(color@, sizes@),
            spared(links, sizes@, first, 0, true) == spared(
                links,
                sizes@,
                color@,
                rounds as int,
                progress,
            ),
            n == sizes@.len(),
            near@.len() == n,
            n <= 81,
            total_size(sizes@, n as int) <= 81,
            near_wf(near@),
            color@.len() == n,
            population@.len() == n,
            forall|j: int| 0 <= j < n ==> #[trigger] color@[j] < n,
            forall|j: int| 0 <= j < n ==> #[trigger] sizes@[j] >= 1,
            forall|c: int|
                0 <= c < n ==> #[trigger] population@[c] == pop_sum(color@, sizes@, c, n as int),
            proper(color@, near@),
        decreases MAX_ROUNDS - rounds,
    {
        progress = false;
        let mut k: usize = 0;
        let ghost start = color@;
        while k < n
            invariant
                0 <= k <= n,
                links == lists(near@),
                start.len() == n,
                population@ == population_of(color@, sizes@),
                recolored(links, sizes@, start, k as int) == (color@, progress),
                n == sizes@.len(),
                near@.len() == n,
                n <= 81,
                total_size(sizes@, n as int) <= 81,
                near_wf(near@),
                color@.len() == n,
                population@.len() == n,
                forall|j: int| 0 <= j < n ==> #[trigger] color@[j] < n,
                forall|j: int| 0 <= j < n ==> #[trigger] sizes@[j] >= 1,
                forall|c: int|
                    0 <= c < n ==> #[trigger] population@[c] == pop_sum(
                        color@,
                        sizes@,
                        c,
                        n as int,
                    ),
                proper(color@, near@),
            decreases n - k,
        {
            let old_color: usize = color[k];
            let used = colors_around(near, &color, k);
            let mut best: usize = n;
            let mut c: usize = 0;
            while c < n
                invariant
                    0 <= c <= n,
                    population@.len() == n,
                    used@.len() == n,
                    color@.len() == n,
                    old_color == color@[k as int],
                    population@ == population_of(color@, sizes@),
                    forall|x: int|
                        0 <= x < n ==> #[trigger] used@[x] == color_near(
                            links,
                            color@,
                            k as int,
                            x,
                        ),
                    best == spare_color(links, sizes@, color@, k as int, c as int),
                    best <= n,
                    best < n ==> best != old_color && population@[best as int] > 0
                        && !used@[best as int],
                decreases n - c,
            {
                if c != old_color && population[c] > 0 && !used[c] && (best == n || population[c]
                    < population[best]) {
                    best = c;
                }
                c += 1;
            }
            if best < n {
                progress = true;
                let size: usize = sizes[k];
                let ghost before = color@;
                proof {
                    lemma_pop_sum_bounds(before.update(k as int, best), sizes@, best as int,
                        n as int, 0);
                    lemma_pop_sum_bounds(before, sizes@, old_color as int, n as int, k as int);
                    lemma_pop_sum_move(before, sizes@, best as int, n as int, k as int, best);
                    lemma_pop_sum_move(before, sizes@, old_color as int, n as int, k as int, best);
                }
                population.set(best, population[best] + size);
                population.set(old_color, population[old_color] - size);
                color.set(k, best);
                proof {
                    assert(color@ =~= before.update(k as int, best));
                    assert forall|c: int| 0 <= c < n implies #[trigger] population@[c] == pop_sum(
                        color@,
                        sizes@,
                        c,
                        n as int,
                    ) by {
                        lemma_pop_sum_move(before, sizes@, c, n as int, k as int, best);
                    }
                    assert(population@ =~= population_of(color@, sizes@));
                    assert forall|i: int, p: int|
                        0 <= i < near@.len() && 0 <= p < near@[i]@.len() implies color@[i]
                        != color@[#[trigger] near@[i]@[p] as int] by {
                        let x = near@[i]@[p];
                        assert(near@[i]@.contains(x));
                        assert(before[i] != before[x as int]);
                        if i == k {
                            assert(used@[before[x as int] as int]);
                        } else if x == k {
                            assert(near@[k as int]@.contains(i as usize));
                            let q = choose|q: int|
                                0 <= q < near@[k as int]@.len() && near@[k as int]@[q]
                                    == i as usize;
                            assert(used@[before[near@[k as int]@[q] as int] as int]);
                        }
                    }
                }
            }
            k += 1;
        }
        rounds += 1;
    }
    let mut rank: Vec<usize> = Vec::new();
    let mut seen: usize = 0;
    let mut c: usize = 0;
    while c < n
        invariant
            0 <= c <= n,
            population@.len() == n,
            rank@.len() == c,
            seen == rank_of(population@, c as int),
            seen <= c,
            forall|d: int| 0 <= d < c ==> #[trigger] rank@[d] == rank_of(population@, d),
        decreases n - c,
    {
        rank.push(seen);
        if population[c] > 0 {
            seen += 1;
        }
        c += 1;
    }
    let mut shade: Vec<usize> = Vec::new();
    let mut i: usize = 0;
    while i < n
        invariant
            0 <= i <= n,
            color@.len() == n,
            rank@.len() == n,
            forall|j: int| 0 <= j < n ==> #[trigger] color@[j] < n,
            shade@.len() == i,
            forall|j: int| 0 <= j < i ==> #[trigger] shade@[j] == rank@[color@[j] as int],
        decreases n - i,
    {
        shade.push(rank[color[i]]);
        i += 1;
    }
    proof {
        assert forall|j: int| 0 <= j < n implies #[trigger] shade@[j] < n by {
            lemma_rank_nonnegative(population@, color@[j] as int);
            lemma_pop_sum_bounds(color@, sizes@, color@[j] as int, n as int, j);
            lemma_rank_grows(population@, color@[j] as int, n as int);
        }
        assert forall|i: int, p: int|
            0 <= i < near@.len() && 0 <= p < near@[i]@.len() implies shade@[i]
            != shade@[#[trigger] near@[i]@[p] as int] by {
            let x = near@[i]@[p] as int;
            let a = color@[i] as int;
            let b = color@[x] as int;
            assert(a != b);
            lemma_pop_sum_bounds(color@, sizes@, a, n as int, i);
            lemma_pop_sum_bounds(color@, sizes@, b, n as int, x);
            assert(population@[a] > 0 && population@[b] > 0);
            if a < b {
                lemma_rank_grows(population@, a, b);
            } else {
                lemma_rank_grows(population@, b, a);
            }
        }
    }
    shade
}

proof fn lemma_pop_sum_own(color: Seq<usize>, sizes: Seq<usize>, c: int, n: int)
    requires
        0 <= n <= color.len(),
        color.len() == sizes.len(),
        forall|j: int| 0 <= j < color.len() ==> #[trigger] color[j] == j,
    ensures
        pop_sum(color, sizes, c, n) == if 0 <= c < n { sizes[c] as int } else { 0int },
    decreases n,
{
    if n > 0 {
        lemma_pop_sum_own(color, sizes, c, n - 1);
    }
}

/// The number of colours that some cage has.
pub fn count_populated(population: &Vec<usize>) -> (r: usize)
    ensures
        r == rank_of(population@, population@.len() as int),
{
    let mut seen: usize = 0;
    let mut c: usize = 0;
    while c < population.len()
        invariant
            0 <= c <= population.len(),
            seen == rank_of(population@, c as int),
            seen <= c,
        decreases population.len() - c,
    {
        if population[c] > 0 {
            seen += 1;
        }
        c += 1;
    }
    seen
}

/// For each colour, whether a cage next to the cage `k` has it.
fn colors_around(near: &Vec<Vec<usize>>, color: &Vec<usize>, k: usize) -> (used: Vec<bool>)
    requires
        k < near@.len(),
        color@.len() == near@.len(),
        forall|j: int| 0 <= j < color@.len() ==> #[trigger] color@[j] < color@.len(),
        near_wf(near@),
    ensures
        used@.len() == color@.len(),
        forall|p: int|
            0 <= p < near@[k as int]@.len()
                ==> used@[color@[#[trigger] near@[k as int]@[p] as int] as int],
        forall|c: int|
            0 <= c < used@.len() ==> #[trigger] used@[c] == color_near(
                lists(near@),
                color@,
                k as int,
                c,
            ),
{
    let n: usize = color.len();
    let mut used: Vec<bool> = Vec::new();
    let mut c: usize = 0;
    while c < n
        invariant
            0 <= c <= n,
            used@.len() == c,
            forall|x: int| 0 <= x < c ==> !#[trigger] used@[x],
        decreases n - c,
    {
        used.push(false);
        c += 1;
    }
    let list = &near[k];
    let mut p: usize = 0;
    while p < list.len()
        invariant
            0 <= p <= list.len(),
            list@ == near@[k as int]@,
            k < near@.len(),
            n == color@.len(),
            n == near@.len(),
            used@.len() == n,
            near_wf(near@),
            forall|j: int| 0 <= j < color@.len() ==> #[trigger] color@[j] < color@.len(),
            forall|q: int| 0 <= q < p ==> used@[color@[#[trigger] list@[q] as int] as int],
            forall|c: int|
                0 <= c < n && #[trigger] used@[c] ==> exists|q: int|
                    0 <= q < p && color@[#[trigger] list@[q] as int] == c,
        decreases list.len() - p,
    {
        let other: usize = list[p];
        assert(near@[k as int]@[p as int] < near@.len());
        let ghost before = used@;
        used.set(color[other], true);
        proof {
            assert forall|c: int| 0 <= c < n && #[trigger] used@[c] implies exists|q: int|
                0 <= q < p + 1 && color@[#[trigger] list@[q] as int] == c by {
                if c == color@[other as int] {
                    assert(color@[list@[p as int] as int] == c);
                } else {
                    assert(before[c]);
                    let q = choose|q: int| 0 <= q < p && color@[#[trigger] list@[q] as int] == c;
                    assert(0 <= q < p + 1 && color@[list@[q] as int] == c);
                }
            }
        }
        p += 1;
    }
    proof {
        assert(lists(near@)[k as int] == list@);
        assert forall|c: int| 0 <= c < used@.len() implies #[trigger] used@[c] == color_near(
            lists(near@),
            color@,
            k as int,
            c,
        ) by {
            if used@[c] {
                let q = choose|q: int| 0 <= q < p && color@[#[trigger] list@[q] as int] == c;
                assert(color_near(lists(near@), color@, k as int, c));
            }
            if color_near(lists(near@), color@, k as int, c) {
                let q = choose|q: int|
                    0 <= q < lists(near@)[k as int].len() && color@[#[trigger] lists(
                        near@,
                    )[k as int][q] as int] == c;
                assert(used@[color@[list@[q] as int] as int]);
            }
        }
    }
    used
}

/// The cell `a` comes no later than `b` where cells are taken column by
/// column, and from the top down within a column.
pub open spec fn label_before(a: usize, b: usize) -> bool {
    a % 9 < b % 9 || (a % 9 == b % 9 && a / 9 <= b / 9)
}

/// The cell of the cage in which its sum is printed: the topmost of its
/// cells in the leftmost column that it reaches.
pub fn label_cell(cells: &Vec<usize>) -> (r: usize)
    requires
        cells@.len() >= 1,
    ensures
        cells@.contains(r),
        forall|p: int| 0 <= p < cells@.len() ==> label_before(r, #[trigger] cells@[p]),
{
    let mut best: usize = cells[0];
    let mut p: usize = 1;
    while p < cells.len()
        invariant
            1 <= p <= cells.len(),
            cells@.contains(best),
            forall|q: int| 0 <= q < p ==> label_before(best, #[trigger] cells@[q]),
        decreases cells.len() - p,
    {
        let cell: usize = cells[p];
        if cell % 9 < best % 9 || (cell % 9 == best % 9 && cell / 9 < best / 9) {
            best = cell;
        }
        p += 1;
    }
    best
}

/// The cage that holds the cell.
pub open spec fn owner_of(cages: Seq<SerializableCage>, cell: usize) -> int {
    choose|i: int| #[trigger] owns(cages, i, cell)
}

/// For each cell of the board the cage that holds it.
pub open spec fn owners(cages: Seq<SerializableCage>) -> Seq<usize> {
    Seq::new(81, |c: int| owner_of(cages, c as usize) as usize)
}

/// The cages that touch the cage `i`, in ascending order.
pub open spec fn touching_cages(owner: Seq<usize>, i: int) -> Seq<usize> {
    choose|list: Seq<usize>|
        strictly_increasing(list) && forall|x: usize|
            list.contains(x) <==> touches(owner, i, x as int)
}

/// For each of `n` cages the cages that touch it.
pub open spec fn neighbours(owner: Seq<usize>, n: int) -> Seq<Seq<usize>> {
    Seq::new(n as nat, |i: int| touching_cages(owner, i))
}

/// The number of cells of each cage.
pub open spec fn sizes_of(cages: Seq<SerializableCage>) -> Seq<usize> {
    Seq::new(cages.len(), |k: int| cages[k].cell_indices@.len() as usize)
}

/// For each cell of the board the number of the colour of its cage.
pub open spec fn fills_of(cages: Seq<SerializableCage>) -> Seq<usize> {
    let owner = owners(cages);
    let shade = shades_of(neighbours(owner, cages.len() as int), sizes_of(cages));
    Seq::new(81, |a: int| shade[owner[a] as int])
}

/// Where the sum of a cage is printed.
#[derive(Debug, Clone, Copy, PartialEq, Eq)]
pub struct Label {
    pub cell: usize,
    pub sum: usize,
}

/// What is to be drawn: for each cell of the board the number of its
/// colour, and for each cage the cell that shows its sum.
#[derive(Debug, Clone, PartialEq, Eq)]
pub struct RenderPlan {
    pub fills: Vec<usize>,
    pub labels: Vec<Label>,
}

/// Lays a written puzzle out for drawing. The puzzle is malformed where its
/// cages do not share out the board.
pub fn plan(puzzle: &SerializablePuzzle) -> (r: Result<RenderPlan, SolveError>)
    ensures
        r is Err <==> !is_partition(puzzle.cages@),
        r matches Err(e) ==> e == SolveError::MalformedPuzzle,
        r matches Ok(plan) ==> {
            let cages = puzzle.cages@;
            &&& plan.fills@.len() == 81
            &&& plan.fills@ == fills_of(cages)
            &&& plan.labels@.len() == cages.len()
            &&& forall|a: int, b: int, i: int|
                0 <= a < 81 && 0 <= b < 81 && #[trigger] owns(cages, i, a as usize)
                    && #[trigger] owns(cages, i, b as usize) ==> plan.fills@[a] == plan.fills@[b]
            &&& forall|a: int, b: int, i: int, j: int|
                king(a, b) && i != j && #[trigger] owns(cages, i, a as usize) && #[trigger] owns(
                    cages,
                    j,
                    b as usize,
                ) ==> plan.fills@[a] != plan.fills@[b]
            &&& forall|k: int|
                0 <= k < cages.len() ==> (#[trigger] plan.labels@[k]).sum == cages[k].sum
                    && cages[k].cell_indices@.contains(plan.labels@[k].cell) && forall|p: int|
                    0 <= p < cages[k].cell_indices@.len() ==> label_before(
                        plan.labels@[k].cell,
                        #[trigger] cages[k].cell_indices@[p],
                    )
        },
{
    let cages = &puzzle.cages;
    let owner = match cage_of_cells(cages) {
        Some(owner) => owner,
        None => {
            return Err(SolveError::MalformedPuzzle);
        },
    };
    let n: usize = cages.len();
    let near = interference(&owner, n);
    let mut sizes: Vec<usize> = Vec::new();
    let mut labels: Vec<Label> = Vec::new();
    let mut k: usize = 0;
    while k < n
        invariant
            0 <= k <= n,
            n == cages@.len(),
            is_partition(cages@),
            sizes@.len() == k,
            labels@.len() == k,
            total_size(sizes@, k as int) == total_cells(cages@, k as int),
            forall|j: int|
                0 <= j < k ==> #[trigger] sizes@[j] == cages@[j].cell_indices@.len() && sizes@[j]
                    >= 1,
            forall|j: int|
                0 <= j < k ==> (#[trigger] labels@[j]).sum == cages@[j].sum
                    && cages@[j].cell_indices@.contains(labels@[j].cell) && forall|p: int|
                    0 <= p < cages@[j].cell_indices@.len() ==> label_before(
                        labels@[j].cell,
                        #[trigger] cages@[j].cell_indices@[p],
                    ),
        decreases n - k,
    {
        let ghost before = sizes@;
        let ghost labels_before = labels@;
        assert(cages@[k as int].cell_indices@.len() >= 1);
        sizes.push(cages[k].cell_indices.len());
        labels.push(Label { cell: label_cell(&cages[k].cell_indices), sum: cages[k].sum });
        proof {
            lemma_total_size_prefix(before, sizes@, k as int);
            assert forall|j: int| 0 <= j < k + 1 implies (#[trigger] labels@[j]).sum
                == cages@[j].sum
                && cages@[j].cell_indices@.contains(labels@[j].cell) && forall|p: int|
                0 <= p < cages@[j].cell_indices@.len() ==> label_before(
                    labels@[j].cell,
                    #[trigger] cages@[j].cell_indices@[p],
                ) by {
                if j < k {
                    assert(labels@[j] == labels_before[j]);
                }
            }
        }
        k += 1;
    }
    proof {
        assert(near_wf(near@)) by {
            assert forall|i: int, x: usize|
                0 <= i < near@.len() && #[trigger] near@[i]@.contains(x) implies x < near@.len()
                && near@[x as int]@.contains(i as usize) by {
                assert(touches(owner@, i, x as int));
                lemma_touches_both_ways(owner@, i, x as int);
                let (c, d) = choose|c: int, d: int|
                    place_before(c, d, 81, 0) && #[trigger] king(c, d) && owner@[c] == i
                        && owner@[d] == x;
                assert(owner@[d] < n);
            }
            assert forall|i: int, p: int|
                0 <= i < near@.len() && 0 <= p < near@[i]@.len() implies #[trigger] near@[i]@[p]
                < near@.len() && near@[i]@[p] != i by {
                assert(near@[i]@.contains(near@[i]@[p]));
                assert(touches(owner@, i, near@[i]@[p] as int));
            }
        }
    }
    let shade = color_cages(&near, &sizes);
    let mut fills: Vec<usize> = Vec::new();
    let mut c: usize = 0;
    while c < 81
        invariant
            0 <= c <= 81,
            owner@.len() == 81,
            shade@.len() == n,
            forall|x: int| 0 <= x < 81 ==> #[trigger] owner@[x] < n,
            fills@.len() == c,
            forall|x: int| 0 <= x < c ==> #[trigger] fills@[x] == shade@[owner@[x] as int],
        decreases 81 - c,
    {
        fills.push(shade[owner[c]]);
        c += 1;
    }
    proof {
        let list = cages@;
        assert forall|a: int, i: int| 0 <= a < 81 && #[trigger] owns(list, i,
            a as usize) implies owner@[a]
            == i by {
            let cell = a as usize;
            let other = owner@[a] as int;
            assert(owns(list, other, cell));
            let p = choose|p: int| holds_at(list, i, p, cell);
            let q = choose|q: int| holds_at(list, other, q, cell);
            assert(holds_at(list, i, p, cell) && holds_at(list, other, q, cell));
        }
        assert forall|a: int, b: int, i: int, j: int|
            king(a, b) && i != j && #[trigger] owns(list, i, a as usize) && #[trigger] owns(
                list,
                j,
                b as usize,
            ) implies fills@[a] != fills@[b] by {
            assert(owner@[a] == i && owner@[b] == j);
            assert(place_before(a, b, 81, 0) && king(a, b));
            assert(touches(owner@, i, j));
            assert(near@[i]@.contains(j as usize));
            let p = choose|p: int| 0 <= p < near@[i]@.len() && near@[i]@[p] == j as usize;
            assert(shade@[i] != shade@[near@[i]@[p] as int]);
        }
        assert(owner@ =~= owners(list)) by {
            assert forall|a: int| 0 <= a < 81 implies owner@[a] == owners(list)[a] by {
                assert(owns(list, owner@[a] as int, a as usize));
                let i = owner_of(list, a as usize);
                assert(owns(list, i, a as usize));
            }
        }
        assert(lists(near@) =~= neighbours(owner@, n as int)) by {
            assert forall|i: int| 0 <= i < n implies lists(near@)[i] == touching_cages(
                owner@,
                i,
            ) by {
                let mine = near@[i]@;
                assert(strictly_increasing(mine));
                assert forall|x: usize| mine.contains(x) <==> touches(owner@, i, x as int) by {
                    assert(near@[i]@.contains(x) <==> touches(owner@, i, x as int));
                }
                let other = touching_cages(owner@, i);
                crate::derive::lemma_increasing_same(mine, other);
            }
        }
        assert(sizes@ =~= sizes_of(list));
        assert(fills@ =~= fills_of(list));
    }
    Ok(RenderPlan { fills, labels })
}

proof fn lemma_total_size_prefix(before: Seq<usize>, after: Seq<usize>, n: int)
    requires
        0 <= n <= before.len(),
        n <= after.len(),
        forall|j: int| 0 <= j < n ==> before[j] == after[j],
    ensures
        total_size(before, n) == total_size(after, n),
    decreases n,
{
    if n > 0 {
        lemma_total_size_prefix(before, after, n - 1);
    }
}

/// What a shape of a picture holds.
pub enum Shape {
    /// A rectangle: its corner, its size, its outline and its fill.
    Rectangle { x: int, y: int, width: int, height: int, stroke: Seq<char>, fill: Seq<char> },
    /// A line between two points, with its colour and its width.
    Line { x1: int, x2: int, y1: int, y2: int, stroke: Seq<char>, width: int },
    /// A text at a place, in a size, with its anchor where it has one.
    Text { anchor: Option<Seq<char>>, x: int, y: int, size: int, content: Seq<char> },
    /// Shapes that are held together.
    Group { shapes: Seq<Shape> },
}

/// The whole picture, of the crate `svg`.
#[verifier::external_type_specification]
#[verifier::external_body]
pub struct ExDocument(svg::node::element::SVG);

/// A group of shapes, of the crate `svg`.
#[verifier::external_type_specification]
#[verifier::external_body]
pub struct ExGroup(svg::node::element::Group);

/// A rectangle, of the crate `svg`.
#[verifier::external_type_specification]
#[verifier::external_body]
pub struct ExRectangle(svg::node::element::Rectangle);

/// A line, of the crate `svg`.
#[verifier::external_type_specification]
#[verifier::external_body]
pub struct ExLine(svg::node::element::Line);

/// A piece of text with its place, of the crate `svg`.
#[verifier::external_type_specification]
#[verifier::external_body]
pub struct ExText(svg::node::element::Text);

/// The shapes that a picture holds, in the order in which they were added.
pub uninterp spec fn document_shapes(document: svg::node::element::SVG) -> Seq<Shape>;

/// The view box of a picture: its origin, its width and its height.
pub uninterp spec fn document_box(document: svg::node::element::SVG) -> Seq<int>;

/// The shapes that a group holds, in the order in which they were added.
pub uninterp spec fn group_shapes(group: svg::node::element::Group) -> Seq<Shape>;

/// What a rectangle holds.
pub uninterp spec fn rectangle_of(node: svg::node::element::Rectangle) -> Shape;

/// What a line holds.
pub uninterp spec fn line_of(node: svg::node::element::Line) -> Shape;

/// What a text holds.
pub uninterp spec fn text_of(node: svg::node::element::Text) -> Shape;

/// `svg::Document::new` and `set`: a picture without shapes, with the
/// view box of the four numbers.
#[verifier::external_body]
fn new_document(x: u32, y: u32, width: u32, height: u32) -> (r: svg::node::element::SVG)
    ensures
        document_shapes(r) == Seq::<Shape>::empty(),
        document_box(r) == seq![x as int, y as int, width as int, height as int],
{
    svg::Document::new().set("viewBox", (x, y, width, height))
}

/// `svg::node::element::Group::new`: a group without shapes.
#[verifier::external_body]
fn new_group() -> (r: svg::node::element::Group)
    ensures
        group_shapes(r) == Seq::<Shape>::empty(),
{
    svg::node::element::Group::new()
}

/// `svg::node::element::Rectangle::new` and `set`: a rectangle with its
/// corner, size, outline and fill.
#[verifier::external_body]
fn rectangle(x: u32, y: u32, width: u32, height: u32, stroke: &str, fill: &str) -> (r:
    svg::node::element::Rectangle)
    ensures
        rectangle_of(r) == (Shape::Rectangle {
            x: x as int,
            y: y as int,
            width: width as int,
            height: height as int,
            stroke: stroke@,
            fill: fill@,
        }),
{
    svg::node::element::Rectangle::new()
        .set("x", x)
        .set("y", y)
        .set("width", width)
        .set("height", height)
        .set("stroke", stroke)
        .set("fill", fill)
}

/// `svg::node::element::Line::new` and `set`: a line between two points,
/// of the given colour and width.
#[verifier::external_body]
fn line(x1: u32, x2: u32, y1: u32, y2: u32, stroke: &str, width: u32) -> (r:
    svg::node::element::Line)
    ensures
        line_of(r) == (Shape::Line {
            x1: x1 as int,
            x2: x2 as int,
            y1: y1 as int,
            y2: y2 as int,
            stroke: stroke@,
            width: width as int,
        }),
{
    svg::node::element::Line::new()
        .set("x1", x1)
        .set("x2", x2)
        .set("y1", y1)
        .set("y2", y2)
        .set("stroke", stroke)
        .set("stroke-width", width)
}

/// `svg::node::element::Text::new`, `set` and `add`, with
/// `svg::node::Text::new`: a text at a place, in a size, without an anchor.
#[verifier::external_body]
fn text(x: u32, y: u32, size: u32, content: &str) -> (r: svg::node::element::Text)
    ensures
        text_of(r) == (Shape::Text {
            anchor: None,
            x: x as int,
            y: y as int,
            size: size as int,
            content: content@,
        }),
{
    svg::node::element::Text::new()
        .set("x", x)
        .set("y", y)
        .set("font-size", size)
        .add(svg::node::Text::new(content))
}

/// As `text`, with the attribute `text-anchor` set before the others.
#[verifier::external_body]
fn anchored_text(anchor: &str, x: u32, y: u32, size: u32, content: &str) -> (r:
    svg::node::element::Text)
    ensures
        text_of(r) == (Shape::Text {
            anchor: Some(anchor@),
            x: x as int,
            y: y as int,
            size: size as int,
            content: content@,
        }),
{
    svg::node::element::Text::new()
        .set("text-anchor", anchor)
        .set("x", x)
        .set("y", y)
        .set("font-size", size)
        .add(svg::node::Text::new(content))
}

/// `svg::node::element::Group::add` with a rectangle: the group holds it
/// after what it held.
#[verifier::external_body]
fn group_with_rectangle(
    group: svg::node::element::Group,
    node: svg::node::element::Rectangle,
) -> (r: svg::node::element::Group)
    ensures
        group_shapes(r) == group_shapes(group).push(rectangle_of(node)),
{
    group.add(node)
}

/// `svg::node::element::Group::add` with a text: the group holds it after
/// what it held.
#[verifier::external_body]
fn group_with_text(group: svg::node::element::Group, node: svg::node::element::Text) -> (r:
    svg::node::element::Group)
    ensures
        group_shapes(r) == group_shapes(group).push(text_of(node)),
{
    group.add(node)
}

/// `svg::node::element::Group::add` with a line: the group holds it after
/// what it held.
#[verifier::external_body]
fn group_with_line(group: svg::node::element::Group, node: svg::node::element::Line) -> (r:
    svg::node::element::Group)
    ensures
        group_shapes(r) == group_shapes(group).push(line_of(node)),
{
    group.add(node)
}

/// `svg::node::element::SVG::add` with a rectangle: the picture holds it
/// after what it held, and keeps its view box.
#[verifier::external_body]
fn document_with_rectangle(
    document: svg::node::element::SVG,
    node: svg::node::element::Rectangle,
) -> (r: svg::node::element::SVG)
    ensures
        document_shapes(r) == document_shapes(document).push(rectangle_of(node)),
        document_box(r) == document_box(document),
{
    document.add(node)
}

/// `svg::node::element::SVG::add` with a group: the picture holds the
/// group, with its shapes, after what it held, and keeps its view box.
#[verifier::external_body]
fn document_with_group(document: svg::node::element::SVG, node: svg::node::element::Group) -> (r:
    svg::node::element::SVG)
    ensures
        document_shapes(r) == document_shapes(document).push(
            Shape::Group { shapes: group_shapes(node) },
        ),
        document_box(r) == document_box(document),
{
    document.add(node)
}

/// `svg::node::element::SVG::add` with a text: the picture holds it after
/// what it held, and keeps its view box.
#[verifier::external_body]
fn document_with_text(document: svg::node::element::SVG, node: svg::node::element::Text) -> (r:
    svg::node::element::SVG)
    ensures
        document_shapes(r) == document_shapes(document).push(text_of(node)),
        document_box(r) == document_box(document),
{
    document.add(node)
}

/// The character of a digit.
pub open spec fn digit_char(d: int) -> char {
    if d == 0 {
        '0'
    } else if d == 1 {
        '1'
    } else if d == 2 {
        '2'
    } else if d == 3 {
        '3'
    } else if d == 4 {
        '4'
    } else if d == 5 {
        '5'
    } else if d == 6 {
        '6'
    } else if d == 7 {
        '7'
    } else if d == 8 {
        '8'
    } else {
        '9'
    }
}

/// A number in decimal digits, without leading zeros.
pub open spec fn decimal_digits(value: nat) -> Seq<char>
    decreases value,
{
    if value < 10 {
        seq![digit_char(value as int)]
    } else {
        decimal_digits(value / 10).push(digit_char((value % 10) as int))
    }
}

/// `format!` of the standard library on a number: its decimal digits.
#[verifier::external_body]
fn decimal(value: usize) -> (r: String)
    ensures
        r@ == decimal_digits(value as nat),
{
    format!("{}", value)
}

/// `format!` of the standard library on two pieces of text: the one after
/// the other.
#[verifier::external_body]
fn joined(first: &str, second: &str) -> (r: String)
    ensures
        r@ == first@ + second@,
{
    format!("{}{}", first, second)
}

/// The pale colours of the cages, as they are written in a picture.
pub open spec fn palette_entry(index: int) -> Seq<char> {
    if index == 0 {
        "#d0d0ff"@
    } else if index == 1 {
        "#d0ffd0"@
    } else if index == 2 {
        "#ffd0d0"@
    } else if index == 3 {
        "#ffffd0"@
    } else if index == 4 {
        "#ffd0ff"@
    } else if index == 5 {
        "#d0ffff"@
    } else if index == 6 {
        "#e0e0d0"@
    } else if index == 7 {
        "#e0d0e0"@
    } else {
        "#d0e0e0"@
    }
}

/// The colour with the number `index`.
pub fn palette(index: usize) -> (r: &'static str)
    requires
        index < NUM_COLORS,
    ensures
        r@ == palette_entry(index as int),
{
    if index == 0 {
        "#d0d0ff"
    } else if index == 1 {
        "#d0ffd0"
    } else if index == 2 {
        "#ffd0d0"
    } else if index == 3 {
        "#ffffd0"
    } else if index == 4 {
        "#ffd0ff"
    } else if index == 5 {
        "#d0ffff"
    } else if index == 6 {
        "#e0e0d0"
    } else if index == 7 {
        "#e0d0e0"
    } else {
        "#d0e0e0"
    }
}

/// The plan can be drawn: it has a colour of the palette for each of the 81
/// cells, and prints each sum in a cell of the board.
pub open spec fn drawable(plan: RenderPlan) -> bool {
    &&& plan.fills@.len() == 81
    &&& forall|c: int| 0 <= c < 81 ==> #[trigger] plan.fills@[c] < NUM_COLORS
    &&& forall|k: int| 0 <= k < plan.labels@.len() ==> (#[trigger] plan.labels@[k]).cell < 81
}

/// Whether the plan can be drawn.
pub fn is_drawable(plan: &RenderPlan) -> (r: bool)
    ensures
        r == drawable(*plan),
{
    if plan.fills.len() != 81 {
        return false;
    }
    let mut c: usize = 0;
    while c < 81
        invariant
            0 <= c <= 81,
            plan.fills@.len() == 81,
            forall|x: int| 0 <= x < c ==> #[trigger] plan.fills@[x] < NUM_COLORS,
        decreases 81 - c,
    {
        if plan.fills[c] >= NUM_COLORS {
            return false;
        }
        c += 1;
    }
    let mut k: usize = 0;
    while k < plan.labels.len()
        invariant
            0 <= k <= plan.labels.len(),
            forall|j: int| 0 <= j < k ==> (#[trigger] plan.labels@[j]).cell < 81,
        decreases plan.labels.len() - k,
    {
        if plan.labels[k].cell >= 81 {
            return false;
        }
        k += 1;
    }
    true
}

/// The square of the cell `k` of the board: it has no outline and the
/// colour of the cell's cage.
pub open spec fn square_of(plan: RenderPlan, k: int) -> Shape {
    Shape::Rectangle {
        x: MARGIN as int + (CELL_SIZE as int) * (k / 9),
        y: HEADER_HEIGHT as int + (CELL_SIZE as int) * (k % 9),
        width: CELL_SIZE as int,
        height: CELL_SIZE as int,
        stroke: "none"@,
        fill: palette_entry(plan.fills@[k] as int),
    }
}

/// The text of the label `k`: the sum of its cage in decimal digits, in the
/// upper left corner of its cell.
pub open spec fn sum_of(plan: RenderPlan, k: int) -> Shape {
    let label = plan.labels@[k];
    Shape::Text {
        anchor: None,
        x: MARGIN as int + (CELL_SIZE as int) * (label.cell as int / 9) + 6,
        y: HEADER_HEIGHT as int + (CELL_SIZE as int) * (label.cell as int % 9) + 24,
        size: 24,
        content: decimal_digits(label.sum as nat),
    }
}

/// The width of the line `i` of the grid: every third line is thick.
pub open spec fn line_width(i: int) -> int {
    if i % 3 == 0 {
        4
    } else {
        1
    }
}

/// The line `i` of the grid that runs across.
pub open spec fn line_across(i: int) -> Shape {
    Shape::Line {
        x1: MARGIN as int - 2,
        x2: TOTAL_WIDTH as int - MARGIN as int + 2,
        y1: HEADER_HEIGHT as int + (CELL_SIZE as int) * i,
        y2: HEADER_HEIGHT as int + (CELL_SIZE as int) * i,
        stroke: "black"@,
        width: line_width(i),
    }
}

/// The line `i` of the grid that runs down.
pub open spec fn line_down(i: int) -> Shape {
    Shape::Line {
        x1: MARGIN as int + (CELL_SIZE as int) * i,
        x2: MARGIN as int + (CELL_SIZE as int) * i,
        y1: HEADER_HEIGHT as int - 2,
        y2: TOTAL_HEIGHT as int - MARGIN as int + 2,
        stroke: "black"@,
        width: line_width(i),
    }
}

/// The squares of the first `n` cells.
pub open spec fn squares(plan: RenderPlan, n: int) -> Seq<Shape> {
    Seq::new(n as nat, |k: int| square_of(plan, k))
}

/// The texts of the first `n` labels.
pub open spec fn sums(plan: RenderPlan, n: int) -> Seq<Shape> {
    Seq::new(n as nat, |k: int| sum_of(plan, k))
}

/// The first `n` lines across.
pub open spec fn lines_across(n: int) -> Seq<Shape> {
    Seq::new(n as nat, |i: int| line_across(i))
}

/// The first `n` lines down.
pub open spec fn lines_down(n: int) -> Seq<Shape> {
    Seq::new(n as nat, |i: int| line_down(i))
}

/// What the picture of a plan holds, from the ground up: a white ground;
/// the 81 squares; the sums of the cages; the ten lines across and the ten
/// lines down; the title, in the middle; below it the number of cages; at
/// the bottom the date, and the credit at the right.
pub open spec fn picture_of(
    plan: RenderPlan,
    title: Seq<char>,
    date: Seq<char>,
    credit: Seq<char>,
) -> Seq<Shape> {
    seq![
        Shape::Rectangle {
            x: 0,
            y: 0,
            width: TOTAL_WIDTH as int,
            height: TOTAL_HEIGHT as int,
            stroke: "none"@,
            fill: "white"@,
        },
        Shape::Group { shapes: squares(plan, 81) },
        Shape::Group { shapes: sums(plan, plan.labels@.len() as int) },
        Shape::Group { shapes: lines_across(10) },
        Shape::Group { shapes: lines_down(10) },
        Shape::Text {
            anchor: Some("middle"@),
            x: TOTAL_WIDTH as int / 2,
            y: HEADER_HEIGHT as int - 48,
            size: 60,
            content: title,
        },
        Shape::Text {
            anchor: Some("middle"@),
            x: TOTAL_WIDTH as int / 2,
            y: HEADER_HEIGHT as int - 16,
            size: 24,
            content: decimal_digits(plan.labels@.len() as nat) + " Cages"@,
        },
        Shape::Text {
            anchor: None,
            x: MARGIN as int,
            y: TOTAL_HEIGHT as int - MARGIN as int + 24,
            size: 20,
            content: date,
        },
        Shape::Text {
            anchor: Some("end"@),
            x: TOTAL_WIDTH as int - MARGIN as int,
            y: TOTAL_HEIGHT as int - MARGIN as int + 24,
            size: 20,
            content: credit,
        },
    ]
}

/// The picture of a plan: a white ground; the cells, each in the colour of
/// its cage; the sums of the cages; the lines of the grid, every third one
/// thick; the title, the number of cages below it, and at the bottom the
/// date and the credit. Nothing where the plan cannot be drawn.
pub fn draw(plan: &RenderPlan, title: &str, date: &str, credit: &str) -> (r: Option<
    svg::node::element::SVG,
>)
    ensures
        r is Some <==> drawable(*plan),
        r matches Some(document) ==> document_shapes(document) == picture_of(
            *plan,
            title@,
            date@,
            credit@,
        ),
        r matches Some(document) ==> document_box(document) == seq![
            0int,
            0int,
            TOTAL_WIDTH as int,
            TOTAL_HEIGHT as int,
        ],
{
    if !is_drawable(plan) {
        return None;
    }
    let background = rectangle(0, 0, TOTAL_WIDTH, TOTAL_HEIGHT, "none", "white");
    let mut all = new_group();
    let mut row: u32 = 0;
    assert(group_shapes(all) =~= squares(*plan, 0));
    while row < 9
        invariant
            0 <= row <= 9,
            drawable(*plan),
            group_shapes(all) == squares(*plan, row * 9),
        decreases 9 - row,
    {
        let mut col: u32 = 0;
        while col < 9
            invariant
                0 <= col <= 9,
                row < 9,
                drawable(*plan),
                group_shapes(all) == squares(*plan, row * 9 + col),
            decreases 9 - col,
        {
            let cell: usize = (row * 9 + col) as usize;
            let fill = palette(plan.fills[cell]);
            let ghost before = group_shapes(all);
            let node = rectangle(
                MARGIN + CELL_SIZE * row,
                HEADER_HEIGHT + CELL_SIZE * col,
                CELL_SIZE,
                CELL_SIZE,
                "none",
                fill,
            );
            all = group_with_rectangle(all, node);
            proof {
                let k = row * 9 + col;
                assert(k / 9 == row && k % 9 == col);
                assert(rectangle_of(node) == square_of(*plan, k));
                assert(before.push(square_of(*plan, k)) =~= squares(*plan, k + 1));
            }
            col += 1;
        }
        row += 1;
    }
    let mut texts = new_group();
    let mut k: usize = 0;
    assert(group_shapes(texts) =~= sums(*plan, 0));
    while k < plan.labels.len()
        invariant
            0 <= k <= plan.labels.len(),
            drawable(*plan),
            group_shapes(texts) == sums(*plan, k as int),
        decreases plan.labels.len() - k,
    {
        let label = plan.labels[k];
        let row: u32 = (label.cell / 9) as u32;
        let col: u32 = (label.cell % 9) as u32;
        let content = decimal(label.sum);
        let ghost before = group_shapes(texts);
        let node = text(
            MARGIN + CELL_SIZE * row + 6,
            HEADER_HEIGHT + CELL_SIZE * col + 24,
            24,
            content.as_str(),
        );
        texts = group_with_text(texts, node);
        proof {
            assert(text_of(node) == sum_of(*plan, k as int));
            assert(before.push(sum_of(*plan, k as int)) =~= sums(*plan, k + 1));
        }
        k += 1;
    }
    let mut horizontal = new_group();
    let mut vertical = new_group();
    let mut i: u32 = 0;
    assert(group_shapes(horizontal) =~= lines_across(0));
    assert(group_shapes(vertical) =~= lines_down(0));
    while i <= 9
        invariant
            0 <= i <= 10,
            group_shapes(horizontal) == lines_across(i as int),
            group_shapes(vertical) == lines_down(i as int),
        decreases 10 - i,
    {
        let width: u32 = if i % 3 == 0 {
            4
        } else {
            1
        };
        let y: u32 = HEADER_HEIGHT + CELL_SIZE * i;
        let ghost across_before = group_shapes(horizontal);
        let ghost down_before = group_shapes(vertical);
        let across = line(MARGIN - 2, TOTAL_WIDTH - MARGIN + 2, y, y, "black", width);
        horizontal = group_with_line(horizontal, across);
        let x: u32 = MARGIN + CELL_SIZE * i;
        let down = line(x, x, HEADER_HEIGHT - 2, TOTAL_HEIGHT - MARGIN + 2, "black", width);
        vertical = group_with_line(vertical, down);
        proof {
            assert(line_of(across) == line_across(i as int));
            assert(line_of(down) == line_down(i as int));
            assert(across_before.push(line_across(i as int)) =~= lines_across(i + 1));
            assert(down_before.push(line_down(i as int)) =~= lines_down(i + 1));
        }
        i += 1;
    }
    let count = decimal(plan.labels.len());
    let caption = joined(count.as_str(), " Cages");
    let mut document = new_document(0, 0, TOTAL_WIDTH, TOTAL_HEIGHT);
    document = document_with_rectangle(document, background);
    document = document_with_group(document, all);
    document = document_with_group(document, texts);
    document = document_with_group(document, horizontal);
    document = document_with_group(document, vertical);
    document = document_with_text(
        document,
        anchored_text("middle", TOTAL_WIDTH / 2, HEADER_HEIGHT - 48, 60, title),
    );
    document = document_with_text(
        document,
        anchored_text("middle", TOTAL_WIDTH / 2, HEADER_HEIGHT - 16, 24, caption.as_str()),
    );
    document = document_with_text(document, text(MARGIN, TOTAL_HEIGHT - MARGIN + 24, 20, date));
    document = document_with_text(
        document,
        anchored_text("end", TOTAL_WIDTH - MARGIN, TOTAL_HEIGHT - MARGIN + 24, 20, credit),
    );
    assert(document_shapes(document) =~= picture_of(*plan, title@, date@, credit@));
    Some(document)
}

} // verus!
