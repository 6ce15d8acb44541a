//! Sets of indices: ordered sets of the standard library, and the
//! ascending lists without repeats in which their elements are read.

use crate::util::strictly_increasing;
use std::collections::BTreeSet;
use vstd::prelude::*;
use vstd::std_specs::cmp::OrdSpec;
use vstd::std_specs::iter::IteratorSpec;

verus! {

/// The list is ascending and holds just the elements of the set.
pub open spec fn lists_set(list: Seq<usize>, set: Set<usize>) -> bool {
    strictly_increasing(list) && forall|x: usize| list.contains(x) <==> set.contains(x)
}

/// The elements of the set as an ascending list.
pub open spec fn listing(set: Set<usize>) -> Seq<usize> {
    choose|list: Seq<usize>| lists_set(list, set)
}

/// An ascending list of the elements of a set is its listing.
pub proof fn lemma_listing(list: Seq<usize>, set: Set<usize>)
    requires
        lists_set(list, set),
    ensures
        listing(set) == list,
{
    crate::derive::lemma_increasing_same(listing(set), list);
}

/// The elements of the set as an ascending list, as the set hands them out.
pub fn ascending(set: &BTreeSet<usize>) -> (r: Vec<usize>)
    ensures
        r@ == listing(set@),
        lists_set(r@, set@),
{
    broadcast use vstd::laws_cmp::group_laws_cmp;
    broadcast use vstd::std_specs::btree::group_btree_axioms;

    assert(vstd::laws_cmp::obeys_cmp::<usize>());
    let mut out: Vec<usize> = Vec::new();
    for x in iter: set.iter()
        invariant
            out@ == iter.seq().take(iter.index()).unref(),
            iter.seq() == set.iter().remaining(),
    {
        out.push(*x);
    }
    proof {
        let s = set.iter().remaining();
        assert(out@ == s.unref());
        assert(vstd::laws_cmp::obeys_cmp::<&usize>());
        assert(vstd::std_specs::btree::increasing_seq(s));
        assert forall|a: int, b: int| 0 <= a < b < out@.len() implies out@[a] < out@[b] by {
            assert(OrdSpec::cmp_spec(&s[a], &s[b]) is Less);
            assert(OrdSpec::cmp_spec(s[a], s[b]) is Less);
        }
        assert forall|x: usize| out@.contains(x) <==> set@.contains(x) by {
            assert(out@.to_set().contains(x) <==> out@.contains(x));
        }
        lemma_listing(out@, set@);
    }
    out
}

/// Puts `x` into the set.
pub fn put(set: &mut BTreeSet<usize>, x: usize)
    ensures
        final(set)@ == old(set)@.insert(x),
{
    broadcast use vstd::laws_cmp::group_laws_cmp;
    broadcast use vstd::std_specs::btree::group_btree_axioms;

    assert(vstd::laws_cmp::obeys_cmp::<usize>());
    let _ = set.insert(x);
}

/// The set of the elements of an ascending list: it hands them out as the
/// list holds them.
pub fn as_set(list: &Vec<usize>) -> (r: BTreeSet<usize>)
    requires
        strictly_increasing(list@),
    ensures
        listing(r@) == list@,
        forall|x: usize| r@.contains(x) <==> list@.contains(x),
{
    let mut set: BTreeSet<usize> = BTreeSet::new();
    let mut i: usize = 0;
    while i < list.len()
        invariant
            0 <= i <= list.len(),
            forall|x: usize| set@.contains(x) <==> crate::cage::in_prefix(list@, i as int, x),
        decreases list.len() - i,
    {
        put(&mut set, list[i]);
        proof {
            assert forall|x: usize| set@.contains(x) <==> crate::cage::in_prefix(
                list@,
                i + 1,
                x,
            ) by {
                if crate::cage::in_prefix(list@, i as int, x) {
                    let p = choose|p: int| 0 <= p < i && list@[p] == x;
                    assert(0 <= p < i + 1 && list@[p] == x);
                }
                if crate::cage::in_prefix(list@, i + 1, x) {
                    let p = choose|p: int| 0 <= p < i + 1 && list@[p] == x;
                    if p < i {
                        assert(crate::cage::in_prefix(list@, i as int, x));
                    }
                }
                if x == list@[i as int] {
                    assert(0 <= i < i + 1 && list@[i as int] == x);
                }
            }
        }
        i += 1;
    }
    proof {
        assert forall|x: usize| list@.contains(x) <==> set@.contains(x) by {
            if list@.contains(x) {
                let p = choose|p: int| 0 <= p < list@.len() && list@[p] == x;
                assert(crate::cage::in_prefix(list@, list@.len() as int, x));
            }
        }
        lemma_listing(list@, set@);
    }
    set
}

/// Whether the ascending list holds `x`.
pub fn set_contains(list: &Vec<usize>, x: usize) -> (r: bool)
    ensures
        r == list@.contains(x),
{
    let mut i: usize = 0;
    while i < list.len()
        invariant
            0 <= i <= list.len(),
            forall|k: int| 0 <= k < i ==> list@[k] != x,
        decreases list.len() - i,
    {
        if list[i] == x {
            return true;
        }
        i += 1;
    }
    false
}

/// Puts `x` into the ascending list, unless it is there.
pub fn set_insert(list: &mut Vec<usize>, x: usize)
    requires
        strictly_increasing(old(list)@),
    ensures
        strictly_increasing(final(list)@),
        forall|y: usize| final(list)@.contains(y) <==> old(list)@.contains(y) || y == x,
        final(list)@.len() == old(list)@.len() + if old(list)@.contains(x) { 0int } else { 1int },
{
    let ghost before = list@;
    let mut pos: usize = 0;
    while pos < list.len() && list[pos] < x
        invariant
            0 <= pos <= list.len(),
            list@ == before,
            forall|k: int| 0 <= k < pos ==> before[k] < x,
        decreases list.len() - pos,
    {
        pos += 1;
    }
    if pos < list.len() && list[pos] == x {
        assert(before.contains(x));
        return ;
    }
    proof {
        if before.contains(x) {
            let k = choose|k: int| 0 <= k < before.len() && before[k] == x;
            if k > pos {
                assert(before[pos as int] < before[k]);
            }
        }
    }
    list.insert(pos, x);
    proof {
        let after = list@;
        assert forall|i: int, j: int| 0 <= i < j < after.len() implies after[i] < after[j] by {
            let a = if i < pos { i } else { i - 1 };
            let b = if j < pos { j } else { j - 1 };
            if i == pos {
                if b > pos {
                    assert(before[pos as int] < before[b]);
                }
            } else if j == pos {
            } else {
                assert(before[a] < before[b]);
            }
        }
        assert forall|y: usize| after.contains(y) <==> before.contains(y) || y == x by {
            if after.contains(y) {
                let i = choose|i: int| 0 <= i < after.len() && after[i] == y;
                if i < pos {
                    assert(before[i] == y);
                } else if i > pos {
                    assert(before[i - 1] == y);
                }
            }
            if before.contains(y) {
                let i = choose|i: int| 0 <= i < before.len() && before[i] == y;
                if i < pos {
                    assert(after[i] == y);
                } else {
                    assert(after[i + 1] == y);
                }
            }
            if y == x {
                assert(after[pos as int] == y);
            }
        }
    }
}

/// Takes `x` out of the ascending list. Says whether it was there.
pub fn set_remove(list: &mut Vec<usize>, x: usize) -> (r: bool)
    requires
        strictly_increasing(old(list)@),
    ensures
        r == old(list)@.contains(x),
        strictly_increasing(final(list)@),
        forall|y: usize| final(list)@.contains(y) <==> old(list)@.contains(y) && y != x,
        final(list)@.len() == old(list)@.len() - if r { 1int } else { 0int },
{
    let ghost before = list@;
    let mut pos: usize = 0;
    while pos < list.len() && list[pos] != x
        invariant
            0 <= pos <= list.len(),
            list@ == before,
            forall|k: int| 0 <= k < pos ==> before[k] != x,
        decreases list.len() - pos,
    {
        pos += 1;
    }
    if pos == list.len() {
        return false;
    }
    let _ = list.remove(pos);
    proof {
        let after = list@;
        assert(before.contains(x));
        assert forall|i: int, j: int| 0 <= i < j < after.len() implies after[i] < after[j] by {
            let a = if i < pos { i } else { i + 1 };
            let b = if j < pos { j } else { j + 1 };
            assert(before[a] < before[b]);
        }
        assert forall|y: usize| after.contains(y) <==> before.contains(y) && y != x by {
            if after.contains(y) {
                let i = choose|i: int| 0 <= i < after.len() && after[i] == y;
                let a = if i < pos { i } else { i + 1 };
                assert(before[a] == y);
                if a < pos {
                    assert(before[a] < before[pos as int]);
                } else {
                    assert(before[pos as int] < before[a]);
                }
            }
            if before.contains(y) && y != x {
                let i = choose|i: int| 0 <= i < before.len() && before[i] == y;
                if i < pos {
                    assert(after[i] == y);
                } else {
                    assert(after[i - 1] == y);
                }
            }
        }
    }
    true
}

} // verus!
