//! Counting tiles: the counters of a board as functions of its tiles.
use vstd::prelude::*;

use crate::minefield::{Object, Tile};

verus! {

/// Number of tiles of `s` that satisfy `f`.
pub open spec fn count_where(s: Seq<Tile>, f: spec_fn(Tile) -> bool) -> nat
    decreases s.len(),
{
    if s.len() == 0 {
        0
    } else {
        count_where(s.drop_last(), f) + if f(s.last()) {
            1nat
        } else {
            0nat
        }
    }
}

/// Tiles still covered, mines included.
pub open spec fn covered_count(s: Seq<Tile>) -> nat {
    count_where(s, |t: Tile| t.cover is Up)
}

/// Tiles marked with a flag.
pub open spec fn flag_count(s: Seq<Tile>) -> nat {
    count_where(s, |t: Tile| t.spec_flagged())
}

/// Tiles holding a mine.
pub open spec fn mine_count(s: Seq<Tile>) -> nat {
    count_where(s, |t: Tile| t.object is Mine)
}

/// Mines that were uncovered.
pub open spec fn exploded_count(s: Seq<Tile>) -> nat {
    count_where(s, |t: Tile| t.cover is Down && t.object is Mine)
}

/// The objects of the tiles, in index order.
pub open spec fn objects(s: Seq<Tile>) -> Seq<Object> {
    s.map_values(|t: Tile| t.object)
}

/// Number of tiles that a primary action may uncover.
pub open spec fn uncoverable_count(s: Seq<Tile>) -> nat {
    count_where(s, |t: Tile| t.spec_uncoverable())
}

pub proof fn lemma_count_update(s: Seq<Tile>, i: int, t: Tile, f: spec_fn(Tile) -> bool)
    requires
        0 <= i < s.len(),
    ensures
        count_where(s.update(i, t), f) + (if f(s[i]) { 1int } else { 0int }) == count_where(s, f)
            + (if f(t) { 1int } else { 0int }),
    decreases s.len(),
{
    let u = s.update(i, t);
    if i < s.len() - 1 {
        lemma_count_update(s.drop_last(), i, t, f);
        assert(u.drop_last() =~= s.drop_last().update(i, t));
    } else {
        assert(u.drop_last() =~= s.drop_last());
    }
}

pub proof fn lemma_count_positive(s: Seq<Tile>, i: int, f: spec_fn(Tile) -> bool)
    requires
        0 <= i < s.len(),
        f(s[i]),
    ensures
        count_where(s, f) >= 1,
    decreases s.len(),
{
    if i < s.len() - 1 {
        lemma_count_positive(s.drop_last(), i, f);
    }
}

pub proof fn lemma_count_all(s: Seq<Tile>, f: spec_fn(Tile) -> bool)
    ensures
        (forall|i: int| 0 <= i < s.len() ==> f(#[trigger] s[i])) ==> count_where(s, f) == s.len(),
        (forall|i: int| 0 <= i < s.len() ==> !f(#[trigger] s[i])) ==> count_where(s, f) == 0,
    decreases s.len(),
{
    if s.len() > 0 {
        lemma_count_all(s.drop_last(), f);
        assert(forall|i: int| 0 <= i < s.len() - 1 ==> s.drop_last()[i] == s[i]);
    }
}

pub proof fn lemma_count_le_len(s: Seq<Tile>, f: spec_fn(Tile) -> bool)
    ensures
        count_where(s, f) <= s.len(),
    decreases s.len(),
{
    if s.len() > 0 {
        lemma_count_le_len(s.drop_last(), f);
    }
}

pub(crate) proof fn lemma_objects_update(s: Seq<Tile>, i: int, t: Tile)
    requires
        0 <= i < s.len(),
        t.object == s[i].object,
    ensures
        objects(s.update(i, t)) == objects(s),
{
    assert(objects(s.update(i, t)) =~= objects(s));
}

pub proof fn lemma_count_ext(s1: Seq<Tile>, s2: Seq<Tile>, f: spec_fn(Tile) -> bool)
    requires
        s1.len() == s2.len(),
        forall|i: int| 0 <= i < s1.len() ==> f(#[trigger] s1[i]) == f(s2[i]),
    ensures
        count_where(s1, f) == count_where(s2, f),
    decreases s1.len(),
{
    if s1.len() > 0 {
        lemma_count_ext(s1.drop_last(), s2.drop_last(), f);
    }
}

/// Two predicates that agree on every tile count the same tiles.
pub proof fn lemma_count_ext2(s: Seq<Tile>, f: spec_fn(Tile) -> bool, g: spec_fn(Tile) -> bool)
    requires
        forall|i: int| 0 <= i < s.len() ==> f(#[trigger] s[i]) == g(s[i]),
    ensures
        count_where(s, f) == count_where(s, g),
    decreases s.len(),
{
    if s.len() > 0 {
        lemma_count_ext2(s.drop_last(), f, g);
    }
}

/// Number of elements of `s` below `i`.
pub(crate) open spec fn below(s: Seq<usize>, i: int) -> nat
    decreases s.len(),
{
    if s.len() == 0 {
        0
    } else {
        below(s.drop_last(), i) + if s.last() < i {
            1nat
        } else {
            0nat
        }
    }
}

pub(crate) proof fn lemma_below_step(s: Seq<usize>, i: usize)
    requires
        s.no_duplicates(),
    ensures
        below(s, i + 1) == below(s, i as int) + if s.contains(i) {
            1nat
        } else {
            0nat
        },
    decreases s.len(),
{
    if s.len() > 0 {
        let t = s.drop_last();
        assert(t.no_duplicates());
        lemma_below_step(t, i);
        if s.last() == i {
            assert(!t.contains(i)) by {
                if t.contains(i) {
                    let m = choose|m: int| 0 <= m < t.len() && t[m] == i;
                    assert(s[m] == s[s.len() - 1]);
                }
            }
            assert(s.contains(i)) by {
                assert(s[s.len() - 1] == i);
            }
        } else {
            if s.contains(i) {
                let k = choose|k: int| 0 <= k < s.len() && s[k] == i;
                assert(t[k] == s[k]);
            }
            if t.contains(i) {
                let m = choose|m: int| 0 <= m < t.len() && t[m] == i;
                assert(s[m] == t[m]);
            }
        }
    }
}

pub(crate) proof fn lemma_below_all(s: Seq<usize>, i: int)
    requires
        forall|k: int| 0 <= k < s.len() ==> s[k] < i,
    ensures
        below(s, i) == s.len(),
    decreases s.len(),
{
    if s.len() > 0 {
        lemma_below_all(s.drop_last(), i);
    }
}

pub(crate) proof fn lemma_below_zero(s: Seq<usize>)
    ensures
        below(s, 0) == 0,
    decreases s.len(),
{
    if s.len() > 0 {
        lemma_below_zero(s.drop_last());
    }
}

/// Number of tiles below index `n` covered in `b` and uncovered in `a`.
pub open spec fn moved_down(b: Seq<Tile>, a: Seq<Tile>, n: int) -> nat
    decreases n,
{
    if n <= 0 {
        0
    } else {
        moved_down(b, a, n - 1) + if b[n - 1].cover is Up && a[n - 1].cover is Down {
            1nat
        } else {
            0nat
        }
    }
}

pub(crate) proof fn lemma_moved_down_prefix(b: Seq<Tile>, a: Seq<Tile>, n: int)
    requires
        0 <= n <= b.len(),
        a.len() == b.len(),
        forall|i: int| 0 <= i < b.len() && (#[trigger] a[i]).cover is Up ==> b[i].cover is Up,
    ensures
        covered_count(a.subrange(0, n)) + moved_down(b, a, n) == covered_count(b.subrange(0, n)),
    decreases n,
{
    if n > 0 {
        lemma_moved_down_prefix(b, a, n - 1);
        assert(a.subrange(0, n).drop_last() =~= a.subrange(0, n - 1));
        assert(b.subrange(0, n).drop_last() =~= b.subrange(0, n - 1));
    }
}

/// Where tiles only go from covered to uncovered, the covered count drops by
/// exactly the number of tiles that moved.
pub proof fn lemma_covered_drop(b: Seq<Tile>, a: Seq<Tile>)
    requires
        a.len() == b.len(),
        forall|i: int| 0 <= i < b.len() && (#[trigger] a[i]).cover is Up ==> b[i].cover is Up,
    ensures
        covered_count(a) + moved_down(b, a, b.len() as int) == covered_count(b),
{
    lemma_moved_down_prefix(b, a, b.len() as int);
    assert(a.subrange(0, a.len() as int) =~= a);
    assert(b.subrange(0, b.len() as int) =~= b);
}

pub(crate) proof fn lemma_moved_down_covers(b1: Seq<Tile>, b2: Seq<Tile>, a: Seq<Tile>, n: int)
    requires
        0 <= n <= b1.len(),
        b1.len() == b2.len(),
        forall|i: int| 0 <= i < b1.len() ==> (#[trigger] b1[i]).cover == b2[i].cover,
    ensures
        moved_down(b1, a, n) == moved_down(b2, a, n),
    decreases n,
{
    if n > 0 {
        lemma_moved_down_covers(b1, b2, a, n - 1);
    }
}

} // verus!
