//! What uncovering does: the tiles a primary action reveals, and the
//! invariant of the flood fill that reveals them.
use vstd::prelude::*;

use crate::counting::objects;
use crate::grid::{index_of, lemma_coords_of_index, lemma_neighbor_indices, nbs_of, pos_of};
use crate::minefield::{Cover, Tile};

verus! {

/// The tile uncovered, its object kept.
pub open spec fn down(t: Tile) -> Tile {
    Tile { cover: Cover::Down, object: t.object }
}

/// Tile `i` was uncoverable in `b` and is uncovered in `a`.
pub open spec fn newly(b: Seq<Tile>, a: Seq<Tile>, i: int) -> bool {
    b[i].spec_uncoverable() && a[i].cover is Down
}

/// From `b` to `a` some uncoverable tiles were uncovered, and nothing else changed.
pub open spec fn reveal_frame(b: Seq<Tile>, a: Seq<Tile>) -> bool {
    &&& a.len() == b.len()
    &&& forall|i: int|
        0 <= i < b.len() ==> #[trigger] a[i] == b[i] || (b[i].spec_uncoverable() && a[i] == down(b[i]))
}

/// Every blank tile uncovered from `b` to `a` has no uncoverable neighbour left.
pub open spec fn reveal_closed(b: Seq<Tile>, a: Seq<Tile>, w: int, h: int) -> bool {
    forall|j: int, k: int|
        0 <= j < b.len() && newly(b, a, j) && a[j].object is Blank && 0 <= k < nbs_of(w, h, j).len()
            ==> !a[index_of(w, #[trigger] nbs_of(w, h, j)[k])].spec_uncoverable()
}

/// Every tile uncovered from `b` to `a` is a seed, or a neighbour of a blank
/// tile uncovered before it (`rank` orders them).
pub open spec fn reveal_supported(
    b: Seq<Tile>,
    a: Seq<Tile>,
    w: int,
    h: int,
    seeds: Set<int>,
    rank: Map<int, nat>,
) -> bool {
    forall|i: int|
        0 <= i < b.len() && #[trigger] newly(b, a, i) ==> rank.contains_key(i) && (seeds.contains(i)
            || exists|j: int|
            0 <= j < b.len() && newly(b, a, j) && a[j].object is Blank && rank.contains_key(j)
                && rank[j] < rank[i] && #[trigger] nbs_of(w, h, j).contains(pos_of(w, i)))
}

/// `p` is a neighbour of a blank tile uncovered from `b` to `a` with a rank
/// below `bound`.
pub open spec fn pushed_by_blank(
    b: Seq<Tile>,
    a: Seq<Tile>,
    w: int,
    h: int,
    rank: Map<int, nat>,
    bound: nat,
    p: (usize, usize),
) -> bool {
    exists|j: int|
        0 <= j < b.len() && newly(b, a, j) && a[j].object is Blank && rank.contains_key(j) && rank[j] < bound
            && #[trigger] nbs_of(w, h, j).contains(p)
}

/// `a` is `b` after uncovering the `seeds` that are uncoverable and flooding
/// from each uncovered blank tile: exactly the tiles reachable from a seed
/// through uncovered blank tiles are uncovered, flagged tiles excepted.
pub open spec fn revealed(b: Seq<Tile>, a: Seq<Tile>, w: int, h: int, seeds: Set<int>) -> bool {
    &&& reveal_frame(b, a)
    &&& forall|i: int| 0 <= i < b.len() && #[trigger] seeds.contains(i) ==> !a[i].spec_uncoverable()
    &&& reveal_closed(b, a, w, h)
    &&& exists|rank: Map<int, nat>| reveal_supported(b, a, w, h, seeds, rank)
}

/// Every entry of `stack` is a neighbour of a blank tile uncovered from `b` to `a`.
#[verifier::opaque]
pub(crate) open spec fn stack_pushed(
    b: Seq<Tile>,
    a: Seq<Tile>,
    stack: Seq<(usize, usize)>,
    w: int,
    h: int,
    rank: Map<int, nat>,
    counter: nat,
) -> bool {
    forall|m: int| 0 <= m < stack.len() ==> pushed_by_blank(b, a, w, h, rank, counter, #[trigger] stack[m])
}

/// Each neighbour of a blank tile uncovered from `b` to `a` is not uncoverable
/// any more, or waits on `stack`.
#[verifier::opaque]
pub(crate) open spec fn pending_closed(b: Seq<Tile>, a: Seq<Tile>, stack: Seq<(usize, usize)>, w: int, h: int) -> bool {
    forall|j: int, k: int|
        0 <= j < b.len() && newly(b, a, j) && a[j].object is Blank && 0 <= k < nbs_of(w, h, j).len()
            ==> !a[index_of(w, #[trigger] nbs_of(w, h, j)[k])].spec_uncoverable() || stack.contains(
            nbs_of(w, h, j)[k],
        )
}

/// Every tile uncovered from `b` to `a` has a rank below `counter`.
#[verifier::opaque]
pub(crate) open spec fn ranks_below(b: Seq<Tile>, a: Seq<Tile>, rank: Map<int, nat>, counter: nat) -> bool {
    forall|i: int| 0 <= i < b.len() && #[trigger] newly(b, a, i) ==> rank[i] < counter
}

/// The loop invariant of the flood fill from tile `o`: `stack` holds the
/// neighbours of uncovered blank tiles that may still be uncoverable.
pub(crate) open spec fn flood_inv(
    b: Seq<Tile>,
    a: Seq<Tile>,
    stack: Seq<(usize, usize)>,
    w: int,
    h: int,
    o: int,
    rank: Map<int, nat>,
    counter: nat,
) -> bool {
    &&& reveal_frame(b, a)
    &&& 0 <= o < b.len()
    &&& newly(b, a, o)
    &&& stack_pushed(b, a, stack, w, h, rank, counter)
    &&& pending_closed(b, a, stack, w, h)
    &&& reveal_supported(b, a, w, h, set![o], rank)
    &&& ranks_below(b, a, rank, counter)
}

pub(crate) proof fn lemma_flood_init(b: Seq<Tile>, a: Seq<Tile>, w: int, h: int, o: int)
    requires
        0 <= o < b.len(),
        b[o].spec_uncoverable(),
        a == b.update(o, down(b[o])),
        a[o].object is Blank,
    ensures
        flood_inv(b, a, nbs_of(w, h, o), w, h, o, map![o => 0nat], 1),
{
    reveal(stack_pushed);
    reveal(pending_closed);
    reveal(ranks_below);
    let rank = map![o => 0nat];
    let stack = nbs_of(w, h, o);
    assert forall|i: int| 0 <= i < b.len() implies #[trigger] a[i] == b[i] || (b[i].spec_uncoverable() && a[i] == down(b[i])) by {
    }
    assert forall|i: int| 0 <= i < b.len() && #[trigger] newly(b, a, i) implies i == o by {
    }
    assert forall|m: int| 0 <= m < stack.len() implies pushed_by_blank(b, a, w, h, rank, 1, #[trigger] stack[m]) by {
        assert(nbs_of(w, h, o).contains(stack[m]));
    }
    assert forall|j: int, k: int|
        0 <= j < b.len() && newly(b, a, j) && a[j].object is Blank && 0 <= k < nbs_of(w, h, j).len()
            implies !a[index_of(w, #[trigger] nbs_of(w, h, j)[k])].spec_uncoverable() || stack.contains(
            nbs_of(w, h, j)[k],
        ) by {
        assert(j == o);
    }
}

pub(crate) proof fn lemma_flood_skip(
    b: Seq<Tile>,
    a: Seq<Tile>,
    stack: Seq<(usize, usize)>,
    w: int,
    h: int,
    o: int,
    rank: Map<int, nat>,
    counter: nat,
)
    requires
        flood_inv(b, a, stack, w, h, o, rank, counter),
        stack.len() > 0,
        stack.last().0 < w,
        0 <= index_of(w, stack.last()) < a.len(),
        !a[index_of(w, stack.last())].spec_uncoverable(),
    ensures
        flood_inv(b, a, stack.drop_last(), w, h, o, rank, counter),
{
    reveal(stack_pushed);
    reveal(pending_closed);
    let s2 = stack.drop_last();
    let p = stack.last();
    assert forall|m: int| 0 <= m < s2.len() implies pushed_by_blank(b, a, w, h, rank, counter, #[trigger] s2[m]) by {
        assert(s2[m] == stack[m]);
    }
    assert forall|j: int, k: int|
        0 <= j < b.len() && newly(b, a, j) && a[j].object is Blank && 0 <= k < nbs_of(w, h, j).len()
            implies !a[index_of(w, #[trigger] nbs_of(w, h, j)[k])].spec_uncoverable() || s2.contains(
            nbs_of(w, h, j)[k],
        ) by {
        let q = nbs_of(w, h, j)[k];
        if a[index_of(w, q)].spec_uncoverable() {
            assert(stack.contains(q));
            assert(q != p);
            let m = choose|m: int| 0 <= m < stack.len() && stack[m] == q;
            assert(s2[m] == q);
        }
    }
}

pub(crate) proof fn lemma_flood_step(
    b: Seq<Tile>,
    a: Seq<Tile>,
    a2: Seq<Tile>,
    stack: Seq<(usize, usize)>,
    pushed: Seq<(usize, usize)>,
    w: int,
    h: int,
    o: int,
    i: int,
    rank: Map<int, nat>,
    counter: nat,
)
    requires
        flood_inv(b, a, stack, w, h, o, rank, counter),
        stack.len() > 0,
        0 < w <= usize::MAX,
        h <= usize::MAX,
        b.len() == w * h,
        stack.last().0 < w,
        stack.last().1 < h,
        i == index_of(w, stack.last()),
        pos_of(w, i) == stack.last(),
        0 <= i < a.len(),
        a[i].spec_uncoverable(),
        a2 == a.update(i, down(a[i])),
        pushed == (if a[i].object is Blank {
            nbs_of(w, h, i)
        } else {
            seq![]
        }),
    ensures
        flood_inv(b, a2, stack.drop_last() + pushed, w, h, o, rank.insert(i, counter), counter + 1),
{
    lemma_flood_step_stack(b, a, a2, stack, pushed, w, h, o, i, rank, counter);
    lemma_flood_step_closure(b, a, a2, stack, pushed, w, h, o, i, rank, counter);
    lemma_flood_step_support(b, a, a2, stack, pushed, w, h, o, i, rank, counter);
    assert(a[i] == b[i]);
    assert forall|k: int| 0 <= k < b.len() implies #[trigger] a2[k] == b[k] || (b[k].spec_uncoverable() && a2[k] == down(b[k])) by {
        if k != i {
            assert(a2[k] == a[k]);
        }
    }
    assert(newly(b, a2, o));
}

pub(crate) proof fn lemma_flood_step_stack(
    b: Seq<Tile>,
    a: Seq<Tile>,
    a2: Seq<Tile>,
    stack: Seq<(usize, usize)>,
    pushed: Seq<(usize, usize)>,
    w: int,
    h: int,
    o: int,
    i: int,
    rank: Map<int, nat>,
    counter: nat,
)
    requires
        flood_inv(b, a, stack, w, h, o, rank, counter),
        stack.len() > 0,
        0 < w <= usize::MAX,
        h <= usize::MAX,
        b.len() == w * h,
        stack.last().0 < w,
        stack.last().1 < h,
        i == index_of(w, stack.last()),
        pos_of(w, i) == stack.last(),
        0 <= i < a.len(),
        a[i].spec_uncoverable(),
        a2 == a.update(i, down(a[i])),
        pushed == (if a[i].object is Blank {
            nbs_of(w, h, i)
        } else {
            seq![]
        }),
    ensures
        stack_pushed(b, a2, stack.drop_last() + pushed, w, h, rank.insert(i, counter), counter + 1),
{
    reveal(stack_pushed);
    let s2 = stack.drop_last() + pushed;
    let r2 = rank.insert(i, counter);
    let p = stack.last();
    assert(a[i] == b[i]);
    assert forall|k: int| 0 <= k < b.len() && #[trigger] newly(b, a, k) implies newly(b, a2, k) && k != i by {
    }
    // the stack
    assert forall|m: int| 0 <= m < s2.len() implies pushed_by_blank(b, a2, w, h, r2, counter + 1, #[trigger] s2[m]) by {
        if m < stack.len() - 1 {
            assert(s2[m] == stack[m]);
            assert(pushed_by_blank(b, a, w, h, rank, counter, stack[m]));
            let j = choose|j: int|
                0 <= j < b.len() && newly(b, a, j) && a[j].object is Blank && rank.contains_key(j) && rank[j] < counter
                    && #[trigger] nbs_of(w, h, j).contains(stack[m]);
            assert(newly(b, a2, j));
            assert(a2[j] == a[j]);
        } else {
            let k = m - (stack.len() - 1);
            assert(s2[m] == pushed[k]);
            assert(nbs_of(w, h, i).contains(s2[m]));
            assert(newly(b, a2, i));
        }
    }
}

pub(crate) proof fn lemma_flood_step_closure(
    b: Seq<Tile>,
    a: Seq<Tile>,
    a2: Seq<Tile>,
    stack: Seq<(usize, usize)>,
    pushed: Seq<(usize, usize)>,
    w: int,
    h: int,
    o: int,
    i: int,
    rank: Map<int, nat>,
    counter: nat,
)
    requires
        flood_inv(b, a, stack, w, h, o, rank, counter),
        stack.len() > 0,
        0 < w <= usize::MAX,
        h <= usize::MAX,
        b.len() == w * h,
        stack.last().0 < w,
        stack.last().1 < h,
        i == index_of(w, stack.last()),
        pos_of(w, i) == stack.last(),
        0 <= i < a.len(),
        a[i].spec_uncoverable(),
        a2 == a.update(i, down(a[i])),
        pushed == (if a[i].object is Blank {
            nbs_of(w, h, i)
        } else {
            seq![]
        }),
    ensures
        pending_closed(b, a2, stack.drop_last() + pushed, w, h),
{
    reveal(pending_closed);
    let s2 = stack.drop_last() + pushed;
    let r2 = rank.insert(i, counter);
    let p = stack.last();
    assert(a[i] == b[i]);
    assert forall|k: int| 0 <= k < b.len() && #[trigger] newly(b, a, k) implies newly(b, a2, k) && k != i by {
    }
    // pending closure
    assert forall|j: int, k: int|
        0 <= j < b.len() && newly(b, a2, j) && a2[j].object is Blank && 0 <= k < nbs_of(w, h, j).len()
            implies !a2[index_of(w, #[trigger] nbs_of(w, h, j)[k])].spec_uncoverable() || s2.contains(
            nbs_of(w, h, j)[k],
        ) by {
        let q = nbs_of(w, h, j)[k];
        if j == i {
            assert(s2[stack.len() - 1 + k] == q);
        } else {
            assert(newly(b, a, j));
            assert(a2[j] == a[j]);
            lemma_coords_of_index(w, h, j);
            lemma_neighbor_indices(w, h, j % w, j / w);
            if a2[index_of(w, q)].spec_uncoverable() {
                assert(index_of(w, q) != i);
                assert(a[index_of(w, q)].spec_uncoverable());
                assert(stack.contains(q));
                assert(q != p);
                let m = choose|m: int| 0 <= m < stack.len() && stack[m] == q;
                assert(s2[m] == q);
            }
        }
    }
}

pub(crate) proof fn lemma_flood_step_support(
    b: Seq<Tile>,
    a: Seq<Tile>,
    a2: Seq<Tile>,
    stack: Seq<(usize, usize)>,
    pushed: Seq<(usize, usize)>,
    w: int,
    h: int,
    o: int,
    i: int,
    rank: Map<int, nat>,
    counter: nat,
)
    requires
        flood_inv(b, a, stack, w, h, o, rank, counter),
        stack.len() > 0,
        0 < w <= usize::MAX,
        h <= usize::MAX,
        b.len() == w * h,
        stack.last().0 < w,
        stack.last().1 < h,
        i == index_of(w, stack.last()),
        pos_of(w, i) == stack.last(),
        0 <= i < a.len(),
        a[i].spec_uncoverable(),
        a2 == a.update(i, down(a[i])),
        pushed == (if a[i].object is Blank {
            nbs_of(w, h, i)
        } else {
            seq![]
        }),
    ensures
        reveal_supported(b, a2, w, h, set![o], rank.insert(i, counter)),
        ranks_below(b, a2, rank.insert(i, counter), counter + 1),
{
    reveal(stack_pushed);
    reveal(ranks_below);
    let s2 = stack.drop_last() + pushed;
    let r2 = rank.insert(i, counter);
    let p = stack.last();
    assert(a[i] == b[i]);
    assert forall|k: int| 0 <= k < b.len() && #[trigger] newly(b, a, k) implies newly(b, a2, k) && k != i by {
    }
    // support
    assert(pushed_by_blank(b, a, w, h, rank, counter, stack[stack.len() - 1]));
    let j0 = choose|j: int|
        0 <= j < b.len() && newly(b, a, j) && a[j].object is Blank && rank.contains_key(j) && rank[j] < counter
            && #[trigger] nbs_of(w, h, j).contains(stack[stack.len() - 1]);
    assert forall|k: int| 0 <= k < b.len() && #[trigger] newly(b, a2, k) implies r2.contains_key(k) && (set![o].contains(k)
        || exists|j: int|
        0 <= j < b.len() && newly(b, a2, j) && a2[j].object is Blank && r2.contains_key(j) && r2[j] < r2[k]
            && #[trigger] nbs_of(w, h, j).contains(pos_of(w, k))) by {
        if k == i {
            assert(newly(b, a2, j0) && a2[j0] == a[j0]);
        } else {
            assert(newly(b, a, k));
            if !set![o].contains(k) {
                let j = choose|j: int|
                    0 <= j < b.len() && newly(b, a, j) && a[j].object is Blank && rank.contains_key(j)
                        && rank[j] < rank[k] && #[trigger] nbs_of(w, h, j).contains(pos_of(w, k));
                assert(newly(b, a2, j) && a2[j] == a[j]);
            }
        }
    }
    assert forall|k: int| 0 <= k < b.len() && #[trigger] newly(b, a2, k) implies r2[k] < counter + 1 by {
        if k != i {
            assert(newly(b, a, k));
        }
    }
}

pub(crate) proof fn lemma_flood_done(
    b: Seq<Tile>,
    a: Seq<Tile>,
    stack: Seq<(usize, usize)>,
    w: int,
    h: int,
    o: int,
    rank: Map<int, nat>,
    counter: nat,
)
    requires
        flood_inv(b, a, stack, w, h, o, rank, counter),
        stack.len() == 0,
    ensures
        revealed(b, a, w, h, set![o]),
{
    reveal(pending_closed);
    assert forall|i: int| 0 <= i < b.len() && #[trigger] set![o].contains(i) implies !a[i].spec_uncoverable() by {
        assert(i == o);
    }
}

/// Revealing nothing new: seeds that cannot be uncovered leave the board as it is.
pub(crate) proof fn lemma_reveal_none(b: Seq<Tile>, w: int, h: int, seeds: Set<int>)
    requires
        forall|i: int| 0 <= i < b.len() && #[trigger] seeds.contains(i) ==> !b[i].spec_uncoverable(),
    ensures
        revealed(b, b, w, h, seeds),
{
    assert(reveal_supported(b, b, w, h, seeds, Map::empty()));
}

/// Uncovering a single tile that is not blank.
pub(crate) proof fn lemma_reveal_single(b: Seq<Tile>, a: Seq<Tile>, w: int, h: int, o: int)
    requires
        0 <= o < b.len(),
        b[o].spec_uncoverable(),
        a == b.update(o, down(b[o])),
        !(b[o].object is Blank),
    ensures
        revealed(b, a, w, h, set![o]),
{
    assert forall|i: int| 0 <= i < b.len() && #[trigger] newly(b, a, i) implies i == o by {
    }
    assert(reveal_supported(b, a, w, h, set![o], map![o => 0nat]));
    assert forall|i: int| 0 <= i < b.len() implies #[trigger] a[i] == b[i] || (b[i].spec_uncoverable() && a[i] == down(b[i])) by {
    }
}

/// Two reveals in a row are one reveal from the union of their seeds.
pub(crate) proof fn lemma_reveal_compose(
    b: Seq<Tile>,
    c: Seq<Tile>,
    d: Seq<Tile>,
    w: int,
    h: int,
    s1: Set<int>,
    s2: Set<int>,
)
    requires
        0 < w <= usize::MAX,
        h <= usize::MAX,
        b.len() == w * h,
        revealed(b, c, w, h, s1),
        revealed(c, d, w, h, s2),
    ensures
        revealed(b, d, w, h, s1.union(s2)),
{
    let r1 = choose|r: Map<int, nat>| reveal_supported(b, c, w, h, s1, r);
    let r2 = choose|r: Map<int, nat>| reveal_supported(c, d, w, h, s2, r);
    let r = Map::new(|i: int| 0 <= i < b.len() && newly(b, d, i), |i: int| if newly(b, c, i) { r1[i] } else { r2[i] });
    assert forall|i: int| 0 <= i < b.len() implies #[trigger] d[i] == b[i] || (b[i].spec_uncoverable() && d[i] == down(b[i])) by {
        assert(c[i] == b[i] || (b[i].spec_uncoverable() && c[i] == down(b[i])));
        assert(d[i] == c[i] || (c[i].spec_uncoverable() && d[i] == down(c[i])));
    }
    assert forall|i: int| 0 <= i < b.len() && #[trigger] newly(b, d, i) implies newly(b, c, i) || newly(c, d, i) by {
        assert(c[i] == b[i] || (b[i].spec_uncoverable() && c[i] == down(b[i])));
    }
    assert forall|i: int| 0 <= i < b.len() && #[trigger] newly(b, c, i) implies newly(b, d, i) && !newly(c, d, i) && d[i] == c[i] by {
        assert(d[i] == c[i] || (c[i].spec_uncoverable() && d[i] == down(c[i])));
    }
    assert forall|i: int| 0 <= i < b.len() && #[trigger] newly(c, d, i) implies newly(b, d, i) && c[i] == b[i] by {
        assert(c[i] == b[i] || (b[i].spec_uncoverable() && c[i] == down(b[i])));
    }
    assert forall|i: int| 0 <= i < b.len() && #[trigger] s1.union(s2).contains(i) implies !d[i].spec_uncoverable() by {
        assert(d[i] == c[i] || (c[i].spec_uncoverable() && d[i] == down(c[i])));
        if s1.contains(i) {
            assert(!c[i].spec_uncoverable());
        } else {
            assert(s2.contains(i));
        }
    }
    assert forall|j: int, k: int|
        0 <= j < b.len() && newly(b, d, j) && d[j].object is Blank && 0 <= k < nbs_of(w, h, j).len()
            implies !d[index_of(w, #[trigger] nbs_of(w, h, j)[k])].spec_uncoverable() by {
        let q = index_of(w, nbs_of(w, h, j)[k]);
        lemma_coords_of_index(w, h, j);
        lemma_neighbor_indices(w, h, j % w, j / w);
        if newly(b, c, j) {
            assert(c[j].object is Blank);
            assert(!c[q].spec_uncoverable());
            if 0 <= q < b.len() {
                assert(d[q] == c[q] || (c[q].spec_uncoverable() && d[q] == down(c[q])));
            }
        }
    }
    assert forall|i: int| 0 <= i < b.len() && #[trigger] newly(b, d, i) implies r.contains_key(i) && (s1.union(s2).contains(i)
        || exists|j: int|
        0 <= j < b.len() && newly(b, d, j) && d[j].object is Blank && r.contains_key(j) && r[j] < r[i]
            && #[trigger] nbs_of(w, h, j).contains(pos_of(w, i))) by {
        if newly(b, c, i) {
            if !s1.contains(i) {
                let j = choose|j: int|
                    0 <= j < b.len() && newly(b, c, j) && c[j].object is Blank && r1.contains_key(j) && r1[j] < r1[i]
                        && #[trigger] nbs_of(w, h, j).contains(pos_of(w, i));
                assert(newly(b, d, j) && d[j] == c[j]);
            }
        } else {
            assert(newly(c, d, i));
            if !s2.contains(i) {
                let j = choose|j: int|
                    0 <= j < b.len() && newly(c, d, j) && d[j].object is Blank && r2.contains_key(j) && r2[j] < r2[i]
                        && #[trigger] nbs_of(w, h, j).contains(pos_of(w, i));
                assert(newly(b, d, j));
                assert(!newly(b, c, j));
            }
        }
    }
    assert(reveal_supported(b, d, w, h, s1.union(s2), r));
}

pub(crate) proof fn lemma_frame_objects(b: Seq<Tile>, a: Seq<Tile>)
    requires
        reveal_frame(b, a),
    ensures
        objects(a) == objects(b),
        forall|i: int| 0 <= i < b.len() && (#[trigger] a[i]).cover is Up ==> b[i].cover is Up,
{
    assert(objects(a) =~= objects(b));
}

} // verus!
