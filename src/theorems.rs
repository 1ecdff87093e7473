//! General properties of the board, proved from the contracts of its operations.
use vstd::prelude::*;

use crate::counting::{
    count_where, covered_count, lemma_count_all, lemma_count_positive, lemma_covered_drop, moved_down,
    objects,
};
use crate::flood::{down, lemma_frame_objects, newly, reveal_supported, revealed};
use crate::grid::{
    adjacent, flags_among, index_of, index_set, lemma_coords_of_index, lemma_neighbor_seq,
    lemma_pos_index, mines_among, nbs_of, neighbor_seq, pos_of,
};
use crate::minefield::{adjacent_mines, hint_for, hints_consistent, next_mark, BoardView, Cover, Mark, Object, Tile};

verus! {

/// Tiles that are uncovered.
pub open spec fn uncovered_count(s: Seq<Tile>) -> nat {
    count_where(s, |t: Tile| t.cover is Down)
}

/// Covered tiles that hold no mine.
pub open spec fn safe_covered_count(s: Seq<Tile>) -> nat {
    count_where(s, |t: Tile| t.cover is Up && !(t.object is Mine))
}

/// Covered tiles that hold a mine.
pub open spec fn mine_covered_count(s: Seq<Tile>) -> nat {
    count_where(s, |t: Tile| t.cover is Up && t.object is Mine)
}

proof fn lemma_up_down(s: Seq<Tile>)
    ensures
        covered_count(s) + uncovered_count(s) == s.len(),
    decreases s.len(),
{
    if s.len() > 0 {
        lemma_up_down(s.drop_last());
    }
}

proof fn lemma_covered_split(s: Seq<Tile>)
    ensures
        covered_count(s) == safe_covered_count(s) + mine_covered_count(s),
    decreases s.len(),
{
    if s.len() > 0 {
        lemma_covered_split(s.drop_last());
    }
}

/// The covered counter equals the number of tiles minus the uncovered ones.
pub proof fn law_covered_complement(v: BoardView)
    requires
        v.wf(),
    ensures
        v.covered + uncovered_count(v.tiles) == v.params.size(),
{
    lemma_up_down(v.tiles);
}

/// A board is lost exactly when one of its mines has been uncovered.
pub proof fn law_defeat_iff_mine_uncovered(v: BoardView)
    requires
        v.wf(),
    ensures
        v.defeat <==> exists|i: int|
            0 <= i < v.tiles.len() && (#[trigger] v.tiles[i]).cover is Down && v.tiles[i].object is Mine,
{
    let f = |t: Tile| t.cover is Down && t.object is Mine;
    if exists|i: int| 0 <= i < v.tiles.len() && (#[trigger] v.tiles[i]).cover is Down && v.tiles[i].object is Mine {
        let i = choose|i: int| 0 <= i < v.tiles.len() && (#[trigger] v.tiles[i]).cover is Down && v.tiles[i].object is Mine;
        lemma_count_positive(v.tiles, i, f);
    } else {
        lemma_count_all(v.tiles, f);
    }
}

/// On a board with its mines placed and not lost, the victory condition
/// (as many covered tiles as mines) holds exactly when every tile without a
/// mine is uncovered; flags play no part.
pub proof fn law_victory_iff_all_safe_uncovered(v: BoardView)
    requires
        v.wf(),
        v.placed,
        !v.defeat,
    ensures
        (v.covered == v.params.mines) <==> forall|i: int|
            0 <= i < v.tiles.len() && !((#[trigger] v.tiles[i]).object is Mine) ==> v.tiles[i].cover is Down,
{
    law_defeat_iff_mine_uncovered(v);
    lemma_covered_split(v.tiles);
    assert forall|i: int| 0 <= i < v.tiles.len() && (#[trigger] v.tiles[i]).object is Mine implies v.tiles[i].cover is Up by {
    }
    crate::counting::lemma_count_ext2(v.tiles, |t: Tile| t.cover is Up && t.object is Mine, |t: Tile| t.object is Mine);
    let safe_up = |t: Tile| t.cover is Up && !(t.object is Mine);
    if forall|i: int| 0 <= i < v.tiles.len() && !((#[trigger] v.tiles[i]).object is Mine) ==> v.tiles[i].cover is Down {
        lemma_count_all(v.tiles, safe_up);
    } else {
        let i = choose|i: int| 0 <= i < v.tiles.len() && !((#[trigger] v.tiles[i]).object is Mine) && !(v.tiles[i].cover is Down);
        lemma_count_positive(v.tiles, i, safe_up);
    }
}

/// While a placed board is not lost, every mine is still covered, so the
/// covered counter never drops below the number of mines.
pub proof fn law_covered_at_least_mines(v: BoardView)
    requires
        v.wf(),
        v.placed,
        !v.defeat,
    ensures
        v.covered >= v.params.mines,
{
    law_defeat_iff_mine_uncovered(v);
    lemma_covered_split(v.tiles);
    assert forall|i: int| 0 <= i < v.tiles.len() && (#[trigger] v.tiles[i]).object is Mine implies v.tiles[i].cover is Up by {
    }
    crate::counting::lemma_count_ext2(v.tiles, |t: Tile| t.cover is Up && t.object is Mine, |t: Tile| t.object is Mine);
}

/// Three secondary actions on the same covered tile of a board in play give
/// the board back as it was: the mark went Unmarked, Flag, Unsure and back
/// (or round from wherever it started), the flag counter rose by one and
/// fell by one.
pub proof fn law_secondary_three_cycles(v: BoardView, x: int, y: int)
    requires
        v.wf(),
        v.in_bounds(x, y),
        !v.defeat,
        v.at(x, y).cover is Up,
    ensures
        v.after_secondary(x, y).after_secondary(x, y).after_secondary(x, y) == v,
{
    let i = y * v.width() + x;
    assert(0 <= i < v.tiles.len()) by (nonlinear_arith)
        requires
            0 <= x < v.width(),
            0 <= y < v.height(),
            v.tiles.len() == v.width() * v.height(),
            i == y * v.width() + x,
    ;
    let v1 = v.after_secondary(x, y);
    let v2 = v1.after_secondary(x, y);
    let v3 = v2.after_secondary(x, y);
    let m = v.at(x, y).cover->Up_0;
    let t = v.tiles[i];
    if m == Mark::Flag {
        lemma_count_positive(v.tiles, i, |t: Tile| t.spec_flagged());
    }
    assert(v1.tiles[i] == Tile { cover: Cover::Up(next_mark(m)), object: t.object });
    assert(v2.tiles[i] == Tile { cover: Cover::Up(next_mark(next_mark(m))), object: t.object });
    assert(v3.tiles[i] == Tile { cover: Cover::Up(next_mark(next_mark(next_mark(m)))), object: t.object });
    assert(v3.tiles =~= v.tiles);
}

/// A lost board is frozen: neither kind of action changes it.
pub proof fn law_defeat_freezes(v: BoardView, a: BoardView, x: int, y: int)
    requires
        v.wf(),
        v.defeat,
        v.primary_post(a, x, y),
    ensures
        a == v,
        v.after_secondary(x, y) == v,
{
}

/// A chord on an uncovered hint: with as many flagged neighbours as the hint
/// says, every neighbour that is not flagged ends uncovered, mines included;
/// with any other number, nothing changes.
pub proof fn law_chord(v: BoardView, a: BoardView, x: int, y: int, n: u8)
    requires
        v.wf(),
        v.in_bounds(x, y),
        !v.defeat,
        v.at(x, y) == (Tile { cover: Cover::Down, object: crate::minefield::Object::Hint(n) }),
        v.primary_post(a, x, y),
    ensures
        flags_among(v.tiles, v.width(), neighbor_seq(v.width(), v.height(), x, y)) == n as nat ==> forall|k: int|
            0 <= k < neighbor_seq(v.width(), v.height(), x, y).len() ==> {
                let t = a.tiles[index_of(v.width(), #[trigger] neighbor_seq(v.width(), v.height(), x, y)[k])];
                t.cover is Down || t.cover == Cover::Up(Mark::Flag)
            },
        flags_among(v.tiles, v.width(), neighbor_seq(v.width(), v.height(), x, y)) != n as nat ==> a == v,
{
    let w = v.width();
    let h = v.height();
    let nbs = neighbor_seq(w, h, x, y);
    if flags_among(v.tiles, w, nbs) == n as nat {
        lemma_neighbor_seq(w, h, x, y);
        assert forall|k: int| 0 <= k < nbs.len() implies {
            let t = a.tiles[index_of(w, #[trigger] nbs[k])];
            t.cover is Down || t.cover == Cover::Up(Mark::Flag)
        } by {
            let p = nbs[k];
            assert(adjacent(w, h, x, y, p));
            crate::grid::lemma_pos_index(w, h, p);
            assert(index_set(w, nbs).contains(index_of(w, p)));
        }
    }
}

/// A primary action on a board in play only ever uncovers tiles: none goes
/// back up, and the covered counter drops by exactly the number of tiles
/// that went down; it stays the number of tiles minus the uncovered ones.
pub proof fn law_primary_covered(v: BoardView, a: BoardView, x: int, y: int)
    requires
        v.wf(),
        v.placed,
        a.wf(),
        v.primary_post(a, x, y),
    ensures
        forall|i: int| 0 <= i < v.tiles.len() && (#[trigger] a.tiles[i]).cover is Up ==> v.tiles[i].cover is Up,
        a.covered + moved_down(v.tiles, a.tiles, v.tiles.len() as int) == v.covered,
        a.covered + uncovered_count(a.tiles) == a.params.size(),
{
    if a == v {
        lemma_covered_drop(v.tiles, v.tiles);
    } else {
        lemma_frame_objects(v.tiles, a.tiles);
        lemma_covered_drop(v.tiles, a.tiles);
    }
    law_covered_complement(a);
}

/// Under `revealed` from the single seed `o` that is not blank, no tile but
/// the seed goes down: every other uncovered tile would need a blank
/// uncovered tile of lower rank next to it.
proof fn lemma_only_seed(b: Seq<Tile>, a: Seq<Tile>, w: int, h: int, o: int, rank: Map<int, nat>, bound: nat)
    requires
        reveal_supported(b, a, w, h, set![o], rank),
        0 <= o < a.len(),
        !(a[o].object is Blank),
    ensures
        forall|i: int| 0 <= i < b.len() && #[trigger] newly(b, a, i) && rank[i] <= bound ==> i == o,
    decreases bound,
{
    assert forall|i: int| 0 <= i < b.len() && #[trigger] newly(b, a, i) && rank[i] <= bound implies i == o by {
        if i != o {
            let j = choose|j: int|
                0 <= j < b.len() && newly(b, a, j) && a[j].object is Blank && rank.contains_key(j)
                    && rank[j] < rank[i] && #[trigger] nbs_of(w, h, j).contains(pos_of(w, i));
            assert(j != o);
            if bound > 0 {
                lemma_only_seed(b, a, w, h, o, rank, (bound - 1) as nat);
            }
        }
    }
}

/// Uncovering a mine on a board in play loses it, and nothing floods: only
/// the clicked tile goes down.
pub proof fn law_mine_click(v: BoardView, a: BoardView, x: int, y: int)
    requires
        v.wf(),
        v.placed,
        !v.defeat,
        v.in_bounds(x, y),
        v.at(x, y).spec_uncoverable(),
        v.at(x, y).object is Mine,
        v.primary_post(a, x, y),
        a.wf(),
    ensures
        a.defeat,
        a.at(x, y).cover is Down,
        forall|i: int| 0 <= i < v.tiles.len() && i != y * v.width() + x ==> #[trigger] a.tiles[i] == v.tiles[i],
{
    let w = v.width();
    let h = v.height();
    let o = y * w + x;
    lemma_pos_index(w, h, (x as usize, y as usize));
    let b = v.tiles;
    let t = a.tiles;
    assert(revealed(b, t, w, h, set![o]));
    let rank = choose|r: Map<int, nat>| reveal_supported(b, t, w, h, set![o], r);
    assert(t[o] == b[o] || (b[o].spec_uncoverable() && t[o] == down(b[o])));
    assert(set![o].contains(o));
    assert(t[o] == down(b[o]));
    assert forall|i: int| 0 <= i < b.len() && i != o implies #[trigger] t[i] == b[i] by {
        if newly(b, t, i) {
            lemma_only_seed(b, t, w, h, o, rank, rank[i]);
        }
    }
    lemma_count_positive(t, o, |t: Tile| t.cover is Down && t.object is Mine);
}

proof fn lemma_mines_among_zero(objs: Seq<Object>, w: int, ps: Seq<(usize, usize)>)
    requires
        mines_among(objs, w, ps) == 0,
    ensures
        forall|k: int| 0 <= k < ps.len() ==> !(objs[index_of(w, #[trigger] ps[k])] is Mine),
    decreases ps.len(),
{
    if ps.len() > 0 {
        lemma_mines_among_zero(objs, w, ps.drop_last());
        assert forall|k: int| 0 <= k < ps.len() implies !(objs[index_of(w, #[trigger] ps[k])] is Mine) by {
            if k < ps.len() - 1 {
                assert(ps.drop_last()[k] == ps[k]);
            }
        }
    }
}

/// A flood from a blank seed never uncovers a mine: each tile it uncovers is
/// next to an uncovered blank tile, and a blank tile has no mine next to it.
proof fn lemma_flood_no_mine(b: Seq<Tile>, t: Seq<Tile>, w: int, h: int, o: int)
    requires
        0 < w <= usize::MAX,
        h <= usize::MAX,
        b.len() == w * h,
        0 <= o < b.len(),
        b[o].object is Blank,
        hints_consistent(objects(b), w, h),
        revealed(b, t, w, h, set![o]),
    ensures
        forall|i: int| 0 <= i < b.len() && #[trigger] newly(b, t, i) ==> !(b[i].object is Mine),
{
    let rank = choose|r: Map<int, nat>| reveal_supported(b, t, w, h, set![o], r);
    assert forall|i: int| 0 <= i < b.len() && #[trigger] newly(b, t, i) implies !(b[i].object is Mine) by {
        if i != o {
            assert(!set![o].contains(i));
            let j = choose|j: int|
                0 <= j < b.len() && newly(b, t, j) && t[j].object is Blank && rank.contains_key(j)
                    && rank[j] < rank[i] && #[trigger] nbs_of(w, h, j).contains(pos_of(w, i));
            assert(t[j] == b[j] || (b[j].spec_uncoverable() && t[j] == down(b[j])));
            lemma_no_mine_next_to_blank(b, w, h, j, i);
        }
    }
}

proof fn lemma_index_of_pos(w: int, h: int, i: int)
    requires
        0 < w <= usize::MAX,
        h <= usize::MAX,
        0 <= i < w * h,
    ensures
        index_of(w, pos_of(w, i)) == i,
{
    lemma_coords_of_index(w, h, i);
    vstd::arithmetic::div_mod::lemma_fundamental_div_mod(i, w);
    let p = pos_of(w, i);
    assert(p.0 as int == i % w && p.1 as int == i / w);
    vstd::arithmetic::mul::lemma_mul_is_commutative(w, i / w);
}

/// A tile next to a blank tile holds no mine.
proof fn lemma_no_mine_next_to_blank(b: Seq<Tile>, w: int, h: int, j: int, i: int)
    requires
        0 < w <= usize::MAX,
        h <= usize::MAX,
        b.len() == w * h,
        0 <= j < b.len(),
        0 <= i < b.len(),
        b[j].object is Blank,
        hints_consistent(objects(b), w, h),
        nbs_of(w, h, j).contains(pos_of(w, i)),
    ensures
        !(b[i].object is Mine),
{
    let objs = objects(b);
    assert(objs[j] == b[j].object);
    assert(objs[j] == hint_for(adjacent_mines(objs, w, h, j)));
    lemma_mines_among_zero(objs, w, nbs_of(w, h, j));
    let k = choose|k: int| 0 <= k < nbs_of(w, h, j).len() && nbs_of(w, h, j)[k] == pos_of(w, i);
    lemma_index_of_pos(w, h, i);
    assert(objs[i] == b[i].object);
}

/// Uncovering a blank tile on a board in play uncovers its whole blank
/// region and the tiles bordering it: every uncovered blank tile is left
/// with no uncoverable neighbour; every other tile that went down is next to
/// an uncovered blank tile; no mine goes down, so the game goes on; marks
/// and objects stay.
pub proof fn law_flood_region(v: BoardView, a: BoardView, x: int, y: int)
    requires
        v.wf(),
        v.placed,
        !v.defeat,
        v.in_bounds(x, y),
        v.at(x, y).spec_uncoverable(),
        v.at(x, y).object is Blank,
        v.primary_post(a, x, y),
        a.wf(),
    ensures
        a.at(x, y).cover is Down,
        forall|i: int|
            0 <= i < v.tiles.len() ==> #[trigger] a.tiles[i] == v.tiles[i] || (v.tiles[i].spec_uncoverable()
                && a.tiles[i] == down(v.tiles[i])),
        forall|j: int, k: int|
            0 <= j < v.tiles.len() && newly(v.tiles, a.tiles, j) && a.tiles[j].object is Blank && 0 <= k < nbs_of(
                v.width(),
                v.height(),
                j,
            ).len() ==> !a.tiles[index_of(v.width(), #[trigger] nbs_of(v.width(), v.height(), j)[k])].spec_uncoverable(),
        forall|i: int|
            0 <= i < v.tiles.len() && #[trigger] newly(v.tiles, a.tiles, i) && i != y * v.width() + x ==> exists|j: int|
                0 <= j < v.tiles.len() && newly(v.tiles, a.tiles, j) && a.tiles[j].object is Blank
                    && #[trigger] nbs_of(v.width(), v.height(), j).contains(pos_of(v.width(), i)),
        forall|i: int| 0 <= i < v.tiles.len() && #[trigger] newly(v.tiles, a.tiles, i) ==> !(v.tiles[i].object is Mine),
        !a.defeat,
{
    let w = v.width();
    let h = v.height();
    let o = y * w + x;
    lemma_pos_index(w, h, (x as usize, y as usize));
    let b = v.tiles;
    let t = a.tiles;
    assert(revealed(b, t, w, h, set![o]));
    let rank = choose|r: Map<int, nat>| reveal_supported(b, t, w, h, set![o], r);
    assert(set![o].contains(o));
    assert(t[o] == b[o] || (b[o].spec_uncoverable() && t[o] == down(b[o])));
    assert forall|i: int| 0 <= i < b.len() && #[trigger] newly(b, t, i) && i != o implies exists|j: int|
        0 <= j < b.len() && newly(b, t, j) && t[j].object is Blank && #[trigger] nbs_of(w, h, j).contains(pos_of(w, i)) by {
        assert(!set![o].contains(i));
    }
    lemma_flood_no_mine(b, t, w, h, o);
    law_defeat_iff_mine_uncovered(v);
    law_defeat_iff_mine_uncovered(a);
    assert forall|i: int| 0 <= i < t.len() && (#[trigger] t[i]).cover is Down implies !(t[i].object is Mine) by {
        assert(t[i] == b[i] || (b[i].spec_uncoverable() && t[i] == down(b[i])));
        if t[i] == b[i] {
            if b[i].object is Mine {
                assert(b[i].cover is Down && b[i].object is Mine);
            }
        } else {
            assert(newly(b, t, i));
        }
    }
}

} // verus!
