//! Geometry of the board: positions, indices and the eight-neighbourhood.
use vstd::prelude::*;

use crate::minefield::{Object, Tile};

verus! {

/// The position `(x, y)`, if it lies on a board of `w` by `h` tiles.
pub open spec fn cell(w: int, h: int, x: int, y: int) -> Seq<(usize, usize)> {
    if 0 <= x < w && 0 <= y < h {
        seq![(x as usize, y as usize)]
    } else {
        seq![]
    }
}

/// The up to eight tiles horizontally, vertically or diagonally adjacent to
/// `(x, y)` on a board of `w` by `h` tiles, in a fixed order.
pub open spec fn neighbor_seq(w: int, h: int, x: int, y: int) -> Seq<(usize, usize)> {
    cell(w, h, x - 1, y - 1) + cell(w, h, x - 1, y) + cell(w, h, x - 1, y + 1) + cell(
        w,
        h,
        x,
        y - 1,
    ) + cell(w, h, x, y + 1) + cell(w, h, x + 1, y - 1) + cell(w, h, x + 1, y) + cell(
        w,
        h,
        x + 1,
        y + 1,
    )
}

/// Index of tile `(x, y)` in the row-major sequence of a board `w` tiles wide.
pub open spec fn index_of(w: int, p: (usize, usize)) -> int {
    p.1 * w + p.0
}

/// Number of positions of `ps` that hold a mine.
pub open spec fn mines_among(objs: Seq<Object>, w: int, ps: Seq<(usize, usize)>) -> nat
    decreases ps.len(),
{
    if ps.len() == 0 {
        0
    } else {
        mines_among(objs, w, ps.drop_last()) + if objs[index_of(w, ps.last())] is Mine {
            1nat
        } else {
            0nat
        }
    }
}

/// Number of positions of `ps` that hold a flag.
pub open spec fn flags_among(tiles: Seq<Tile>, w: int, ps: Seq<(usize, usize)>) -> nat
    decreases ps.len(),
{
    if ps.len() == 0 {
        0
    } else {
        flags_among(tiles, w, ps.drop_last()) + if tiles[index_of(w, ps.last())].spec_flagged() {
            1nat
        } else {
            0nat
        }
    }
}

/// Neighbours of the tile with index `i`.
pub open spec fn nbs_of(w: int, h: int, i: int) -> Seq<(usize, usize)> {
    neighbor_seq(w, h, i % w, i / w)
}

/// Position of the tile with index `i`.
pub open spec fn pos_of(w: int, i: int) -> (usize, usize) {
    ((i % w) as usize, (i / w) as usize)
}

/// The indices of the positions in `ps`.
pub open spec fn index_set(w: int, ps: Seq<(usize, usize)>) -> Set<int> {
    Set::new(|i: int| exists|m: int| 0 <= m < ps.len() && #[trigger] index_of(w, ps[m]) == i)
}

/// `c + d`, if it lies in `0..limit`.
pub(crate) fn shift(c: usize, d: i8, limit: usize) -> (r: Option<usize>)
    requires
        c < limit,
        -1 <= d <= 1,
    ensures
        r == (if 0 <= c + d < limit {
            Some((c + d) as usize)
        } else {
            None::<usize>
        }),
{
    if d < 0 {
        if c == 0 {
            None
        } else {
            Some(c - 1)
        }
    } else if d > 0 {
        if c + 1 < limit {
            Some(c + 1)
        } else {
            None
        }
    } else {
        Some(c)
    }
}

/// Appends `(x + dx, y + dy)` to `v` if it lies on the board.
pub(crate) fn push_cell(v: &mut Vec<(usize, usize)>, w: usize, h: usize, x: usize, y: usize, dx: i8, dy: i8)
    requires
        x < w,
        y < h,
        -1 <= dx <= 1,
        -1 <= dy <= 1,
    ensures
        final(v)@ == old(v)@ + cell(w as int, h as int, x + dx, y + dy),
{
    match (shift(x, dx, w), shift(y, dy, h)) {
        (Some(nx), Some(ny)) => {
            v.push((nx, ny));
            assert(final(v)@ =~= old(v)@ + cell(w as int, h as int, x + dx, y + dy));
        },
        _ => {
            assert(old(v)@ =~= old(v)@ + cell(w as int, h as int, x + dx, y + dy));
        },
    }
}

/// `p` is on the board, next to `(x, y)` and not `(x, y)` itself.
pub open spec fn adjacent(w: int, h: int, x: int, y: int, p: (usize, usize)) -> bool {
    &&& p.0 < w && p.1 < h
    &&& x - 1 <= p.0 <= x + 1
    &&& y - 1 <= p.1 <= y + 1
    &&& (p.0 != x || p.1 != y)
}

pub(crate) open spec fn lex_lt(p: (int, int), q: (int, int)) -> bool {
    p.0 < q.0 || (p.0 == q.0 && p.1 < q.1)
}

pub(crate) open spec fn pair(p: (usize, usize)) -> (int, int) {
    (p.0 as int, p.1 as int)
}

/// Every element is adjacent to `(x, y)`, and the elements increase strictly,
/// up to `top` at most.
#[verifier::opaque]
pub(crate) open spec fn sorted_adjacent(s: Seq<(usize, usize)>, w: int, h: int, x: int, y: int, top: (int, int)) -> bool {
    &&& forall|k: int| 0 <= k < s.len() ==> adjacent(w, h, x, y, #[trigger] s[k])
    &&& forall|k: int| 0 <= k < s.len() ==> !lex_lt(top, pair(#[trigger] s[k]))
    &&& forall|i: int, j: int| 0 <= i < j < s.len() ==> lex_lt(pair(#[trigger] s[i]), pair(#[trigger] s[j]))
}

pub(crate) proof fn lemma_append_cell(
    s: Seq<(usize, usize)>,
    w: int,
    h: int,
    x: int,
    y: int,
    prev: (int, int),
    dx: int,
    dy: int,
)
    requires
        0 <= x < w <= usize::MAX,
        0 <= y < h <= usize::MAX,
        -1 <= dx <= 1,
        -1 <= dy <= 1,
        dx != 0 || dy != 0,
        sorted_adjacent(s, w, h, x, y, prev),
        lex_lt(prev, (x + dx, y + dy)),
    ensures
        sorted_adjacent(s + cell(w, h, x + dx, y + dy), w, h, x, y, (x + dx, y + dy)),
        (s + cell(w, h, x + dx, y + dy)).len() <= s.len() + 1,
{
    reveal(sorted_adjacent);
    let c = cell(w, h, x + dx, y + dy);
    let t = s + c;
    if c.len() == 0 {
        assert(t =~= s);
    } else {
        assert(t =~= s.push(((x + dx) as usize, (y + dy) as usize)));
        assert forall|k: int| 0 <= k < t.len() implies adjacent(w, h, x, y, #[trigger] t[k]) by {
            if k < s.len() {
                assert(t[k] == s[k]);
            }
        }
        assert forall|k: int| 0 <= k < t.len() implies !lex_lt((x + dx, y + dy), pair(#[trigger] t[k])) by {
            if k < s.len() {
                assert(t[k] == s[k]);
            }
        }
        assert forall|i: int, j: int| 0 <= i < j < t.len() implies lex_lt(
            pair(#[trigger] t[i]),
            pair(#[trigger] t[j]),
        ) by {
            assert(t[i] == s[i]);
            if j < s.len() {
                assert(t[j] == s[j]);
            }
        }
    }
}

/// The neighbours of a tile are on the board, adjacent to it, distinct from
/// each other, and at most eight.
pub proof fn lemma_neighbor_seq(w: int, h: int, x: int, y: int)
    requires
        0 <= x < w <= usize::MAX,
        0 <= y < h <= usize::MAX,
    ensures
        neighbor_seq(w, h, x, y).len() <= 8,
        neighbor_seq(w, h, x, y).no_duplicates(),
        forall|k: int|
            0 <= k < neighbor_seq(w, h, x, y).len() ==> adjacent(w, h, x, y, #[trigger] neighbor_seq(w, h, x, y)[k]),
{
    let s0: Seq<(usize, usize)> = seq![];
    assert(sorted_adjacent(s0, w, h, x, y, (x - 2, y))) by {
        reveal(sorted_adjacent);
    }
    lemma_append_cell(s0, w, h, x, y, (x - 2, y), -1, -1);
    let s1 = s0 + cell(w, h, x - 1, y - 1);
    lemma_append_cell(s1, w, h, x, y, (x - 1, y - 1), -1, 0);
    let s2 = s1 + cell(w, h, x - 1, y);
    lemma_append_cell(s2, w, h, x, y, (x - 1, y), -1, 1);
    let s3 = s2 + cell(w, h, x - 1, y + 1);
    lemma_append_cell(s3, w, h, x, y, (x - 1, y + 1), 0, -1);
    let s4 = s3 + cell(w, h, x, y - 1);
    lemma_append_cell(s4, w, h, x, y, (x, y - 1), 0, 1);
    let s5 = s4 + cell(w, h, x, y + 1);
    lemma_append_cell(s5, w, h, x, y, (x, y + 1), 1, -1);
    let s6 = s5 + cell(w, h, x + 1, y - 1);
    lemma_append_cell(s6, w, h, x, y, (x + 1, y - 1), 1, 0);
    let s7 = s6 + cell(w, h, x + 1, y);
    lemma_append_cell(s7, w, h, x, y, (x + 1, y), 1, 1);
    let s8 = s7 + cell(w, h, x + 1, y + 1);
    assert(s1 =~= cell(w, h, x - 1, y - 1));
    assert(s8 =~= neighbor_seq(w, h, x, y));
    lemma_sorted_no_duplicates(s8, w, h, x, y, (x + 1, y + 1));
}

pub(crate) proof fn lemma_sorted_no_duplicates(s: Seq<(usize, usize)>, w: int, h: int, x: int, y: int, top: (int, int))
    requires
        sorted_adjacent(s, w, h, x, y, top),
    ensures
        s.no_duplicates(),
        forall|k: int| 0 <= k < s.len() ==> adjacent(w, h, x, y, #[trigger] s[k]),
{
    reveal(sorted_adjacent);
    assert forall|i: int, j: int| 0 <= i < s.len() && 0 <= j < s.len() && i != j implies s[i] != s[j] by {
        if i < j {
            assert(lex_lt(pair(s[i]), pair(s[j])));
        } else {
            assert(lex_lt(pair(s[j]), pair(s[i])));
        }
    }
}

pub(crate) proof fn lemma_mines_among_le(objs: Seq<Object>, w: int, ps: Seq<(usize, usize)>)
    ensures
        mines_among(objs, w, ps) <= ps.len(),
    decreases ps.len(),
{
    if ps.len() > 0 {
        lemma_mines_among_le(objs, w, ps.drop_last());
    }
}

/// Two object sequences with the same mines count the same mines anywhere.
pub(crate) proof fn lemma_mines_among_ext(o1: Seq<Object>, o2: Seq<Object>, w: int, ps: Seq<(usize, usize)>)
    requires
        o1.len() == o2.len(),
        forall|i: int| 0 <= i < o1.len() ==> ((#[trigger] o1[i]) is Mine <==> o2[i] is Mine),
        forall|k: int| 0 <= k < ps.len() ==> 0 <= #[trigger] index_of(w, ps[k]) < o1.len(),
    ensures
        mines_among(o1, w, ps) == mines_among(o2, w, ps),
    decreases ps.len(),
{
    if ps.len() > 0 {
        let q = ps.drop_last();
        assert forall|k: int| 0 <= k < q.len() implies 0 <= #[trigger] index_of(w, q[k]) < o1.len() by {
            assert(q[k] == ps[k]);
        }
        lemma_mines_among_ext(o1, o2, w, q);
        assert(0 <= index_of(w, ps[ps.len() - 1]) < o1.len());
    }
}

/// The neighbours of a tile have indices on the board.
pub proof fn lemma_neighbor_indices(w: int, h: int, x: int, y: int)
    requires
        0 <= x < w <= usize::MAX,
        0 <= y < h <= usize::MAX,
    ensures
        forall|k: int|
            0 <= k < neighbor_seq(w, h, x, y).len() ==> 0 <= #[trigger] index_of(
                w,
                neighbor_seq(w, h, x, y)[k],
            ) < w * h,
{
    lemma_neighbor_seq(w, h, x, y);
    assert forall|k: int| 0 <= k < neighbor_seq(w, h, x, y).len() implies 0 <= #[trigger] index_of(
        w,
        neighbor_seq(w, h, x, y)[k],
    ) < w * h by {
        let p = neighbor_seq(w, h, x, y)[k];
        assert(adjacent(w, h, x, y, p));
        lemma_index_in_bounds(w, h, p.0 as int, p.1 as int);
    }
}

/// Distinct tiles on the board have distinct indices.
pub(crate) proof fn lemma_index_injective(w: int, p: (usize, usize), q: (usize, usize))
    requires
        p.0 < w,
        q.0 < w,
        index_of(w, p) == index_of(w, q),
    ensures
        p == q,
{
    let (a, b, c, d) = (p.0 as int, p.1 as int, q.0 as int, q.1 as int);
    assert(b == d) by (nonlinear_arith)
        requires
            0 <= a < w,
            0 <= c < w,
            0 <= b,
            0 <= d,
            b * w + a == d * w + c,
    {
        if b < d {
            assert(b * w + w <= d * w);
        } else if b > d {
            assert(d * w + w <= b * w);
        }
    }
}

/// The indices of the neighbours of `(x, y)`, followed by its own, are
/// distinct and on the board.
pub(crate) proof fn lemma_skip_distinct(nbs: Seq<(usize, usize)>, sk: Seq<usize>, w: int, h: int, x: int, y: int)
    requires
        0 <= x < w <= usize::MAX,
        0 <= y < h <= usize::MAX,
        nbs.no_duplicates(),
        forall|j: int| 0 <= j < nbs.len() ==> adjacent(w, h, x, y, #[trigger] nbs[j]),
        sk.len() == nbs.len() + 1,
        forall|j: int| 0 <= j < nbs.len() ==> #[trigger] sk[j] == index_of(w, nbs[j]),
        sk[nbs.len() as int] == y * w + x,
    ensures
        sk.no_duplicates(),
        forall|j: int| 0 <= j < sk.len() ==> #[trigger] sk[j] < w * h,
{
    assert forall|a: int, b: int| 0 <= a < sk.len() && 0 <= b < sk.len() && a != b implies sk[a] != sk[b] by {
        let pa = if a < nbs.len() { nbs[a] } else { (x as usize, y as usize) };
        let pb = if b < nbs.len() { nbs[b] } else { (x as usize, y as usize) };
        if a < nbs.len() {
            assert(adjacent(w, h, x, y, nbs[a]));
        }
        if b < nbs.len() {
            assert(adjacent(w, h, x, y, nbs[b]));
        }
        assert(sk[a] == index_of(w, pa));
        assert(sk[b] == index_of(w, pb));
        if sk[a] == sk[b] {
            lemma_index_injective(w, pa, pb);
        }
    }
    assert forall|j: int| 0 <= j < sk.len() implies #[trigger] sk[j] < w * h by {
        if j < nbs.len() {
            assert(adjacent(w, h, x, y, nbs[j]));
            lemma_index_in_bounds(w, h, nbs[j].0 as int, nbs[j].1 as int);
        } else {
            lemma_index_in_bounds(w, h, x, y);
        }
    }
}

/// Index and position of a tile on the board correspond.
pub proof fn lemma_pos_index(w: int, h: int, p: (usize, usize))
    requires
        p.0 < w,
        p.1 < h,
    ensures
        index_of(w, p) % w == p.0,
        index_of(w, p) / w == p.1,
        pos_of(w, index_of(w, p)) == p,
        0 <= index_of(w, p) < w * h,
{
    vstd::arithmetic::div_mod::lemma_fundamental_div_mod_converse(index_of(w, p), w, p.1 as int, p.0 as int);
    lemma_index_in_bounds(w, h, p.0 as int, p.1 as int);
}

/// Column and row of index `i` lie on the board.
pub proof fn lemma_coords_of_index(w: int, h: int, i: int)
    requires
        0 <= i < w * h,
        w > 0,
    ensures
        0 <= i % w < w,
        0 <= i / w < h,
{
    assert(0 <= i / w < h) by (nonlinear_arith)
        requires
            0 <= i < w * h,
            w > 0,
    ;
}

pub(crate) proof fn lemma_index_in_bounds(w: int, h: int, x: int, y: int)
    requires
        0 <= x < w,
        0 <= y < h,
    ensures
        0 <= y * w + x < w * h,
{
    assert(0 <= y * w + x < w * h) by (nonlinear_arith)
        requires
            0 <= x < w,
            0 <= y < h,
    ;
}

} // verus!
