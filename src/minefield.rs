//! The board: its tiles, mine and hint placement, the two player actions
//! and the victory and defeat conditions.
use vstd::prelude::*;

use nanorand::WyRand;

use crate::counting::{
    below, covered_count, exploded_count, flag_count, lemma_below_all, lemma_below_step,
    lemma_below_zero, lemma_count_all, lemma_count_ext, lemma_count_le_len, lemma_count_update,
    lemma_covered_drop, lemma_moved_down_covers, lemma_objects_update, mine_count, moved_down,
    objects, uncoverable_count,
};
use crate::flood::{
    down, flood_inv, lemma_flood_done, lemma_flood_init, lemma_flood_skip, lemma_flood_step,
    lemma_frame_objects, lemma_reveal_compose, lemma_reveal_none, lemma_reveal_single, revealed,
};
use crate::grid::{
    adjacent, flags_among, index_of, index_set, lemma_coords_of_index, lemma_index_in_bounds,
    lemma_mines_among_ext, lemma_mines_among_le, lemma_neighbor_indices, lemma_neighbor_seq,
    lemma_pos_index, lemma_skip_distinct, mines_among, neighbor_seq, push_cell,
};

verus! {

/// Width, height and number of mines of a board.
#[derive(Debug, Clone, Copy, PartialEq, Eq, Structural)]
pub struct Params {
    pub width: usize,
    pub height: usize,
    pub mines: usize,
}

impl Params {
    /// At least one tile is left without a mine, and the tiles can be counted in a `usize`.
    pub open spec fn valid(self) -> bool {
        &&& self.width * self.height <= usize::MAX
        &&& self.mines < self.width * self.height
    }

    pub open spec fn size(self) -> int {
        self.width * self.height
    }

    /// 8 by 8 tiles, 10 mines.
    pub fn beginner() -> (r: Params)
        ensures
            r == (Params { width: 8, height: 8, mines: 10 }),
    {
        Params { width: 8, height: 8, mines: 10 }
    }

    /// 16 by 16 tiles, 40 mines.
    pub fn intermediate() -> (r: Params)
        ensures
            r == (Params { width: 16, height: 16, mines: 40 }),
    {
        Params { width: 16, height: 16, mines: 40 }
    }

    /// 30 by 16 tiles, 99 mines.
    pub fn expert() -> (r: Params)
        ensures
            r == (Params { width: 30, height: 16, mines: 99 }),
    {
        Params { width: 30, height: 16, mines: 99 }
    }
}

#[derive(Debug, PartialEq, Eq, Clone, Copy, Structural)]
pub enum Mark {
    /// Mine flag, indicates full player certainty of a mine,
    /// and disables uncovering the marked tile, for safety.
    Flag,
    /// "Danger, probably" marker, for tiles that are suspicious,
    /// but not yet worthy of a [Mark::Flag].
    Unsure,
    Unmarked,
}

#[derive(Debug, PartialEq, Eq, Clone, Copy, Structural)]
pub enum Cover {
    Up(Mark),
    Down,
}

#[derive(Debug, PartialEq, Eq, Clone, Copy, Structural)]
pub enum Object {
    Mine,
    Hint(u8),
    Blank,
}

#[derive(Debug, PartialEq, Eq, Clone, Copy, Structural)]
pub struct Tile {
    pub cover: Cover,
    pub object: Object,
}

/// The mark that follows `m` in the cycle Unmarked, Flag, Unsure.
pub open spec fn next_mark(m: Mark) -> Mark {
    match m {
        Mark::Unmarked => Mark::Flag,
        Mark::Flag => Mark::Unsure,
        Mark::Unsure => Mark::Unmarked,
    }
}

impl Mark {
    pub fn cycle(&mut self)
        ensures
            *final(self) == next_mark(*old(self)),
    {
        *self = match self {
            Mark::Unmarked => Mark::Flag,
            Mark::Flag => Mark::Unsure,
            Mark::Unsure => Mark::Unmarked,
        };
    }
}

impl Tile {
    /// Covered, unmarked, no object.
    pub open spec fn pristine() -> Tile {
        Tile { cover: Cover::Up(Mark::Unmarked), object: Object::Blank }
    }

    /// Covered and not flagged: a primary action may uncover it.
    pub open spec fn spec_uncoverable(self) -> bool {
        self.cover is Up && self.cover != Cover::Up(Mark::Flag)
    }

    pub open spec fn spec_flagged(self) -> bool {
        self.cover == Cover::Up(Mark::Flag)
    }

    pub fn new() -> (r: Tile)
        ensures
            r == Tile::pristine(),
    {
        Tile { cover: Cover::Up(Mark::Unmarked), object: Object::Blank }
    }

    pub fn cover(&self) -> (r: Cover)
        ensures
            r == self.cover,
    {
        self.cover
    }

    pub fn object(&self) -> (r: Object)
        ensures
            r == self.object,
    {
        self.object
    }

    pub fn is_uncoverable(&self) -> (r: bool)
        ensures
            r == self.spec_uncoverable(),
    {
        match self.cover {
            Cover::Up(mark) => mark != Mark::Flag,
            Cover::Down => false,
        }
    }

    pub fn is_mine(&self) -> (r: bool)
        ensures
            r == (self.object is Mine),
    {
        matches!(self.object, Object::Mine)
    }

    pub fn is_hint(&self) -> (r: bool)
        ensures
            r == (self.object is Hint),
    {
        matches!(self.object, Object::Hint(_))
    }

    pub fn is_blank(&self) -> (r: bool)
        ensures
            r == (self.object is Blank),
    {
        matches!(self.object, Object::Blank)
    }

    pub fn is_flag(&self) -> (r: bool)
        ensures
            r == self.spec_flagged(),
    {
        matches!(self.cover, Cover::Up(Mark::Flag))
    }
}


/// Number of mines adjacent to tile `i` of a board `w` by `h`.
pub open spec fn adjacent_mines(objs: Seq<Object>, w: int, h: int, i: int) -> nat {
    mines_among(objs, w, neighbor_seq(w, h, i % w, i / w))
}

/// What a tile without a mine holds when `n` mines are adjacent to it.
pub open spec fn hint_for(n: nat) -> Object {
    if n == 0 {
        Object::Blank
    } else {
        Object::Hint(n as u8)
    }
}

/// Every tile without a mine holds the hint for its adjacent mines.
pub open spec fn hints_consistent(objs: Seq<Object>, w: int, h: int) -> bool {
    forall|i: int|
        0 <= i < objs.len() && !(objs[i] is Mine) ==> #[trigger] objs[i] == hint_for(
            adjacent_mines(objs, w, h, i),
        )
}

/// The board as the rules see it.
pub ghost struct BoardView {
    pub tiles: Seq<Tile>,
    pub covered: nat,
    pub flags: nat,
    pub params: Params,
    pub placed: bool,
    pub defeat: bool,
}

impl BoardView {
    pub open spec fn width(self) -> int {
        self.params.width as int
    }

    pub open spec fn height(self) -> int {
        self.params.height as int
    }

    pub open spec fn in_bounds(self, x: int, y: int) -> bool {
        0 <= x < self.width() && 0 <= y < self.height()
    }

    pub open spec fn at(self, x: int, y: int) -> Tile {
        self.tiles[y * self.width() + x]
    }

    /// The counters agree with the tiles; before placement no tile holds an
    /// object and none is uncovered; after it, exactly `mines` tiles hold a
    /// mine and every other tile the hint for its neighbours; the board is
    /// lost exactly when a mine has been uncovered.
    pub open spec fn wf(self) -> bool {
        &&& self.params.valid()
        &&& self.tiles.len() == self.params.size()
        &&& self.covered == covered_count(self.tiles)
        &&& self.flags == flag_count(self.tiles)
        &&& self.defeat == (exploded_count(self.tiles) > 0)
        &&& !self.placed ==> forall|i: int|
            0 <= i < self.tiles.len() ==> (#[trigger] self.tiles[i]).cover is Up
                && self.tiles[i].object is Blank
        &&& self.placed ==> {
            &&& mine_count(self.tiles) == self.params.mines
            &&& hints_consistent(objects(self.tiles), self.width(), self.height())
        }
    }

    /// The board after a secondary action on `(x, y)`: a covered tile's mark
    /// moves on in its cycle and the flag counter follows; a lost board and
    /// an uncovered tile stay as they are.
    pub open spec fn after_secondary(self, x: int, y: int) -> BoardView {
        let t = self.at(x, y);
        if self.defeat || t.cover is Down {
            self
        } else {
            let m = t.cover->Up_0;
            let n = next_mark(m);
            BoardView {
                tiles: self.tiles.update(y * self.width() + x, Tile { cover: Cover::Up(n), object: t.object }),
                flags: if n == Mark::Flag {
                    self.flags + 1
                } else if m == Mark::Flag {
                    (self.flags - 1) as nat
                } else {
                    self.flags
                },
                ..self
            }
        }
    }

    /// `a` is this board, mines placed, after a primary action on `(x, y)`:
    /// on a lost board nothing changes; on an uncovered hint whose number of
    /// flagged neighbours matches, the neighbours are uncovered (a chord);
    /// on an uncoverable tile, that tile is uncovered, and if it is blank the
    /// flood spreads; anything else changes nothing.
    pub open spec fn primary_post(self, a: BoardView, x: int, y: int) -> bool {
        let t = self.at(x, y);
        let nbs = neighbor_seq(self.width(), self.height(), x, y);
        let same = a == (BoardView { tiles: a.tiles, covered: a.covered, defeat: a.defeat, ..self });
        if self.defeat {
            a == self
        } else if t.cover is Down && t.object is Hint {
            if flags_among(self.tiles, self.width(), nbs) != t.object->Hint_0 as nat {
                a == self
            } else {
                same && revealed(self.tiles, a.tiles, self.width(), self.height(), index_set(self.width(), nbs))
            }
        } else if !t.spec_uncoverable() {
            a == self
        } else {
            same && revealed(self.tiles, a.tiles, self.width(), self.height(), set![y * self.width() + x])
        }
    }

    /// The tile `(x, y)` and its neighbours leave room for all the mines.
    pub open spec fn room_for_mines(self, x: int, y: int) -> bool {
        self.params.mines + neighbor_seq(self.width(), self.height(), x, y).len() + 1 <= self.params.size()
    }

    /// Neither the tile `(x, y)` nor any of its neighbours holds a mine.
    pub open spec fn opening_safe(self, x: int, y: int) -> bool {
        &&& !(objects(self.tiles)[y * self.width() + x] is Mine)
        &&& forall|k: int|
            0 <= k < neighbor_seq(self.width(), self.height(), x, y).len() ==> !(objects(self.tiles)[index_of(
                self.width(),
                #[trigger] neighbor_seq(self.width(), self.height(), x, y)[k],
            )] is Mine)
    }

    /// The same board with each tile's cover from `self` and object from `objs`.
    pub open spec fn with_objects(self, objs: Seq<Object>) -> BoardView {
        BoardView {
            tiles: Seq::new(self.tiles.len(), |i: int| Tile { cover: self.tiles[i].cover, object: objs[i] }),
            placed: true,
            ..self
        }
    }

    /// The board as `new` makes it.
    pub open spec fn pristine(params: Params) -> BoardView {
        BoardView {
            tiles: Seq::new(params.size() as nat, |i: int| Tile::pristine()),
            covered: params.size() as nat,
            flags: 0,
            params,
            placed: false,
            defeat: false,
        }
    }
}

#[derive(Debug, PartialEq, Eq, Clone, Copy, Structural)]
pub enum BoardError {
    /// The mines leave no tile free, or the tiles do not fit in a `usize`.
    InvalidParams,
}

#[derive(Debug)]
pub struct Board {
    tiles: Vec<Tile>,
    covered: usize,
    flags: usize,
    params: Params,
    placed: bool,
    defeat: bool,
}

impl View for Board {
    type V = BoardView;

    closed spec fn view(&self) -> BoardView {
        BoardView {
            tiles: self.tiles@,
            covered: self.covered as nat,
            flags: self.flags as nat,
            params: self.params,
            placed: self.placed,
            defeat: self.defeat,
        }
    }
}

fn contains(v: &Vec<usize>, x: usize) -> (r: bool)
    ensures
        r == v@.contains(x),
{
    let mut k: usize = 0;
    while k < v.len()
        invariant
            k <= v@.len(),
            forall|j: int| 0 <= j < k ==> v@[j] != x,
        decreases v@.len() - k,
    {
        if v[k] == x {
            return true;
        }
        k += 1;
    }
    false
}

/// A pristine board whose mines and hints have been placed, covers untouched,
/// is well formed.
proof fn lemma_placement_wf(before: BoardView, mid: Seq<Tile>, v: BoardView)
    requires
        before.wf(),
        !before.placed,
        v == (BoardView { tiles: v.tiles, placed: true, ..before }),
        v.tiles.len() == before.tiles.len(),
        mid.len() == before.tiles.len(),
        mine_count(mid) == before.params.mines,
        forall|i: int|
            0 <= i < before.tiles.len() ==> (#[trigger] v.tiles[i]).cover == before.tiles[i].cover
                && (v.tiles[i].object is Mine <==> mid[i].object is Mine),
        hints_consistent(objects(v.tiles), v.width(), v.height()),
    ensures
        v.wf(),
        v == before.with_objects(objects(v.tiles)),
{
    lemma_placement_counts(before.tiles, mid, v.tiles);
    lemma_count_all(before.tiles, |t: Tile| t.cover is Down && t.object is Mine);
    assert(v.tiles =~= before.with_objects(objects(v.tiles)).tiles);
}

proof fn lemma_placement_counts(before: Seq<Tile>, mid: Seq<Tile>, after: Seq<Tile>)
    requires
        after.len() == before.len(),
        mid.len() == before.len(),
        forall|i: int| 0 <= i < before.len() ==> (#[trigger] before[i]).cover is Up,
        forall|i: int|
            0 <= i < before.len() ==> (#[trigger] after[i]).cover == before[i].cover
                && (after[i].object is Mine <==> mid[i].object is Mine),
    ensures
        covered_count(after) == covered_count(before),
        flag_count(after) == flag_count(before),
        mine_count(after) == mine_count(mid),
        exploded_count(after) == 0,
{
    assert forall|i: int| 0 <= i < after.len() implies (#[trigger] after[i]).cover is Up by {
        assert(before[i].cover is Up);
    }
    lemma_count_ext(after, before, |t: Tile| t.cover is Up);
    lemma_count_ext(after, before, |t: Tile| t.spec_flagged());
    lemma_count_ext(after, mid, |t: Tile| t.object is Mine);
    lemma_count_all(after, |t: Tile| t.cover is Down && t.object is Mine);
}

proof fn lemma_with_own_objects(v: BoardView)
    requires
        v.placed,
    ensures
        v.with_objects(objects(v.tiles)) == v,
{
    assert(v.with_objects(objects(v.tiles)).tiles =~= v.tiles);
}

/// Placing the mines, then acting on the placed board, meets the contract of
/// a primary action.
proof fn lemma_primary_compose(old: BoardView, mid: BoardView, fin: BoardView, x: int, y: int)
    requires
        old.wf(),
        old.placed ==> mid == old,
        !old.placed ==> mid == old.with_objects(objects(mid.tiles)) && mid.opening_safe(x, y),
        objects(fin.tiles) == objects(mid.tiles),
        mid.primary_post(fin, x, y),
        fin.covered + moved_down(mid.tiles, fin.tiles, mid.tiles.len() as int) == mid.covered,
    ensures
        !old.placed ==> fin.opening_safe(x, y),
        old.placed ==> objects(fin.tiles) == objects(old.tiles),
        old.with_objects(objects(fin.tiles)).primary_post(fin, x, y),
        fin.covered + moved_down(old.tiles, fin.tiles, old.tiles.len() as int) == old.covered,
{
    if old.placed {
        lemma_with_own_objects(old);
    } else {
        assert forall|i: int| 0 <= i < old.tiles.len() implies (#[trigger] old.tiles[i]).cover == mid.tiles[i].cover by {
        }
        lemma_moved_down_covers(old.tiles, mid.tiles, fin.tiles, old.tiles.len() as int);
    }
}

/// Before its mines are placed, a board is neither lost nor won: every tile
/// is still covered.
pub proof fn lemma_unplaced(v: BoardView)
    requires
        v.wf(),
        !v.placed,
    ensures
        !v.defeat,
        v.covered == v.params.size(),
        v.covered != v.params.mines,
{
    lemma_count_all(v.tiles, |t: Tile| t.cover is Up);
    lemma_count_all(v.tiles, |t: Tile| t.cover is Down && t.object is Mine);
}

/// The tiles below index `i` that hold no mine hold their hints.
#[verifier::opaque]
spec fn hints_upto(o: Seq<Object>, w: int, h: int, i: int) -> bool {
    forall|j: int| 0 <= j < i && !(o[j] is Mine) ==> #[trigger] o[j] == hint_for(adjacent_mines(o, w, h, j))
}

/// A tile that holds a mine, or whose hint is already right, extends the
/// prefix of consistent hints by one.
proof fn lemma_hint_keep(o: Seq<Object>, w: int, h: int, i: int)
    requires
        hints_upto(o, w, h, i),
        o[i] is Mine || o[i] == hint_for(adjacent_mines(o, w, h, i)),
    ensures
        hints_upto(o, w, h, i + 1),
{
    reveal(hints_upto);
}

/// Setting tile `i` to the hint for its adjacent mines extends the prefix of
/// consistent hints by one.
proof fn lemma_hint_step(o1: Seq<Object>, o2: Seq<Object>, w: int, h: int, i: int)
    requires
        0 < w <= usize::MAX,
        h <= usize::MAX,
        o1.len() == w * h,
        0 <= i < o1.len(),
        o2 == o1.update(i, o2[i]),
        !(o1[i] is Mine),
        o2[i] == hint_for(adjacent_mines(o1, w, h, i)),
        hints_upto(o1, w, h, i),
    ensures
        hints_upto(o2, w, h, i + 1),
{
    reveal(hints_upto);
    assert(o2.len() == o1.len());
    assert(!(o2[i] is Mine)) by {
        lemma_coords_of_index(w, h, i);
        lemma_neighbor_seq(w, h, i % w, i / w);
        lemma_mines_among_le(o1, w, neighbor_seq(w, h, i % w, i / w));
    }
    assert forall|j: int| 0 <= j < i + 1 && !(o2[j] is Mine) implies #[trigger] o2[j] == hint_for(
        adjacent_mines(o2, w, h, j),
    ) by {
        lemma_coords_of_index(w, h, j);
        lemma_neighbor_indices(w, h, j % w, j / w);
        assert forall|k: int| 0 <= k < o1.len() implies ((#[trigger] o1[k]) is Mine <==> o2[k] is Mine) by {
            if k != i {
                assert(o2[k] == o1[k]);
            }
        }
        lemma_mines_among_ext(o1, o2, w, neighbor_seq(w, h, j % w, j / w));
        if j < i {
            assert(o2[j] == o1[j]);
        }
    }
}

proof fn lemma_pristine_wf(params: Params)
    requires
        params.valid(),
    ensures
        BoardView::pristine(params).wf(),
{
    let v = BoardView::pristine(params);
    lemma_count_all(v.tiles, |t: Tile| t.cover is Up);
    lemma_count_all(v.tiles, |t: Tile| t.spec_flagged());
    lemma_count_all(v.tiles, |t: Tile| t.cover is Down && t.object is Mine);
}

impl Board {
    pub open spec fn wf(&self) -> bool {
        self@.wf()
    }

    /// A board of `params`, with every tile covered, unmarked and empty.
    pub fn new(params: Params) -> (r: Result<Board, BoardError>)
        ensures
            r is Ok <==> params.valid(),
            r matches Ok(b) ==> b.wf() && b@ == BoardView::pristine(params),
    {
        let size = match params.width.checked_mul(params.height) {
            Some(size) => size,
            None => return Err(BoardError::InvalidParams),
        };
        if params.mines >= size {
            return Err(BoardError::InvalidParams);
        }
        let mut tiles: Vec<Tile> = Vec::new();
        let mut i: usize = 0;
        while i < size
            invariant
                i <= size,
                tiles@ =~= Seq::new(i as nat, |j: int| Tile::pristine()),
            decreases size - i,
        {
            tiles.push(Tile::new());
            i += 1;
        }
        let board = Board { tiles, covered: size, flags: 0, placed: false, defeat: false, params };
        proof {
            lemma_pristine_wf(params);
            assert(board@.tiles =~= BoardView::pristine(params).tiles);
        }
        Ok(board)
    }

    fn from_valid(params: Params) -> (r: Board)
        requires
            params.valid(),
        ensures
            r.wf(),
            r@ == BoardView::pristine(params),
    {
        match Board::new(params) {
            Ok(b) => b,
            Err(_) => vstd::pervasive::unreached(),
        }
    }

    pub fn beginner() -> (r: Board)
        ensures
            r.wf(),
            r@ == BoardView::pristine(Params { width: 8, height: 8, mines: 10 }),
    {
        Board::from_valid(Params::beginner())
    }

    pub fn intermediate() -> (r: Board)
        ensures
            r.wf(),
            r@ == BoardView::pristine(Params { width: 16, height: 16, mines: 40 }),
    {
        Board::from_valid(Params::intermediate())
    }

    pub fn expert() -> (r: Board)
        ensures
            r.wf(),
            r@ == BoardView::pristine(Params { width: 30, height: 16, mines: 99 }),
    {
        Board::from_valid(Params::expert())
    }

    pub fn dims(&self) -> (r: (usize, usize))
        ensures
            r == (self@.params.width, self@.params.height),
    {
        (self.params.width, self.params.height)
    }

    pub fn mines(&self) -> (r: usize)
        ensures
            r == self@.params.mines,
    {
        self.params.mines
    }

    pub fn tile(&self, x: usize, y: usize) -> (r: Tile)
        requires
            self.wf(),
            x < self@.params.width,
            y < self@.params.height,
        ensures
            r == self@.at(x as int, y as int),
    {
        let index = self.coords_to_index(x, y);
        self.tiles[index]
    }

    /// Tiles still covered, mines included.
    pub fn covered(&self) -> (r: usize)
        ensures
            r == self@.covered,
    {
        self.covered
    }

    pub fn flags(&self) -> (r: usize)
        ensures
            r == self@.flags,
    {
        self.flags
    }

    /// Every tile without a mine is uncovered; flags play no part.
    pub fn is_victory(&self) -> (r: bool)
        ensures
            r == (self@.covered == self@.params.mines),
    {
        self.covered == self.params.mines
    }

    pub fn is_defeat(&self) -> (r: bool)
        ensures
            r == self@.defeat,
    {
        self.defeat
    }

    /// The mines and hints have been placed.
    pub fn is_initialized(&self) -> (r: bool)
        ensures
            r == self@.placed,
    {
        self.placed
    }

    /// Cycles the mark of a covered tile; on a lost board, nothing changes.
    pub fn handle_secondary_action(&mut self, x: usize, y: usize)
        requires
            old(self).wf(),
            x < old(self)@.params.width,
            y < old(self)@.params.height,
        ensures
            final(self).wf(),
            final(self)@ == old(self)@.after_secondary(x as int, y as int),
    {
        let tile_idx = self.coords_to_index(x, y);
        if self.defeat {
            return;
        }
        let tile = self.tiles[tile_idx];
        let Cover::Up(mark) = tile.cover else {
            return;
        };
        let mut mark = mark;
        mark.cycle();
        let ghost before = self.tiles@;
        let new_tile = Tile { cover: Cover::Up(mark), object: tile.object };
        self.tiles.set(tile_idx, new_tile);
        proof {
            let i = tile_idx as int;
            lemma_count_update(before, i, new_tile, |t: Tile| t.cover is Up);
            lemma_count_update(before, i, new_tile, |t: Tile| t.spec_flagged());
            lemma_count_update(before, i, new_tile, |t: Tile| t.object is Mine);
            lemma_count_update(before, i, new_tile, |t: Tile| t.cover is Down && t.object is Mine);
            lemma_count_le_len(self.tiles@, |t: Tile| t.spec_flagged());
            lemma_objects_update(before, i, new_tile);
        }
        match mark {
            Mark::Flag => self.flags += 1,
            Mark::Unsure => self.flags -= 1,
            _ => (),
        }
        proof {
            assert(self@ =~= old(self)@.after_secondary(x as int, y as int));
        }
    }

    /// Back to the board that `new` made: every tile covered, unmarked and
    /// empty, the mines to be placed again.
    pub fn reset(&mut self)
        requires
            old(self).wf(),
        ensures
            final(self).wf(),
            final(self)@ == BoardView::pristine(old(self)@.params),
    {
        let n = self.tiles.len();
        let mut i: usize = 0;
        while i < n
            invariant
                i <= n,
                n == self.tiles@.len(),
                forall|j: int| 0 <= j < i ==> self.tiles@[j] == Tile::pristine(),
                self.params == old(self).params,
            decreases n - i,
        {
            self.tiles.set(i, Tile::new());
            i += 1;
        }
        self.placed = false;
        self.defeat = false;
        self.covered = n;
        self.flags = 0;
        proof {
            lemma_pristine_wf(self.params);
            assert(self.tiles@ =~= BoardView::pristine(self.params).tiles);
        }
    }

    /// The tiles adjacent to `(x, y)`.
    fn neighbors(&self, x: usize, y: usize) -> (r: Vec<(usize, usize)>)
        requires
            x < self@.params.width,
            y < self@.params.height,
        ensures
            r@ == neighbor_seq(self@.width(), self@.height(), x as int, y as int),
    {
        let w = self.params.width;
        let h = self.params.height;
        let mut r: Vec<(usize, usize)> = Vec::new();
        push_cell(&mut r, w, h, x, y, -1, -1);
        push_cell(&mut r, w, h, x, y, -1, 0);
        push_cell(&mut r, w, h, x, y, -1, 1);
        push_cell(&mut r, w, h, x, y, 0, -1);
        push_cell(&mut r, w, h, x, y, 0, 1);
        push_cell(&mut r, w, h, x, y, 1, -1);
        push_cell(&mut r, w, h, x, y, 1, 0);
        push_cell(&mut r, w, h, x, y, 1, 1);
        assert(r@ =~= neighbor_seq(w as int, h as int, x as int, y as int));
        r
    }

    /// Number of mines adjacent to `(x, y)`.
    fn count_adjacent_mines(&self, x: usize, y: usize) -> (r: u8)
        requires
            self@.params.valid(),
            self@.tiles.len() == self@.params.size(),
            x < self@.params.width,
            y < self@.params.height,
        ensures
            r as nat == mines_among(
                objects(self@.tiles),
                self@.width(),
                neighbor_seq(self@.width(), self@.height(), x as int, y as int),
            ),
            r <= 8,
    {
        let ghost w = self@.width();
        let ghost h = self@.height();
        let ghost objs = objects(self@.tiles);
        let nbs = self.neighbors(x, y);
        proof {
            lemma_neighbor_seq(w, h, x as int, y as int);
            lemma_neighbor_indices(w, h, x as int, y as int);
        }
        let mut count: u8 = 0;
        let mut k: usize = 0;
        while k < nbs.len()
            invariant
                k <= nbs@.len() <= 8,
                nbs@ == neighbor_seq(w, h, x as int, y as int),
                forall|j: int|
                    0 <= j < nbs@.len() ==> adjacent(w, h, x as int, y as int, #[trigger] nbs@[j]),
                count as nat == mines_among(objs, w, nbs@.subrange(0, k as int)),
                count <= k,
                w == self.params.width,
                h == self.params.height,
                self@.tiles.len() == self@.params.size(),
                objs == objects(self@.tiles),
                self@.tiles.len() == w * h,
                self@.params.valid(),
            decreases nbs@.len() - k,
        {
            let (nx, ny) = nbs[k];
            assert(adjacent(w, h, x as int, y as int, nbs@[k as int]));
            let idx = self.coords_to_index(nx, ny);
            let ghost before = nbs@.subrange(0, k as int);
            assert(nbs@.subrange(0, k + 1).drop_last() =~= before);
            if self.tiles[idx].is_mine() {
                count += 1;
            }
            k += 1;
        }
        assert(nbs@.subrange(0, k as int) =~= nbs@);
        count
    }

    /// Places the mines away from `(x, y)` and its neighbours, then the hints.
    fn place_mines_and_hints(&mut self, x: usize, y: usize, rng: &mut WyRand)
        requires
            old(self).wf(),
            !old(self)@.placed,
            x < old(self)@.params.width,
            y < old(self)@.params.height,
            old(self)@.room_for_mines(x as int, y as int),
        ensures
            final(self).wf(),
            final(self)@ == old(self)@.with_objects(objects(final(self)@.tiles)),
            final(self)@.opening_safe(x as int, y as int),
    {
        let ghost w = self@.width();
        let ghost h = self@.height();
        let nbs = self.neighbors(x, y);
        proof {
            lemma_neighbor_seq(w, h, x as int, y as int);
        }
        let mut skip: Vec<usize> = Vec::new();
        let mut k: usize = 0;
        while k < nbs.len()
            invariant
                k <= nbs@.len(),
                nbs@ == neighbor_seq(w, h, x as int, y as int),
                nbs@.no_duplicates(),
                forall|j: int| 0 <= j < nbs@.len() ==> adjacent(w, h, x as int, y as int, #[trigger] nbs@[j]),
                skip@.len() == k,
                forall|j: int| 0 <= j < k ==> #[trigger] skip@[j] == index_of(w, nbs@[j]),
                self@.params.valid(),
                self@.tiles.len() == self@.params.size(),
                w == self@.width(),
                h == self@.height(),
            decreases nbs@.len() - k,
        {
            let (nx, ny) = nbs[k];
            assert(adjacent(w, h, x as int, y as int, nbs@[k as int]));
            skip.push(self.coords_to_index(nx, ny));
            k += 1;
        }
        let own = self.coords_to_index(x, y);
        skip.push(own);
        proof {
            lemma_skip_distinct(nbs@, skip@, w, h, x as int, y as int);
            assert forall|i: int| 0 <= i < self@.tiles.len() implies (#[trigger] self@.tiles[i]).object is Blank by {
                assert(self@.tiles[i].cover is Up);
            }
        }
        let ghost before = self@;
        self.place_mines(&skip, rng);
        let ghost mid = self@;
        self.place_hints();
        self.placed = true;
        proof {
            lemma_placement_wf(before, mid.tiles, self@);
            assert forall|j: int| 0 <= j < nbs@.len() implies !(objects(self@.tiles)[index_of(w, #[trigger] nbs@[j])] is Mine) by {
                assert(skip@[j] == index_of(w, nbs@[j]));
                assert(!(mid.tiles[skip@[j] as int].object is Mine));
            }
            assert(skip@[nbs@.len() as int] == own);
            assert(!(mid.tiles[own as int].object is Mine));
        }
    }

    /// Places `mines` mines on tiles whose indices are not in `skip`, chosen
    /// among them by reservoir sampling with draws from `rng`.
    fn place_mines(&mut self, skip: &Vec<usize>, rng: &mut WyRand)
        requires
            old(self)@.params.valid(),
            old(self)@.tiles.len() == old(self)@.params.size(),
            forall|i: int| 0 <= i < old(self)@.tiles.len() ==> (#[trigger] old(self)@.tiles[i]).object is Blank,
            skip@.no_duplicates(),
            forall|k: int| 0 <= k < skip@.len() ==> #[trigger] skip@[k] < old(self)@.tiles.len(),
            old(self)@.params.mines + skip@.len() <= old(self)@.tiles.len(),
        ensures
            final(self)@ == (BoardView { tiles: final(self)@.tiles, ..old(self)@ }),
            final(self)@.tiles.len() == old(self)@.tiles.len(),
            mine_count(final(self)@.tiles) == old(self)@.params.mines,
            forall|i: int|
                0 <= i < old(self)@.tiles.len() ==> (#[trigger] final(self)@.tiles[i]).cover
                    == old(self)@.tiles[i].cover && (final(self)@.tiles[i].object is Mine
                    || final(self)@.tiles[i].object is Blank),
            forall|k: int|
                0 <= k < skip@.len() ==> !(final(self)@.tiles[#[trigger] skip@[k] as int].object is Mine),
    {
        let n = self.tiles.len();
        let mut candidates: Vec<usize> = Vec::new();
        let mut i: usize = 0;
        proof {
            lemma_below_zero(skip@);
        }
        while i < n
            invariant
                i <= n,
                skip@.no_duplicates(),
                candidates@.len() + below(skip@, i as int) == i,
                forall|k: int| 0 <= k < candidates@.len() ==> #[trigger] candidates@[k] < i,
                forall|k: int| 0 <= k < candidates@.len() ==> !skip@.contains(#[trigger] candidates@[k]),
                forall|a: int, b: int| 0 <= a < b < candidates@.len() ==> #[trigger] candidates@[a] < #[trigger] candidates@[b],
            decreases n - i,
        {
            proof {
                lemma_below_step(skip@, i);
            }
            if !contains(skip, i) {
                candidates.push(i);
            }
            i += 1;
        }
        proof {
            lemma_below_all(skip@, n as int);
            assert(candidates@.no_duplicates()) by {
                assert forall|a: int, b: int| 0 <= a < candidates@.len() && 0 <= b < candidates@.len() && a != b
                    implies candidates@[a] != candidates@[b] by {
                    if a < b {
                        assert(candidates@[a] < candidates@[b]);
                    } else {
                        assert(candidates@[b] < candidates@[a]);
                    }
                }
            }
        }
        let mines = crate::random::choose_multiple(&candidates, rng, self.params.mines);
        proof {
            lemma_count_all(self@.tiles, |t: Tile| t.object is Mine);
        }
        let mut k: usize = 0;
        while k < mines.len()
            invariant
                k <= mines@.len() == old(self)@.params.mines,
                mines@.no_duplicates(),
                forall|j: int| 0 <= j < mines@.len() ==> candidates@.contains(#[trigger] mines@[j]),
                forall|j: int| 0 <= j < candidates@.len() ==> #[trigger] candidates@[j] < n,
                forall|j: int| 0 <= j < candidates@.len() ==> !skip@.contains(#[trigger] candidates@[j]),
                n == self.tiles@.len(),
                self@ == (BoardView { tiles: self@.tiles, ..old(self)@ }),
                mine_count(self@.tiles) == k,
                forall|j: int|
                    0 <= j < n ==> (#[trigger] self@.tiles[j]).cover == old(self)@.tiles[j].cover && (
                    self@.tiles[j].object is Mine <==> mines@.subrange(0, k as int).contains(j as usize))
                        && (self@.tiles[j].object is Mine || self@.tiles[j].object is Blank),
            decreases mines@.len() - k,
        {
            let m = mines[k];
            assert(candidates@.contains(mines@[k as int]));
            let ghost before = self@.tiles;
            let old_tile = self.tiles[m];
            let t = Tile { cover: old_tile.cover, object: Object::Mine };
            self.tiles.set(m, t);
            proof {
                assert(!mines@.subrange(0, k as int).contains(m)) by {
                    if mines@.subrange(0, k as int).contains(m) {
                        let a = choose|a: int| 0 <= a < k && #[trigger] mines@.subrange(0, k as int)[a] == m;
                        assert(mines@[a] == mines@[k as int]);
                    }
                }
                lemma_count_update(before, m as int, t, |t: Tile| t.object is Mine);
                assert forall|j: int| 0 <= j < n implies (#[trigger] self@.tiles[j]).cover == old(self)@.tiles[j].cover && (
                    self@.tiles[j].object is Mine <==> mines@.subrange(0, k + 1).contains(j as usize))
                        && (self@.tiles[j].object is Mine || self@.tiles[j].object is Blank) by {
                    if j != m {
                        assert(self@.tiles[j] == before[j]);
                        if mines@.subrange(0, k + 1).contains(j as usize) {
                            let a = choose|a: int| 0 <= a < k + 1 && #[trigger] mines@.subrange(0, k + 1)[a] == j as usize;
                            assert(mines@.subrange(0, k as int)[a] == j as usize);
                        }
                        if mines@.subrange(0, k as int).contains(j as usize) {
                            let a = choose|a: int| 0 <= a < k && #[trigger] mines@.subrange(0, k as int)[a] == j as usize;
                            assert(mines@.subrange(0, k + 1)[a] == j as usize);
                        }
                    } else {
                        assert(mines@.subrange(0, k + 1)[k as int] == m);
                    }
                }
            }
            k += 1;
        }
        proof {
            assert(mines@.subrange(0, k as int) =~= mines@);
            assert forall|j: int| 0 <= j < skip@.len() implies !(self@.tiles[#[trigger] skip@[j] as int].object is Mine) by {
                let sj = skip@[j];
                if mines@.contains(sj) {
                    let a = choose|a: int| 0 <= a < mines@.len() && mines@[a] == sj;
                    assert(candidates@.contains(mines@[a]));
                    let b = choose|b: int| 0 <= b < candidates@.len() && candidates@[b] == sj;
                    assert(!skip@.contains(candidates@[b]));
                    assert(skip@.contains(sj));
                }
            }
        }
    }

    /// Gives every tile without a mine the hint for its adjacent mines; the
    /// mines and covers stay.
    fn place_hints(&mut self)
        requires
            old(self)@.params.valid(),
            old(self)@.tiles.len() == old(self)@.params.size(),
            forall|i: int|
                0 <= i < old(self)@.tiles.len() && !((#[trigger] old(self)@.tiles[i]).object is Mine)
                    ==> old(self)@.tiles[i].object is Blank,
        ensures
            final(self)@.tiles.len() == old(self)@.tiles.len(),
            forall|i: int|
                0 <= i < old(self)@.tiles.len() ==> (#[trigger] final(self)@.tiles[i]).cover
                    == old(self)@.tiles[i].cover && (final(self)@.tiles[i].object is Mine
                    <==> old(self)@.tiles[i].object is Mine),
            hints_consistent(objects(final(self)@.tiles), final(self)@.width(), final(self)@.height()),
            final(self)@.params == old(self)@.params,
            final(self)@.covered == old(self)@.covered,
            final(self)@.flags == old(self)@.flags,
            final(self)@.placed == old(self)@.placed,
            final(self)@.defeat == old(self)@.defeat,
    {
        let n = self.tiles.len();
        let w = self.params.width;
        let ghost h = self@.height();
        let ghost start = self@.tiles;
        proof {
            reveal(hints_upto);
            assert(w > 0) by (nonlinear_arith)
                requires
                    self.params.mines < w * h,
                    h >= 0,
            ;
        }
        let mut i: usize = 0;
        while i < n
            invariant
                i <= n,
                n == self@.tiles.len(),
                n == w * h,
                w > 0,
                w == self.params.width,
                h == self.params.height,
                self@.params.valid(),
                self.params == old(self).params,
                self.covered == old(self).covered,
                self.flags == old(self).flags,
                self.placed == old(self).placed,
                self.defeat == old(self).defeat,
                start == old(self)@.tiles,
                forall|j: int|
                    0 <= j < n && !((#[trigger] start[j]).object is Mine) ==> start[j].object is Blank,
                forall|j: int|
                    0 <= j < n ==> (#[trigger] self@.tiles[j]).cover == start[j].cover
                        && (self@.tiles[j].object is Mine <==> start[j].object is Mine),
                forall|j: int| i <= j < n ==> #[trigger] self@.tiles[j] == start[j],
                hints_upto(objects(self.tiles@), w as int, h, i as int),
            decreases n - i,
        {
            let ghost o = objects(self.tiles@);
            if !self.tiles[i].is_mine() {
                let x = i % w;
                let y = i / w;
                proof {
                    lemma_coords_of_index(w as int, h, i as int);
                }
                let count = self.count_adjacent_mines(x, y);
                if count > 0 {
                    let t = Tile { cover: self.tiles[i].cover, object: Object::Hint(count) };
                    self.tiles.set(i, t);
                    proof {
                        assert(objects(self.tiles@) =~= o.update(i as int, Object::Hint(count)));
                        lemma_hint_step(o, objects(self.tiles@), w as int, h, i as int);
                    }
                } else {
                    proof {
                        assert(o[i as int] == start[i as int].object);
                        lemma_hint_keep(o, w as int, h, i as int);
                    }
                }
            } else {
                proof {
                    lemma_hint_keep(o, w as int, h, i as int);
                }
            }
            i += 1;
        }
        proof {
            reveal(hints_upto);
        }
    }

    /// Uncovers tile `i`; a mine loses the game.
    fn uncover_tile(&mut self, i: usize)
        requires
            old(self).wf(),
            old(self)@.placed,
            i < old(self)@.tiles.len(),
            old(self)@.tiles[i as int].spec_uncoverable(),
        ensures
            final(self).wf(),
            final(self)@ == (BoardView {
                tiles: old(self)@.tiles.update(i as int, down(old(self)@.tiles[i as int])),
                covered: (old(self)@.covered - 1) as nat,
                defeat: old(self)@.defeat || old(self)@.tiles[i as int].object is Mine,
                ..old(self)@
            }),
            uncoverable_count(final(self)@.tiles) < uncoverable_count(old(self)@.tiles),
    {
        let ghost before = self.tiles@;
        let t = self.tiles[i];
        let d = Tile { cover: Cover::Down, object: t.object };
        self.tiles.set(i, d);
        proof {
            let k = i as int;
            lemma_count_update(before, k, d, |t: Tile| t.cover is Up);
            lemma_count_update(before, k, d, |t: Tile| t.spec_flagged());
            lemma_count_update(before, k, d, |t: Tile| t.object is Mine);
            lemma_count_update(before, k, d, |t: Tile| t.cover is Down && t.object is Mine);
            lemma_count_update(before, k, d, |t: Tile| t.spec_uncoverable());
            lemma_objects_update(before, k, d);
        }
        self.covered -= 1;
        if t.is_mine() {
            self.defeat = true;
        }
    }

    /// A flood-fill-style uncovering procedure, where the uncovering spills
    /// over the area around the blank tile `(x, y)`, bounded by hint tiles
    /// (inclusive). A tile is pushed once per blank neighbour, and skipped
    /// when popped if it is already uncovered or flagged: the covers are the
    /// visited set.
    fn flood_uncover(&mut self, x: usize, y: usize, b0: Ghost<Seq<Tile>>)
        requires
            old(self).wf(),
            old(self)@.placed,
            x < old(self)@.params.width,
            y < old(self)@.params.height,
            old(self)@.at(x as int, y as int).object is Blank,
            b0@.len() == old(self)@.tiles.len(),
            b0@[y * old(self)@.width() + x].spec_uncoverable(),
            old(self)@.tiles == b0@.update(y * old(self)@.width() + x, down(b0@[y * old(self)@.width() + x])),
        ensures
            final(self).wf(),
            final(self)@ == (BoardView {
                tiles: final(self)@.tiles,
                covered: final(self)@.covered,
                defeat: final(self)@.defeat,
                ..old(self)@
            }),
            revealed(b0@, final(self)@.tiles, old(self)@.width(), old(self)@.height(), set![y * old(self)@.width() + x]),
    {
        let ghost w = self@.width();
        let ghost h = self@.height();
        let ghost o = y * w + x;
        let ghost b = b0@;
        let ghost start = self@;
        let mut flooded = self.neighbors(x, y);
        let ghost mut rank: Map<int, nat> = map![o => 0nat];
        let ghost mut counter: nat = 1;
        proof {
            lemma_pos_index(w, h, (x, y));
            lemma_neighbor_seq(w, h, x as int, y as int);
            lemma_flood_init(b, self@.tiles, w, h, o);
        }
        while flooded.len() > 0
            invariant
                self.wf(),
                self@ == (BoardView { tiles: self@.tiles, covered: self@.covered, defeat: self@.defeat, ..start }),
                start.wf(),
                start.placed,
                w == start.width(),
                h == start.height(),
                b.len() == start.tiles.len(),
                forall|m: int| 0 <= m < flooded@.len() ==> (#[trigger] flooded@[m]).0 < w && flooded@[m].1 < h,
                flood_inv(b, self@.tiles, flooded@, w, h, o, rank, counter),
            decreases uncoverable_count(self@.tiles), flooded@.len(),
        {
            let ghost a = self@.tiles;
            let ghost stack = flooded@;
            let (cx, cy) = match flooded.pop() {
                Some(p) => p,
                None => vstd::pervasive::unreached(),
            };
            proof {
                lemma_pos_index(w, h, (cx, cy));
            }
            let t_idx = self.coords_to_index(cx, cy);
            if self.tiles[t_idx].is_uncoverable() {
                self.uncover_tile(t_idx);
                let ghost i = t_idx as int;
                if self.tiles[t_idx].is_blank() {
                    let mut n = self.neighbors(cx, cy);
                    proof {
                        lemma_neighbor_seq(w, h, cx as int, cy as int);
                        lemma_flood_step(b, a, self@.tiles, stack, n@, w, h, o, i, rank, counter);
                    }
                    flooded.append(&mut n);
                } else {
                    proof {
                        lemma_flood_step(b, a, self@.tiles, stack, seq![], w, h, o, i, rank, counter);
                        assert(flooded@ =~= stack.drop_last() + seq![]);
                    }
                }
                proof {
                    rank = rank.insert(i, counter);
                    counter = counter + 1;
                }
            } else {
                proof {
                    lemma_flood_skip(b, a, stack, w, h, o, rank, counter);
                }
            }
        }
        proof {
            lemma_flood_done(b, self@.tiles, flooded@, w, h, o, rank, counter);
        }
    }

    /// Uncovers the uncoverable tile `(x, y)`: a mine loses the game, a blank
    /// tile floods its surroundings, a hint stays alone.
    fn uncover(&mut self, x: usize, y: usize)
        requires
            old(self).wf(),
            old(self)@.placed,
            x < old(self)@.params.width,
            y < old(self)@.params.height,
            old(self)@.at(x as int, y as int).spec_uncoverable(),
        ensures
            final(self).wf(),
            final(self)@ == (BoardView {
                tiles: final(self)@.tiles,
                covered: final(self)@.covered,
                defeat: final(self)@.defeat,
                ..old(self)@
            }),
            revealed(old(self)@.tiles, final(self)@.tiles, old(self)@.width(), old(self)@.height(), set![y * old(self)@.width() + x]),
    {
        let ghost b = self@.tiles;
        let tile_idx = self.coords_to_index(x, y);
        self.uncover_tile(tile_idx);
        if self.tiles[tile_idx].is_blank() {
            self.flood_uncover(x, y, Ghost(b));
        } else {
            proof {
                lemma_reveal_single(b, self@.tiles, self@.width(), self@.height(), tile_idx as int);
            }
        }
    }

    /// Number of flags on the tiles in `nbs`.
    fn count_flags(&self, nbs: &Vec<(usize, usize)>) -> (r: usize)
        requires
            self@.params.valid(),
            self@.tiles.len() == self@.params.size(),
            nbs@.len() <= 8,
            forall|j: int| 0 <= j < nbs@.len() ==> (#[trigger] nbs@[j]).0 < self@.width() && nbs@[j].1 < self@.height(),
        ensures
            r as nat == flags_among(self@.tiles, self@.width(), nbs@),
    {
        let ghost w = self@.width();
        let mut count: usize = 0;
        let mut k: usize = 0;
        proof {
            assert(nbs@.subrange(0, 0) =~= Seq::<(usize, usize)>::empty());
        }
        while k < nbs.len()
            invariant
                k <= nbs@.len() <= 8,
                forall|j: int| 0 <= j < nbs@.len() ==> (#[trigger] nbs@[j]).0 < self@.width() && nbs@[j].1 < self@.height(),
                count as nat == flags_among(self@.tiles, w, nbs@.subrange(0, k as int)),
                count <= k,
                w == self@.width(),
                self@.params.valid(),
                self@.tiles.len() == self@.params.size(),
            decreases nbs@.len() - k,
        {
            let (nx, ny) = nbs[k];
            let idx = self.coords_to_index(nx, ny);
            assert(nbs@.subrange(0, k + 1).drop_last() =~= nbs@.subrange(0, k as int));
            if self.tiles[idx].is_flag() {
                count += 1;
            }
            k += 1;
        }
        assert(nbs@.subrange(0, k as int) =~= nbs@);
        count
    }

    /// Clicking on a hint tile with exactly as many flags around it as hinted
    /// uncovers the remaining covered neighbours. Beware: if the flags are
    /// misplaced, this is an instant defeat! A neighbour already uncovered by
    /// the flood from an earlier one is skipped.
    fn explore_around(&mut self, hinted: u8, x: usize, y: usize)
        requires
            old(self).wf(),
            old(self)@.placed,
            x < old(self)@.params.width,
            y < old(self)@.params.height,
        ensures
            final(self).wf(),
            flags_among(old(self)@.tiles, old(self)@.width(), neighbor_seq(old(self)@.width(), old(self)@.height(), x as int, y as int)) != hinted as nat
                ==> final(self)@ == old(self)@,
            flags_among(old(self)@.tiles, old(self)@.width(), neighbor_seq(old(self)@.width(), old(self)@.height(), x as int, y as int)) == hinted as nat
                ==> final(self)@ == (BoardView {
                tiles: final(self)@.tiles,
                covered: final(self)@.covered,
                defeat: final(self)@.defeat,
                ..old(self)@
            }) && revealed(
                old(self)@.tiles,
                final(self)@.tiles,
                old(self)@.width(),
                old(self)@.height(),
                index_set(old(self)@.width(), neighbor_seq(old(self)@.width(), old(self)@.height(), x as int, y as int)),
            ),
    {
        let ghost w = self@.width();
        let ghost h = self@.height();
        let ghost start = self@;
        let neighbors = self.neighbors(x, y);
        proof {
            lemma_neighbor_seq(w, h, x as int, y as int);
        }
        let n_flags = self.count_flags(&neighbors);
        if hinted as usize != n_flags {
            return;
        }
        let mut k: usize = 0;
        proof {
            assert(index_set(w, neighbors@.subrange(0, 0)) =~= Set::<int>::empty());
            lemma_reveal_none(self@.tiles, w, h, Set::<int>::empty());
        }
        while k < neighbors.len()
            invariant
                k <= neighbors@.len(),
                self.wf(),
                self@ == (BoardView { tiles: self@.tiles, covered: self@.covered, defeat: self@.defeat, ..start }),
                start.wf(),
                start.placed,
                w == start.width(),
                h == start.height(),
                forall|j: int| 0 <= j < neighbors@.len() ==> adjacent(w, h, x as int, y as int, #[trigger] neighbors@[j]),
                revealed(start.tiles, self@.tiles, w, h, index_set(w, neighbors@.subrange(0, k as int))),
            decreases neighbors@.len() - k,
        {
            let (nx, ny) = neighbors[k];
            assert(adjacent(w, h, x as int, y as int, neighbors@[k as int]));
            let idx = self.coords_to_index(nx, ny);
            let ghost c = self@.tiles;
            let ghost seeds = index_set(w, neighbors@.subrange(0, k as int));
            proof {
                assert(index_set(w, neighbors@.subrange(0, k + 1)) =~= seeds.union(set![idx as int])) by {
                    assert forall|i: int| #[trigger] index_set(w, neighbors@.subrange(0, k + 1)).contains(i) implies seeds.union(set![idx as int]).contains(i) by {
                        let m = choose|m: int| 0 <= m < k + 1 && #[trigger] index_of(w, neighbors@.subrange(0, k + 1)[m]) == i;
                        if m < k {
                            assert(neighbors@.subrange(0, k as int)[m] == neighbors@.subrange(0, k + 1)[m]);
                        }
                    }
                    assert forall|i: int| seeds.union(set![idx as int]).contains(i) implies #[trigger] index_set(w, neighbors@.subrange(0, k + 1)).contains(i) by {
                        if seeds.contains(i) {
                            let m = choose|m: int| 0 <= m < k && #[trigger] index_of(w, neighbors@.subrange(0, k as int)[m]) == i;
                            assert(neighbors@.subrange(0, k as int)[m] == neighbors@.subrange(0, k + 1)[m]);
                        } else {
                            assert(index_of(w, neighbors@.subrange(0, k + 1)[k as int]) == i);
                        }
                    }
                }
            }
            if self.tiles[idx].is_uncoverable() {
                self.uncover(nx, ny);
            } else {
                proof {
                    lemma_reveal_none(c, w, h, set![idx as int]);
                }
            }
            proof {
                lemma_reveal_compose(start.tiles, c, self@.tiles, w, h, seeds, set![idx as int]);
            }
            k += 1;
        }
        proof {
            assert(neighbors@.subrange(0, k as int) =~= neighbors@);
        }
    }

    /// The tile `(x, y)` and its neighbours leave room for all the mines, so
    /// that a first primary action there can place them.
    pub fn has_room_for_mines(&self, x: usize, y: usize) -> (r: bool)
        requires
            self.wf(),
            x < self@.params.width,
            y < self@.params.height,
        ensures
            r == self@.room_for_mines(x as int, y as int),
    {
        let n = self.neighbors(x, y).len();
        proof {
            lemma_neighbor_seq(self@.width(), self@.height(), x as int, y as int);
        }
        n < self.tiles.len() && self.params.mines <= self.tiles.len() - n - 1
    }

    /// Primary interface for acting on a minefield: uncovers a covered tile,
    /// or explores around an uncovered hint. The first call places the mines
    /// (away from `(x, y)` and its neighbours) and the hints. Uncovering every
    /// tile without a mine is the win condition; the mines need no flags.
    pub fn handle_primary_action(&mut self, x: usize, y: usize)
        requires
            old(self).wf(),
            x < old(self)@.params.width,
            y < old(self)@.params.height,
            !old(self)@.placed ==> old(self)@.room_for_mines(x as int, y as int),
        ensures
            final(self).wf(),
            final(self)@.placed,
            !old(self)@.placed ==> final(self)@.opening_safe(x as int, y as int),
            old(self)@.placed ==> objects(final(self)@.tiles) == objects(old(self)@.tiles),
            old(self)@.with_objects(objects(final(self)@.tiles)).primary_post(final(self)@, x as int, y as int),
            final(self)@.covered + moved_down(old(self)@.tiles, final(self)@.tiles, old(self)@.tiles.len() as int)
                == old(self)@.covered,
    {
        if !self.placed {
            let mut rng = crate::random::entropy_rng();
            self.place_mines_and_hints(x, y, &mut rng);
        }
        let ghost mid = self@;
        proof {
            lemma_with_own_objects(self@);
        }
        self.act(x, y);
        proof {
            lemma_primary_compose(old(self)@, mid, self@, x as int, y as int);
        }
    }

    /// As [Board::handle_primary_action], drawing the mines from `rng`
    /// rather than from a freshly seeded generator.
    pub fn handle_primary_action_with(&mut self, x: usize, y: usize, rng: &mut WyRand)
        requires
            old(self).wf(),
            x < old(self)@.params.width,
            y < old(self)@.params.height,
            !old(self)@.placed ==> old(self)@.room_for_mines(x as int, y as int),
        ensures
            final(self).wf(),
            final(self)@.placed,
            !old(self)@.placed ==> final(self)@.opening_safe(x as int, y as int),
            old(self)@.placed ==> objects(final(self)@.tiles) == objects(old(self)@.tiles),
            old(self)@.with_objects(objects(final(self)@.tiles)).primary_post(final(self)@, x as int, y as int),
            final(self)@.covered + moved_down(old(self)@.tiles, final(self)@.tiles, old(self)@.tiles.len() as int)
                == old(self)@.covered,
    {
        if !self.placed {
            self.place_mines_and_hints(x, y, rng);
        }
        let ghost mid = self@;
        proof {
            lemma_with_own_objects(self@);
        }
        self.act(x, y);
        proof {
            lemma_primary_compose(old(self)@, mid, self@, x as int, y as int);
        }
    }

    /// The primary action on a board whose mines are placed.
    fn act(&mut self, x: usize, y: usize)
        requires
            old(self).wf(),
            old(self)@.placed,
            x < old(self)@.params.width,
            y < old(self)@.params.height,
        ensures
            final(self).wf(),
            final(self)@.placed,
            objects(final(self)@.tiles) == objects(old(self)@.tiles),
            old(self)@.primary_post(final(self)@, x as int, y as int),
            final(self)@.covered + moved_down(old(self)@.tiles, final(self)@.tiles, old(self)@.tiles.len() as int)
                == old(self)@.covered,
    {
        let ghost before = self@;
        proof {
            lemma_covered_drop(before.tiles, before.tiles);
        }
        if self.defeat {
            return;
        }
        let tile_idx = self.coords_to_index(x, y);
        let tile = self.tiles[tile_idx];
        if let (Cover::Down, Object::Hint(hint)) = (tile.cover, tile.object) {
            self.explore_around(hint, x, y);
            proof {
                if self@ != before {
                    lemma_frame_objects(before.tiles, self@.tiles);
                    lemma_covered_drop(before.tiles, self@.tiles);
                }
            }
            return;
        }
        if !tile.is_uncoverable() {
            return;
        }
        self.uncover(x, y);
        proof {
            lemma_frame_objects(before.tiles, self@.tiles);
            lemma_covered_drop(before.tiles, self@.tiles);
        }
    }

    /// Row-major index of tile `(x, y)`.
    fn coords_to_index(&self, x: usize, y: usize) -> (r: usize)
        requires
            self@.params.valid(),
            self@.tiles.len() == self@.params.size(),
            x < self@.params.width,
            y < self@.params.height,
        ensures
            r == y * self@.params.width + x,
            r < self@.tiles.len(),
    {
        proof {
            lemma_index_in_bounds(self.params.width as int, self.params.height as int, x as int, y as int);
        }
        y * self.params.width + x
    }
}

} // verus!
