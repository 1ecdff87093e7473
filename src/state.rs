//! The stage controller: which stage the game is in, and what each tick's
//! input does to it and to the board.
use vstd::prelude::*;

pub mod defeat;

use crate::counting::objects;
use crate::minefield::Object::Mine;
use crate::minefield::{lemma_unplaced, Board, BoardView, Params};
use defeat::{chebyshev, explosion_schedule, mine_positions, ring_delay, DefeatState, Explosion};

verus! {

/// Side of a tile, in pixels: tile `(x, y)` covers the pixels
/// `[x * TILE_SIZE, (x + 1) * TILE_SIZE)` by `[y * TILE_SIZE, (y + 1) * TILE_SIZE)`.
pub const TILE_SIZE: i64 = 40;

/// The mines to celebrate once the game is won.
#[derive(Debug)]
pub struct VictoryState {
    pub mines: Vec<(usize, usize)>,
    pub elapsed_milisec: u32,
}

#[derive(Debug)]
pub enum Stage {
    Playing,
    Paused,
    Victory(VictoryState),
    Defeat(DefeatState),
}

/// What the host saw during one tick: the pointer's position in whole pixels,
/// the buttons and keys just pressed, and the time since the previous tick.
#[derive(Debug, Clone, Copy)]
pub struct Input {
    pub pointer_x: i64,
    pub pointer_y: i64,
    pub primary: bool,
    pub secondary: bool,
    pub pause: bool,
    pub confirm: bool,
    pub reset: bool,
    pub delta_milisec: u32,
}

#[derive(Debug)]
pub struct State {
    stage: Stage,
    board: Board,
    hover: Option<(usize, usize)>,
    run_timer_milisec: u32,
}

pub ghost struct StateView {
    pub stage: Stage,
    pub board: BoardView,
    pub hover: Option<(usize, usize)>,
    pub run_timer_milisec: u32,
}

/// The tile under pixel `(px, y)` of a board `w` by `h` tiles, if any.
pub open spec fn pixel_to_tile(w: int, h: int, px: int, py: int) -> Option<(usize, usize)> {
    if 0 <= px && 0 <= py && px / (TILE_SIZE as int) < w && py / (TILE_SIZE as int) < h {
        Some(((px / (TILE_SIZE as int)) as usize, (py / (TILE_SIZE as int)) as usize))
    } else {
        None
    }
}

/// `ms` lists each mine of `board` once, row by row.
pub open spec fn is_mine_list(board: BoardView, ms: Seq<(usize, usize)>) -> bool {
    &&& forall|k: int|
        0 <= k < ms.len() ==> board.in_bounds((#[trigger] ms[k]).0 as int, ms[k].1 as int) && board.at(
            ms[k].0 as int,
            ms[k].1 as int,
        ).object is Mine
    &&& forall|x: int, y: int|
        board.in_bounds(x, y) && (#[trigger] board.at(x, y)).object is Mine
            ==> ms.contains((x as usize, y as usize))
    &&& forall|a: int, b: int|
        0 <= a < b < ms.len() ==> (#[trigger] ms[a]).1 < (#[trigger] ms[b]).1 || (ms[a].1 == ms[b].1
            && ms[a].0 < ms[b].0)
}

/// The positions of the explosions, in order.
pub open spec fn positions(ex: Seq<Explosion>) -> Seq<(usize, usize)> {
    ex.map_values(|e: Explosion| e.pos)
}

/// `ex` sets off every mine of `board` once, from `from` outwards: nearest
/// first, each ring of mines at one distance sharing a delay of
/// `EXPLOSION_RING_DELAY` per unit of distance beyond the nearest ring.
pub open spec fn is_explosion_schedule(board: BoardView, from: (usize, usize), ex: Seq<Explosion>) -> bool {
    &&& forall|k: int|
        0 <= k < ex.len() ==> board.in_bounds((#[trigger] ex[k]).pos.0 as int, ex[k].pos.1 as int) && board.at(
            ex[k].pos.0 as int,
            ex[k].pos.1 as int,
        ).object is Mine
    &&& forall|x: int, y: int|
        board.in_bounds(x, y) && (#[trigger] board.at(x, y)).object is Mine ==> positions(ex).contains(
            (x as usize, y as usize),
        )
    &&& positions(ex).no_duplicates()
    &&& forall|i: int, j: int|
        0 <= i < j < ex.len() ==> chebyshev(from, (#[trigger] ex[i]).pos) <= chebyshev(from, (#[trigger] ex[j]).pos)
    &&& forall|i: int|
        0 <= i < ex.len() ==> (#[trigger] ex[i]).delay == ring_delay(
            chebyshev(from, ex[i].pos) - chebyshev(from, ex[0].pos),
        )
}

impl StateView {
    /// The board is sound, and the stage agrees with it: a game in play is
    /// neither lost nor won, a defeat shows a lost board, a victory a won one.
    pub open spec fn wf(self) -> bool {
        &&& self.board.wf()
        &&& (self.stage is Playing || self.stage is Paused) ==> !self.board.defeat && self.board.covered
            != self.board.params.mines
        &&& self.stage is Defeat ==> self.board.defeat
        &&& self.stage is Victory ==> !self.board.defeat && self.board.covered == self.board.params.mines
    }

    /// The tick's pointer position, as a tile.
    pub open spec fn hover_of(self, input: Input) -> Option<(usize, usize)> {
        pixel_to_tile(self.board.width(), self.board.height(), input.pointer_x as int, input.pointer_y as int)
    }

    /// What a tick in play does to the board: a primary action on the tile
    /// under the pointer (unless the mines could not be placed around it), or
    /// else a secondary one; off the board, nothing.
    pub open spec fn board_post(self, input: Input, next: BoardView) -> bool {
        match self.hover_of(input) {
            Some(p) => if input.primary {
                if self.board.placed || self.board.room_for_mines(p.0 as int, p.1 as int) {
                    &&& next.placed
                    &&& !self.board.placed ==> next.opening_safe(p.0 as int, p.1 as int)
                    &&& self.board.with_objects(objects(next.tiles)).primary_post(next, p.0 as int, p.1 as int)
                } else {
                    next == self.board
                }
            } else if input.secondary {
                next == self.board.after_secondary(p.0 as int, p.1 as int)
            } else {
                next == self.board
            },
            None => next == self.board,
        }
    }

    /// One tick in play: the timer runs once the mines are placed, the
    /// pointer's tile is hovered, the board acts; a lost board moves to the
    /// defeat with its explosion schedule, a won one to the victory with its
    /// mines, and the pause key to the pause.
    pub open spec fn playing_post(self, input: Input, next: StateView) -> bool {
        &&& next.hover == self.hover_of(input)
        &&& next.run_timer_milisec == if self.board.placed {
            self.run_timer_milisec.saturating_add(input.delta_milisec)
        } else {
            self.run_timer_milisec
        }
        &&& self.board_post(input, next.board)
        &&& if next.board.defeat {
            &&& self.hover_of(input) is Some
            &&& match next.stage {
                Stage::Defeat(ds) => ds.elapsed_milisec == 0 && is_explosion_schedule(
                    next.board,
                    self.hover_of(input)->Some_0,
                    ds.explosions@,
                ),
                _ => false,
            }
        } else if next.board.covered == next.board.params.mines {
            match next.stage {
                Stage::Victory(vs) => vs.elapsed_milisec == 0 && is_mine_list(next.board, vs.mines@),
                _ => false,
            }
        } else if input.pause {
            next.stage is Paused
        } else {
            next.stage is Playing
        }
    }

    /// One tick after the game ended: the reset key starts a new game on a
    /// fresh board; otherwise the stage's own timer runs.
    pub open spec fn finished_post(self, input: Input, next: StateView) -> bool {
        if input.reset {
            &&& next.stage is Playing
            &&& next.board == BoardView::pristine(self.board.params)
            &&& next.hover is None
            &&& next.run_timer_milisec == 0
        } else {
            &&& next.board == self.board
            &&& next.hover is None
            &&& next.run_timer_milisec == self.run_timer_milisec
            &&& match (self.stage, next.stage) {
                (Stage::Defeat(a), Stage::Defeat(b)) => b.explosions@ == a.explosions@ && b.elapsed_milisec
                    == a.elapsed_milisec.saturating_add(input.delta_milisec),
                (Stage::Victory(a), Stage::Victory(b)) => b.mines@ == a.mines@ && b.elapsed_milisec
                    == a.elapsed_milisec.saturating_add(input.delta_milisec),
                _ => false,
            }
        }
    }

    /// One tick of the stage machine.
    pub open spec fn step(self, input: Input, next: StateView) -> bool {
        match self.stage {
            Stage::Playing => self.playing_post(input, next),
            Stage::Paused => if input.confirm {
                next == (StateView { stage: Stage::Playing, ..self })
            } else {
                next == self
            },
            _ => self.finished_post(input, next),
        }
    }
}

impl View for State {
    type V = StateView;

    closed spec fn view(&self) -> StateView {
        StateView {
            stage: self.stage,
            board: self.board@,
            hover: self.hover,
            run_timer_milisec: self.run_timer_milisec,
        }
    }
}

/// The defeat stage for `board`, lost at `from`.
pub fn transition_defeat(board: &Board, from: (usize, usize)) -> (r: DefeatState)
    requires
        board.wf(),
    ensures
        r.elapsed_milisec == 0,
        is_explosion_schedule(board@, from, r.explosions@),
{
    let mines = mine_positions(board);
    let explosions = explosion_schedule(from, &mines);
    proof {
        let ps = positions(explosions@);
        let ms = mines@;
        assert(ps.to_multiset() == ms.to_multiset());
        assert(ms.no_duplicates()) by {
            assert forall|a: int, b: int| 0 <= a < ms.len() && 0 <= b < ms.len() && a != b implies ms[a] != ms[b] by {
                if a < b {
                    assert(ms[a].1 < ms[b].1 || (ms[a].1 == ms[b].1 && ms[a].0 < ms[b].0));
                } else {
                    assert(ms[b].1 < ms[a].1 || (ms[b].1 == ms[a].1 && ms[b].0 < ms[a].0));
                }
            }
        }
        ms.lemma_multiset_has_no_duplicates();
        ps.lemma_multiset_has_no_duplicates_conv();
        assert forall|p: (usize, usize)| #[trigger] ps.contains(p) <==> ms.contains(p) by {
            vstd::seq_lib::to_multiset_contains(ps, p);
            vstd::seq_lib::to_multiset_contains(ms, p);
        }
        assert forall|k: int| 0 <= k < explosions@.len() implies board@.in_bounds((#[trigger] explosions@[k]).pos.0 as int, explosions@[k].pos.1 as int)
            && board@.at(explosions@[k].pos.0 as int, explosions@[k].pos.1 as int).object is Mine by {
            assert(ps[k] == explosions@[k].pos);
            assert(ps.contains(ps[k]));
            let m = choose|m: int| 0 <= m < ms.len() && ms[m] == ps[k];
        }
    }
    DefeatState { explosions, elapsed_milisec: 0 }
}

/// The victory stage for `board`.
pub fn transition_victory(board: &Board) -> (r: VictoryState)
    requires
        board.wf(),
    ensures
        r.elapsed_milisec == 0,
        is_mine_list(board@, r.mines@),
{
    VictoryState { mines: mine_positions(board), elapsed_milisec: 0 }
}

impl State {
    pub open spec fn wf(&self) -> bool {
        self@.wf()
    }

    /// A new game in play on `board`.
    pub fn with_board(board: Board) -> (r: State)
        requires
            board.wf(),
            !board@.placed,
        ensures
            r.wf(),
            r@ == (StateView { stage: Stage::Playing, board: board@, hover: None, run_timer_milisec: 0 }),
    {
        proof {
            lemma_unplaced(board@);
        }
        State { stage: Stage::Playing, board, hover: None, run_timer_milisec: 0 }
    }

    /// A new game in play on an expert board.
    pub fn new() -> (r: State)
        ensures
            r.wf(),
            r@.stage is Playing,
            r@.board == BoardView::pristine(Params { width: 30, height: 16, mines: 99 }),
            r@.hover is None,
            r@.run_timer_milisec == 0,
    {
        State::with_board(Board::expert())
    }

    /// The tile under the pixel `(mouse_x, mouse_y)`, if it lies on the board.
    pub fn mouse_to_board_coords(&self, mouse_x: i64, mouse_y: i64) -> (r: Option<(usize, usize)>)
        ensures
            r == pixel_to_tile(self@.board.width(), self@.board.height(), mouse_x as int, mouse_y as int),
    {
        let (width, height) = self.board.dims();
        if mouse_x < 0 || mouse_y < 0 {
            return None;
        }
        let board_x = mouse_x / TILE_SIZE;
        let board_y = mouse_y / TILE_SIZE;
        if (board_x as u64) < (width as u64) && (board_y as u64) < (height as u64) {
            Some((board_x as usize, board_y as usize))
        } else {
            None
        }
    }

    pub fn stage(&self) -> (r: &Stage)
        ensures
            *r == self@.stage,
    {
        &self.stage
    }

    pub fn board(&self) -> (r: &Board)
        ensures
            r@ == self@.board,
    {
        &self.board
    }

    pub fn hover_index(&self) -> (r: Option<(usize, usize)>)
        ensures
            r == self@.hover,
    {
        self.hover
    }

    pub fn run_timer_milisec(&self) -> (r: u32)
        ensures
            r == self@.run_timer_milisec,
    {
        self.run_timer_milisec
    }

    /// One tick: routes the input to the active stage.
    pub fn update(&mut self, input: &Input)
        requires
            old(self).wf(),
        ensures
            final(self).wf(),
            old(self)@.step(*input, final(self)@),
    {
        match self.stage {
            Stage::Playing => self.update_playing(input),
            Stage::Paused => {
                if input.confirm {
                    self.stage = Stage::Playing;
                }
            },
            _ => self.update_finished(input),
        }
    }

    fn update_playing(&mut self, input: &Input)
        requires
            old(self).wf(),
            old(self)@.stage is Playing,
        ensures
            final(self).wf(),
            old(self)@.playing_post(*input, final(self)@),
    {
        if self.board.is_initialized() {
            self.run_timer_milisec = self.run_timer_milisec.saturating_add(input.delta_milisec);
        }
        let hover = self.mouse_to_board_coords(input.pointer_x, input.pointer_y);
        self.hover = hover;
        if let Some((x, y)) = hover {
            if input.primary {
                if self.board.is_initialized() || self.board.has_room_for_mines(x, y) {
                    self.board.handle_primary_action(x, y);
                    if self.board.is_defeat() {
                        self.stage = Stage::Defeat(transition_defeat(&self.board, (x, y)));
                        return;
                    }
                    if self.board.is_victory() {
                        self.stage = Stage::Victory(transition_victory(&self.board));
                        return;
                    }
                }
            } else if input.secondary {
                self.board.handle_secondary_action(x, y);
            }
        }
        if input.pause {
            self.stage = Stage::Paused;
        }
    }

    fn update_finished(&mut self, input: &Input)
        requires
            old(self).wf(),
            old(self)@.stage is Defeat || old(self)@.stage is Victory,
        ensures
            final(self).wf(),
            old(self)@.finished_post(*input, final(self)@),
    {
        self.hover = None;
        if input.reset {
            self.board.reset();
            self.run_timer_milisec = 0;
            self.stage = Stage::Playing;
            proof {
                lemma_unplaced(self.board@);
            }
            return;
        }
        match &mut self.stage {
            Stage::Defeat(ds) => ds.update(input.delta_milisec),
            Stage::Victory(vs) => {
                vs.elapsed_milisec = vs.elapsed_milisec.saturating_add(input.delta_milisec);
            },
            _ => {},
        }
    }
}

} // verus!
