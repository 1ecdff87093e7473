//! The explosion schedule of a lost game: the mines go off ring by ring
//! around the tile that set them off.
use vstd::prelude::*;

use itertools::Itertools;

use crate::minefield::Board;

verus! {

/// Time between two rings of explosions.
pub const EXPLOSION_RING_DELAY: u32 = 80;

/// One mine going off at `pos`, `delay` time units after the defeat.
#[derive(Debug, Clone, Copy)]
pub struct Explosion {
    pub pos: (usize, usize),
    pub delay: u32,
}

#[derive(Debug)]
pub struct DefeatState {
    pub explosions: Vec<Explosion>,
    pub elapsed_milisec: u32,
}

impl DefeatState {
    /// Advances the stage's own timer.
    pub fn update(&mut self, delta_milisec: u32)
        ensures
            final(self).explosions@ == old(self).explosions@,
            final(self).elapsed_milisec == old(self).elapsed_milisec.saturating_add(delta_milisec),
    {
        self.elapsed_milisec = self.elapsed_milisec.saturating_add(delta_milisec);
    }
}

pub open spec fn abs_diff(a: usize, b: usize) -> nat {
    if a >= b {
        (a - b) as nat
    } else {
        (b - a) as nat
    }
}

/// Chebyshev distance: the number of king moves between two tiles.
pub open spec fn chebyshev(p: (usize, usize), q: (usize, usize)) -> nat {
    if abs_diff(p.0, q.0) >= abs_diff(p.1, q.1) {
        abs_diff(p.0, q.0)
    } else {
        abs_diff(p.1, q.1)
    }
}

/// The keys of the maximal runs of equal consecutive elements of `s`.
pub open spec fn run_keys(s: Seq<usize>) -> Seq<usize>
    decreases s.len(),
{
    if s.len() == 0 {
        seq![]
    } else if s.len() >= 2 && s[s.len() - 1] == s[s.len() - 2] {
        run_keys(s.drop_last())
    } else {
        run_keys(s.drop_last()).push(s.last())
    }
}

pub fn distance(from: (usize, usize), p: (usize, usize)) -> (r: usize)
    ensures
        r == chebyshev(from, p),
{
    let dx = if from.0 >= p.0 {
        from.0 - p.0
    } else {
        p.0 - from.0
    };
    let dy = if from.1 >= p.1 {
        from.1 - p.1
    } else {
        p.1 - from.1
    };
    if dx >= dy {
        dx
    } else {
        dy
    }
}

/// Relies on `slice::sort_by_key` (std): the same elements, in nondecreasing
/// order of their distance from `from`.
#[verifier::external_body]
fn sort_by_distance(v: &mut Vec<(usize, usize)>, from: (usize, usize))
    ensures
        final(v)@.to_multiset() == old(v)@.to_multiset(),
        forall|i: int, j: int|
            0 <= i < j < final(v)@.len() ==> chebyshev(from, #[trigger] final(v)@[i]) <= chebyshev(
                from,
                #[trigger] final(v)@[j],
            ),
{
    v.sort_by_key(|p| distance(from, *p))
}

/// Relies on itertools' `chunk_by`: consecutive equal elements form one group,
/// and the groups come in order, each with its key.
#[verifier::external_body]
fn ring_keys(dists: &Vec<usize>) -> (r: Vec<usize>)
    ensures
        r@ == run_keys(dists@),
{
    dists.iter().chunk_by(|d| **d).into_iter().map(|(k, _)| k).collect()
}

proof fn lemma_run_keys_step(s: Seq<usize>, j: int)
    requires
        0 <= j < s.len(),
    ensures
        run_keys(s.subrange(0, j + 1)) == if j > 0 && s[j] == s[j - 1] {
            run_keys(s.subrange(0, j))
        } else {
            run_keys(s.subrange(0, j)).push(s[j])
        },
{
    assert(s.subrange(0, j + 1).drop_last() =~= s.subrange(0, j));
}

proof fn lemma_run_keys_prefix(s: Seq<usize>, j: int)
    requires
        0 <= j <= s.len(),
    ensures
        run_keys(s.subrange(0, j)).len() <= run_keys(s).len(),
        run_keys(s).subrange(0, run_keys(s.subrange(0, j)).len() as int) == run_keys(s.subrange(0, j)),
    decreases s.len() - j,
{
    if j == s.len() {
        assert(s.subrange(0, j) =~= s);
        assert(run_keys(s).subrange(0, run_keys(s).len() as int) =~= run_keys(s));
    } else {
        lemma_run_keys_prefix(s, j + 1);
        lemma_run_keys_step(s, j);
        let a = run_keys(s.subrange(0, j));
        let b = run_keys(s.subrange(0, j + 1));
        let k = run_keys(s);
        assert(k.subrange(0, b.len() as int) == b);
        if b != a {
            assert(k.subrange(0, a.len() as int) =~= b.subrange(0, a.len() as int));
            assert(b.subrange(0, a.len() as int) =~= a);
        }
    }
}

proof fn lemma_run_keys_len(s: Seq<usize>)
    ensures
        run_keys(s).len() <= s.len(),
    decreases s.len(),
{
    if s.len() > 0 {
        lemma_run_keys_len(s.drop_last());
    }
}

proof fn lemma_run_keys_last(s: Seq<usize>)
    requires
        s.len() > 0,
    ensures
        run_keys(s).len() > 0,
        run_keys(s).last() == s.last(),
    decreases s.len(),
{
    if s.len() >= 2 && s[s.len() - 1] == s[s.len() - 2] {
        lemma_run_keys_last(s.drop_last());
    }
}

/// The delay of a ring `span` distance units beyond the nearest ring:
/// `span` times `EXPLOSION_RING_DELAY`, saturating at `u32::MAX`.
pub open spec fn ring_delay(span: int) -> u32 {
    if span * EXPLOSION_RING_DELAY <= u32::MAX {
        (span * EXPLOSION_RING_DELAY) as u32
    } else {
        u32::MAX
    }
}

pub fn delay_for(span: usize) -> (r: u32)
    ensures
        r == ring_delay(span as int),
{
    if span > (u32::MAX / EXPLOSION_RING_DELAY) as usize {
        u32::MAX
    } else {
        span as u32 * EXPLOSION_RING_DELAY
    }
}

/// The explosions of the mines at `mines`, the defeat set off at `from`:
/// nearest first, each ring of mines at one distance sharing a delay, which
/// is `EXPLOSION_RING_DELAY` for each unit of distance beyond the nearest
/// ring (saturating).
pub fn explosion_schedule(from: (usize, usize), mines: &Vec<(usize, usize)>) -> (r: Vec<Explosion>)
    ensures
        r@.map_values(|e: Explosion| e.pos).to_multiset() == mines@.to_multiset(),
        r@.len() == mines@.len(),
        forall|i: int, j: int|
            0 <= i < j < r@.len() ==> chebyshev(from, (#[trigger] r@[i]).pos) <= chebyshev(from, (#[trigger] r@[j]).pos),
        forall|i: int|
            0 <= i < r@.len() ==> (#[trigger] r@[i]).delay == ring_delay(
                chebyshev(from, r@[i].pos) - chebyshev(from, r@[0].pos),
            ),
{
    let mut sorted: Vec<(usize, usize)> = Vec::new();
    let mut k: usize = 0;
    while k < mines.len()
        invariant
            k <= mines@.len(),
            sorted@ == mines@.subrange(0, k as int),
        decreases mines@.len() - k,
    {
        sorted.push(mines[k]);
        k += 1;
        assert(sorted@ =~= mines@.subrange(0, k as int));
    }
    assert(sorted@ =~= mines@);
    sort_by_distance(&mut sorted, from);
    proof {
        vstd::seq_lib::to_multiset_len(sorted@);
        vstd::seq_lib::to_multiset_len(mines@);
    }
    let n = sorted.len();
    let mut dists: Vec<usize> = Vec::new();
    let mut k: usize = 0;
    while k < n
        invariant
            k <= n == sorted@.len(),
            dists@.len() == k,
            forall|j: int| 0 <= j < k ==> #[trigger] dists@[j] == chebyshev(from, sorted@[j]),
        decreases n - k,
    {
        dists.push(distance(from, sorted[k]));
        k += 1;
    }
    let keys = ring_keys(&dists);
    let mut explosions: Vec<Explosion> = Vec::new();
    let mut ring: usize = 0;
    let mut j: usize = 0;
    while j < n
        invariant
            j <= n == sorted@.len() == dists@.len(),
            forall|i: int| 0 <= i < n ==> #[trigger] dists@[i] == chebyshev(from, sorted@[i]),
            forall|a: int, b: int|
                0 <= a < b < n ==> chebyshev(from, #[trigger] sorted@[a]) <= chebyshev(from, #[trigger] sorted@[b]),
            keys@ == run_keys(dists@),
            explosions@.len() == j,
            forall|i: int| 0 <= i < j ==> (#[trigger] explosions@[i]).pos == sorted@[i],
            j > 0 ==> {
                &&& run_keys(dists@.subrange(0, j as int)).len() == ring + 1
                &&& keys@[ring as int] == dists@[j - 1]
                &&& keys@[0] == dists@[0]
            },
            j == 0 ==> ring == 0,
            forall|i: int|
                0 <= i < j ==> (#[trigger] explosions@[i]).delay == ring_delay(dists@[i] - dists@[0]),
        decreases n - j,
    {
        proof {
            lemma_run_keys_step(dists@, j as int);
            lemma_run_keys_prefix(dists@, j + 1);
            lemma_run_keys_last(dists@.subrange(0, j + 1));
            assert(dists@.subrange(0, j + 1).last() == dists@[j as int]);
            if j == 0 {
                assert(run_keys(dists@.subrange(0, 1)).len() == 1);
                assert(keys@.subrange(0, 1)[0] == keys@[0]);
            }
        }
        if j > 0 && keys[ring] != dists[j] {
            assert(run_keys(dists@.subrange(0, j + 1)).len() == ring + 2);
            proof {
                lemma_run_keys_len(dists@);
            }
            ring += 1;
        }
        proof {
            assert(keys@.subrange(0, ring + 1)[ring as int] == keys@[ring as int]);
            if j > 0 {
                assert(chebyshev(from, sorted@[0]) <= chebyshev(from, sorted@[j as int]));
            }
        }
        // the ring's key against the nearest ring's key
        let delay = delay_for(keys[ring] - keys[0]);
        explosions.push(Explosion { pos: sorted[j], delay });
        j += 1;
    }
    proof {
        assert(explosions@.map_values(|e: Explosion| e.pos) =~= sorted@);
    }
    explosions
}

/// The positions of the mines of `board`, row by row.
pub fn mine_positions(board: &Board) -> (r: Vec<(usize, usize)>)
    requires
        board.wf(),
    ensures
        forall|k: int|
            0 <= k < r@.len() ==> board@.in_bounds((#[trigger] r@[k]).0 as int, r@[k].1 as int)
                && board@.at(r@[k].0 as int, r@[k].1 as int).object is Mine,
        forall|x: int, y: int|
            board@.in_bounds(x, y) && (#[trigger] board@.at(x, y)).object is Mine ==> r@.contains(
                (x as usize, y as usize),
            ),
        forall|a: int, b: int|
            0 <= a < b < r@.len() ==> (#[trigger] r@[a]).1 < (#[trigger] r@[b]).1 || (r@[a].1 == r@[b].1 && r@[a].0 < r@[b].0),
{
    let (width, height) = board.dims();
    let mut r: Vec<(usize, usize)> = Vec::new();
    let mut y: usize = 0;
    while y < height
        invariant
            board.wf(),
            width == board@.width(),
            height == board@.height(),
            y <= height,
            forall|k: int|
                0 <= k < r@.len() ==> board@.in_bounds((#[trigger] r@[k]).0 as int, r@[k].1 as int)
                    && board@.at(r@[k].0 as int, r@[k].1 as int).object is Mine && r@[k].1 < y,
            forall|xx: int, yy: int|
                0 <= yy < y && board@.in_bounds(xx, yy) && (#[trigger] board@.at(xx, yy)).object is Mine
                    ==> r@.contains((xx as usize, yy as usize)),
            forall|a: int, b: int|
                0 <= a < b < r@.len() ==> (#[trigger] r@[a]).1 < (#[trigger] r@[b]).1 || (r@[a].1 == r@[b].1 && r@[a].0 < r@[b].0),
        decreases height - y,
    {
        let mut x: usize = 0;
        while x < width
            invariant
                board.wf(),
                width == board@.width(),
                height == board@.height(),
                y < height,
                x <= width,
                forall|k: int|
                    0 <= k < r@.len() ==> board@.in_bounds((#[trigger] r@[k]).0 as int, r@[k].1 as int)
                        && board@.at(r@[k].0 as int, r@[k].1 as int).object is Mine && (r@[k].1 < y || (r@[k].1 == y && r@[k].0 < x)),
                forall|xx: int, yy: int|
                    (0 <= yy < y || (yy == y && 0 <= xx < x)) && board@.in_bounds(xx, yy) && (#[trigger] board@.at(xx, yy)).object is Mine
                        ==> r@.contains((xx as usize, yy as usize)),
                forall|a: int, b: int|
                    0 <= a < b < r@.len() ==> (#[trigger] r@[a]).1 < (#[trigger] r@[b]).1 || (r@[a].1 == r@[b].1 && r@[a].0 < r@[b].0),
            decreases width - x,
        {
            if board.tile(x, y).is_mine() {
                let ghost before = r@;
                r.push((x, y));
                proof {
                    assert forall|xx: int, yy: int|
                        (0 <= yy < y || (yy == y && 0 <= xx < x + 1)) && board@.in_bounds(xx, yy) && (#[trigger] board@.at(xx, yy)).object is Mine
                            implies r@.contains((xx as usize, yy as usize)) by {
                        if xx == x && yy == y {
                            assert(r@[r@.len() - 1] == (x, y));
                        } else {
                            assert(before.contains((xx as usize, yy as usize)));
                            let m = choose|m: int| 0 <= m < before.len() && before[m] == (xx as usize, yy as usize);
                            assert(r@[m] == before[m]);
                        }
                    }
                }
            }
            x += 1;
        }
        y += 1;
    }
    r
}

} // verus!
