use vstd::prelude::*;

use nanorand::WyRand;

verus! {

#[verifier::external_type_specification]
#[verifier::external_body]
pub struct ExWyRand(nanorand::WyRand);

/// Relies on `nanorand::WyRand::new`: a generator seeded from the system's
/// entropy. Nothing is promised of its state.
#[verifier::external_body]
pub(crate) fn entropy_rng() -> WyRand {
    WyRand::new()
}

/// Relies on nanorand's `RandomRange::random_range` for `usize` over
/// `0..bound`: a number below `bound` (the range is not empty).
#[verifier::external_body]
fn random_below(rng: &mut WyRand, bound: usize) -> (r: usize)
    requires
        bound > 0,
    ensures
        r < bound,
{
    nanorand::RandomRange::random_range(rng, 0..bound)
}

/// Draws that fit `c_len` candidates and `n` slots: one for each candidate
/// past the first `n`, the `i`-th below `n + i + 1`.
pub open spec fn valid_draws(c_len: int, n: int, d: Seq<usize>) -> bool {
    &&& d.len() == if c_len > n {
        c_len - n
    } else {
        0
    }
    &&& forall|i: int| 0 <= i < d.len() ==> #[trigger] d[i] < n + i + 1
}

/// The reservoir after the first `k` draws: it starts as the first `n`
/// candidates, and the `i`-th draw puts candidate `n + i` in slot `d[i]`
/// when that slot exists, and drops the candidate otherwise.
pub open spec fn reservoir_after(c: Seq<usize>, d: Seq<usize>, n: int, k: int) -> Seq<usize>
    decreases k,
{
    if k <= 0 {
        c.subrange(0, n)
    } else {
        let r = reservoir_after(c, d, n, k - 1);
        if d[k - 1] < n {
            r.update(d[k - 1] as int, c[n + k - 1])
        } else {
            r
        }
    }
}

/// What reservoir sampling keeps of `c` for `n` slots, given the draws `d`:
/// everything when there are at most `n` candidates.
pub open spec fn reservoir(c: Seq<usize>, d: Seq<usize>, n: int) -> Seq<usize> {
    if c.len() <= n {
        c
    } else {
        reservoir_after(c, d, n, c.len() - n)
    }
}

/// Each element of `r` is a candidate of `c`, no candidate position used twice.
pub open spec fn drawn_from(r: Seq<usize>, c: Seq<usize>) -> bool {
    exists|f: Seq<int>|
        f.len() == r.len() && f.no_duplicates() && forall|k: int|
            0 <= k < r.len() ==> 0 <= #[trigger] f[k] < c.len() && r[k] == c[f[k]]
}

/// Reservoir sampling of `n` of `candidates`, the random choices given as
/// `draws`.
pub fn sample_with_draws(candidates: &Vec<usize>, draws: &Vec<usize>, n: usize) -> (r: Vec<usize>)
    requires
        valid_draws(candidates@.len() as int, n as int, draws@),
    ensures
        r@ == reservoir(candidates@, draws@, n as int),
        r@.len() == if candidates@.len() < n {
            candidates@.len()
        } else {
            n as nat
        },
        drawn_from(r@, candidates@),
        forall|k: int| 0 <= k < r@.len() ==> candidates@.contains(#[trigger] r@[k]),
        candidates@.no_duplicates() ==> r@.no_duplicates(),
{
    let mut kept: Vec<usize> = Vec::new();
    let mut i: usize = 0;
    while i < n && i < candidates.len()
        invariant
            i <= n,
            i <= candidates@.len(),
            kept@ == candidates@.subrange(0, i as int),
        decreases n - i,
    {
        kept.push(candidates[i]);
        i += 1;
        assert(kept@ =~= candidates@.subrange(0, i as int));
    }
    if kept.len() < n || candidates.len() == n {
        assert(candidates@.subrange(0, i as int) =~= candidates@);
        proof {
            let f = Seq::new(kept@.len(), |k: int| k);
            assert(f.len() == kept@.len() && f.no_duplicates() && forall|k: int|
                0 <= k < kept@.len() ==> 0 <= #[trigger] f[k] < candidates@.len() && kept@[k] == candidates@[f[k]]);
            assert forall|k: int| 0 <= k < kept@.len() implies candidates@.contains(#[trigger] kept@[k]) by {
                assert(kept@[k] == candidates@[k]);
            }
        }
        return kept;
    }
    // Each slot holds the candidate at the index that `origin` gives.
    let ghost mut origin: Seq<int> = Seq::new(n as nat, |k: int| k);
    let mut j: usize = n;
    while j < candidates.len()
        invariant
            n <= j <= candidates@.len(),
            n < candidates@.len(),
            valid_draws(candidates@.len() as int, n as int, draws@),
            kept@ == reservoir_after(candidates@, draws@, n as int, j - n),
            kept@.len() == n,
            origin.len() == n,
            forall|k: int| 0 <= k < n ==> 0 <= #[trigger] origin[k] < j,
            forall|k: int| 0 <= k < n ==> kept@[k] == candidates@[#[trigger] origin[k]],
            origin.no_duplicates(),
        decreases candidates@.len() - j,
    {
        let index = draws[j - n];
        if index < n {
            kept.set(index, candidates[j]);
            proof {
                origin = origin.update(index as int, j as int);
            }
        }
        j += 1;
    }
    proof {
        assert(kept@ == reservoir(candidates@, draws@, n as int));
        assert(origin.len() == kept@.len() && origin.no_duplicates() && forall|k: int|
            0 <= k < kept@.len() ==> 0 <= #[trigger] origin[k] < candidates@.len() && kept@[k] == candidates@[origin[k]]);
        assert forall|k: int| 0 <= k < kept@.len() implies candidates@.contains(#[trigger] kept@[k]) by {
            assert(kept@[k] == candidates@[origin[k]]);
        }
        if candidates@.no_duplicates() {
            assert forall|a: int, b: int| 0 <= a < kept@.len() && 0 <= b < kept@.len() && a != b
                implies kept@[a] != kept@[b] by {
                assert(origin[a] != origin[b]);
            }
        }
    }
    kept
}

/// Picks `n` of `candidates` by reservoir sampling, drawing from `rng` one
/// number for each candidate past the first `n`; all of them where there are
/// at most `n`. Whatever the generator gives, the result is what
/// `sample_with_draws` makes of some valid draws.
pub fn choose_multiple(candidates: &Vec<usize>, rng: &mut WyRand, n: usize) -> (r: Vec<usize>)
    ensures
        exists|d: Seq<usize>|
            valid_draws(candidates@.len() as int, n as int, d) && r@ == #[trigger] reservoir(
                candidates@,
                d,
                n as int,
            ),
        candidates@.len() <= n ==> r@ == candidates@,
        candidates@.len() >= n ==> r@.len() == n,
        drawn_from(r@, candidates@),
        forall|k: int| 0 <= k < r@.len() ==> candidates@.contains(#[trigger] r@[k]),
        candidates@.no_duplicates() ==> r@.no_duplicates(),
{
    let len = candidates.len();
    let extra: usize = if len > n {
        len - n
    } else {
        0
    };
    let mut draws: Vec<usize> = Vec::new();
    let mut i: usize = 0;
    while i < extra
        invariant
            i <= extra,
            extra == (if candidates@.len() > n {
                candidates@.len() - n
            } else {
                0
            }),
            len == candidates@.len(),
            extra > 0 ==> n + extra == len,
            draws@.len() == i,
            forall|k: int| 0 <= k < i ==> #[trigger] draws@[k] < n + k + 1,
        decreases extra - i,
    {
        draws.push(random_below(rng, n + i + 1));
        i += 1;
    }
    sample_with_draws(candidates, &draws, n)
}

} // verus!
