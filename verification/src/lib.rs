//! Shamir's Secret Sharing over GF(2^8).
//!
//! A secret byte sequence is split into up to 255 shares such that any
//! `k` of them (the threshold) reconstruct it exactly, while fewer than
//! `k` reveal nothing.  One random polynomial of degree `k - 1` is built
//! per secret byte, shares are the evaluations of those polynomials at
//! the nonzero field points `x = 1, 2, ..`, and recovery runs Lagrange
//! interpolation at `x = 0` independently per byte.

use vstd::prelude::*;

mod algebra;
mod coords;
mod error;
mod field;
mod math;
mod random;
mod share;

pub use error::SharksError;
pub use field::GfTables;
pub use math::{get_evaluator, interpolate, random_polynomial, Evaluator};
pub use random::{RandomSource, ThreadRandom};
pub use share::Share;

use crate::coords::{x_coord_set_insert, x_coord_set_len, x_coord_set_new, x_coord_set_view};
use crate::math::{
    distinct_x_count, distinct_xs, has_dup_x, interpolate_spec, lemma_x_set_contains,
    lemma_x_set_finite, uniform_len, x_set,
};

verus! {

/// One step of the distinct-x scan: extending the scanned prefix by the
/// share at `i` introduces a duplicate exactly when one was already
/// there, or when `i`'s x-coordinate was already seen.
proof fn lemma_dup_step(shares: Seq<Share>, i: int)
    requires
        0 <= i < shares.len(),
    ensures
        has_dup_x(shares.take(i + 1)) <==> (has_dup_x(shares.take(i)) || x_set(
            shares.take(i),
        ).contains(shares[i].x)),
{
    lemma_x_set_contains(shares.take(i), shares[i].x);
    let pre = shares.take(i);
    let post = shares.take(i + 1);
    if has_dup_x(post) {
        let (p, q) = choose|p: int, q: int|
            0 <= p < q < post.len() && (#[trigger] post[p].x) == (#[trigger] post[q].x);
        if q < i {
            assert(pre[p].x == pre[q].x);
        } else {
            assert(pre[p].x == shares[i].x);
        }
    }
    if has_dup_x(pre) {
        let (p, q) = choose|p: int, q: int|
            0 <= p < q < pre.len() && (#[trigger] pre[p].x) == (#[trigger] pre[q].x);
        assert(post[p].x == post[q].x);
    }
    if x_set(pre).contains(shares[i].x) {
        let p = choose|p: int| 0 <= p < pre.len() && (#[trigger] pre[p].x) == shares[i].x;
        assert(post[p].x == post[i].x);
    }
}

/// The threshold configuration: generation and recovery of one sharing
/// session are both parameterized by the minimum number `k` of distinct
/// shares required to reconstruct the secret, which must lie in
/// `[1, 255]`.
#[derive(Debug)]
pub struct Sharks(pub u8);

impl Sharks {
    /// Validates the threshold and builds the configuration.
    pub fn new(threshold: u8) -> (r: Result<Sharks, SharksError>)
        ensures
            threshold >= 1 ==> r == Ok::<Sharks, SharksError>(Sharks(threshold)),
            threshold == 0 ==> r == Err::<Sharks, SharksError>(SharksError::ConfigurationError),
    {
        if threshold == 0 {
            Err(SharksError::ConfigurationError)
        } else {
            Ok(Sharks(threshold))
        }
    }

    /// Starts one dealer run over `secret` with an injected randomness
    /// source: one polynomial per secret byte, the byte as constant
    /// coefficient and `k - 1` coefficients sampled from `1..=255`, ready
    /// to be evaluated at `x = 1, 2, .., 255`.
    pub fn dealer_rng<R: RandomSource>(&self, secret: &[u8], rng: &mut R) -> (e: Evaluator)
        requires
            self.0 >= 1,
        ensures
            e.wf(),
            e.next_x() == 1,
            e.emitted() == Seq::<u8>::empty(),
            e.polys().len() == secret@.len(),
            forall|i: int|
                0 <= i < secret@.len() ==> (#[trigger] e.polys()[i]).len() == self.0 && e.polys()[
                    i
                ][self.0 - 1] == secret@[i],
            forall|i: int, j: int|
                0 <= i < secret@.len() && 0 <= j < self.0 - 1 ==> 1 <= #[trigger] e.polys()[i][j]
                    <= 255,
    {
        let mut polys: Vec<Vec<u8>> = Vec::new();
        let mut i: usize = 0;
        while i < secret.len()
            invariant
                self.0 >= 1,
                i <= secret@.len(),
                polys@.len() == i,
                forall|p: int|
                    0 <= p < i ==> (#[trigger] polys@[p]@).len() == self.0 && polys@[p]@[self.0
                        - 1] == secret@[p],
                forall|p: int, q: int|
                    0 <= p < i && 0 <= q < self.0 - 1 ==> 1 <= #[trigger] polys@[p]@[q] <= 255,
            decreases secret@.len() - i,
        {
            let poly = random_polynomial(secret[i], self.0, rng);
            polys.push(poly);
            i += 1;
        }
        get_evaluator(polys)
    }

    /// Starts one dealer run over `secret` with the default thread-local
    /// randomness source.
    pub fn dealer(&self, secret: &[u8]) -> (e: Evaluator)
        requires
            self.0 >= 1,
        ensures
            e.wf(),
            e.next_x() == 1,
            e.emitted() == Seq::<u8>::empty(),
            e.polys().len() == secret@.len(),
            forall|i: int|
                0 <= i < secret@.len() ==> (#[trigger] e.polys()[i]).len() == self.0 && e.polys()[
                    i
                ][self.0 - 1] == secret@[i],
            forall|i: int, j: int|
                0 <= i < secret@.len() && 0 <= j < self.0 - 1 ==> 1 <= #[trigger] e.polys()[i][j]
                    <= 255,
    {
        let mut rng = ThreadRandom::new();
        self.dealer_rng(secret, &mut rng)
    }

    /// Recovers the secret from a collection of shares.
    ///
    /// Fails with `InsufficientShares` when fewer than `k` distinct
    /// x-coordinates are present, and with `MalformedShares` when two
    /// shares carry the same x-coordinate or the y-vectors disagree in
    /// length; otherwise returns the per-chunk Lagrange interpolation of
    /// the shares at `x = 0`.
    pub fn recover(&self, shares: &[Share]) -> (r: Result<Vec<u8>, SharksError>)
        requires
            self.0 >= 1,
        ensures
            distinct_x_count(shares@) < self.0 ==> r == Err::<Vec<u8>, SharksError>(
                SharksError::InsufficientShares,
            ),
            distinct_x_count(shares@) >= self.0 && has_dup_x(shares@) ==> r == Err::<
                Vec<u8>,
                SharksError,
            >(SharksError::MalformedShares),
            distinct_x_count(shares@) >= self.0 && !has_dup_x(shares@) && !uniform_len(shares@)
                ==> r == Err::<Vec<u8>, SharksError>(SharksError::MalformedShares),
            distinct_x_count(shares@) >= self.0 && !has_dup_x(shares@) && uniform_len(shares@)
                ==> (r matches Ok(secret) && secret@ == interpolate_spec(shares@)),
    {
        let mut seen = x_coord_set_new();
        let mut dup: bool = false;
        let mut i: usize = 0;
        while i < shares.len()
            invariant
                i <= shares@.len(),
                x_coord_set_view(seen) == x_set(shares@.take(i as int)),
                dup == has_dup_x(shares@.take(i as int)),
            decreases shares@.len() - i,
        {
            let x = shares[i].x;
            proof {
                lemma_dup_step(shares@, i as int);
            }
            let absent = x_coord_set_insert(&mut seen, x);
            if !absent {
                dup = true;
            }
            proof {
                assert(shares@.take(i + 1).drop_last() =~= shares@.take(i as int));
                assert(shares@.take(i + 1).last() == shares@[i as int]);
                assert(x_set(shares@.take(i + 1)) == x_set(shares@.take(i as int)).insert(x));
            }
            i += 1;
        }
        proof {
            assert(shares@.take(shares@.len() as int) =~= shares@);
            lemma_x_set_finite(shares@);
            assert(x_coord_set_view(seen) == x_set(shares@));
            assert(x_set(shares@).finite());
        }
        let count: usize = x_coord_set_len(&seen);
        proof {
            assert(count == distinct_x_count(shares@));
        }
        if count < self.0 as usize {
            return Err(SharksError::InsufficientShares);
        }
        if dup {
            return Err(SharksError::MalformedShares);
        }
        proof {
            assert(!has_dup_x(shares@));
            if shares@.len() == 0 {
                assert(x_set(shares@) =~= Set::<u8>::empty());
                assert(distinct_x_count(shares@) == 0);
            }
        }
        let n_chunks: usize = shares[0].y.len();
        let mut j: usize = 1;
        while j < shares.len()
            invariant
                1 <= j <= shares@.len(),
                shares@.len() > 0,
                self.0 >= 1,
                distinct_x_count(shares@) >= self.0,
                !has_dup_x(shares@),
                n_chunks == shares@[0].y@.len(),
                forall|k: int| 0 <= k < j ==> (#[trigger] shares@[k]).y@.len() == n_chunks,
            decreases shares@.len() - j,
        {
            if shares[j].y.len() != n_chunks {
                return Err(SharksError::MalformedShares);
            }
            j += 1;
        }
        proof {
            assert(uniform_len(shares@));
            assert forall|p: int, q: int|
                0 <= p < q < shares@.len() implies (#[trigger] shares@[p].x) != (
            #[trigger] shares@[q].x) by {
                if shares@[p].x == shares@[q].x {
                    assert(has_dup_x(shares@));
                }
            }
            assert(distinct_xs(shares@));
        }
        Ok(interpolate(shares))
    }
}

} // verus!
