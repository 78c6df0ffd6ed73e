//! Shamir share computation: random polynomials, the lazy share
//! evaluator, and Lagrange interpolation at x = 0.

use vstd::prelude::*;

use crate::error::SharksError;
use crate::field::{gf_div, gf_mul, GfTables};
use crate::random::RandomSource;
use crate::share::Share;

verus! {

/// Horner evaluation of the first `n` coefficients (highest degree first)
/// of `poly` at `x`, in GF(2^8).
pub open spec fn horner_prefix(poly: Seq<u8>, x: u8, n: int) -> u8
    decreases n,
{
    if n <= 0 {
        0
    } else {
        gf_mul(horner_prefix(poly, x, n - 1), x) ^ poly[n - 1]
    }
}

/// Horner evaluation of the whole polynomial at `x`.
pub open spec fn horner(poly: Seq<u8>, x: u8) -> u8 {
    horner_prefix(poly, x, poly.len() as int)
}

/// The y-vector of the share at `x`: each polynomial evaluated there.
pub open spec fn eval_polys(polys: Seq<Seq<u8>>, x: u8) -> Seq<u8> {
    Seq::new(polys.len(), |i: int| horner(polys[i], x))
}

/// A polynomial of one constant coefficient evaluates to that constant
/// everywhere.
pub proof fn lemma_horner_constant(b: u8, x: u8)
    ensures
        horner(seq![b], x) == b,
{
    assert(horner_prefix(seq![b], x, 0) == 0);
    assert(gf_mul(0, x) == 0);
    assert(0u8 ^ b == b) by (bit_vector);
}

/// Generates the `k` coefficients of one secret byte's polynomial,
/// highest degree first: `k - 1` samples from the nonzero field values,
/// then the secret byte `s` as the constant coefficient.
pub fn random_polynomial<R: RandomSource>(s: u8, k: u8, rng: &mut R) -> (poly: Vec<u8>)
    requires
        k >= 1,
    ensures
        poly@.len() == k,
        poly@[k - 1] == s,
        forall|i: int| 0 <= i < k - 1 ==> 1 <= #[trigger] poly@[i] <= 255,
{
    let mut poly: Vec<u8> = Vec::new();
    let coeffs: usize = (k - 1) as usize;
    let mut i: usize = 0;
    while i < coeffs
        invariant
            i <= coeffs,
            poly@.len() == i,
            forall|j: int| 0 <= j < i ==> 1 <= #[trigger] poly@[j] <= 255,
        decreases coeffs - i,
    {
        let c = rng.sample_nonzero();
        poly.push(c);
        i += 1;
    }
    poly.push(s);
    poly
}

/// The lazy share stream of one dealer invocation: it owns the polynomial
/// set and yields the share at `x = 1, 2, .., 255` in ascending order,
/// one per call.  Restarting requires a fresh dealer invocation, which
/// samples fresh coefficients.
pub struct Evaluator {
    tables: GfTables,
    polys: Vec<Vec<u8>>,
    cursor: u16,
    emitted: Ghost<Seq<u8>>,
}

impl Evaluator {
    /// The polynomial set, one coefficient sequence per secret byte.
    pub closed spec fn polys(&self) -> Seq<Seq<u8>> {
        self.polys@.map_values(|p: Vec<u8>| p@)
    }

    /// The x-coordinate the next call will evaluate at; 256 once the
    /// stream is exhausted.
    pub closed spec fn next_x(&self) -> int {
        self.cursor as int
    }

    /// The x-coordinates emitted so far, in order.
    pub closed spec fn emitted(&self) -> Seq<u8> {
        self.emitted@
    }

    /// The owned field engine holds the correct tables.
    pub closed spec fn tables_ok(&self) -> bool {
        self.tables.wf()
    }

    /// The emitted x-coordinates are exactly 1 up to the cursor, so no
    /// x-coordinate is ever emitted twice within one run.
    pub open spec fn wf(&self) -> bool {
        &&& self.tables_ok()
        &&& 1 <= self.next_x() <= 256
        &&& self.emitted() == Seq::new((self.next_x() - 1) as nat, |i: int| (i + 1) as u8)
    }

    /// Produces the next share, or `None` once all 255 points are out.
    pub fn next_share(&mut self) -> (r: Option<Share>)
        requires
            old(self).wf(),
        ensures
            final(self).wf(),
            final(self).polys() == old(self).polys(),
            old(self).next_x() > 255 ==> r is None && final(self).next_x() == old(self).next_x()
                && final(self).emitted() == old(self).emitted(),
            old(self).next_x() <= 255 ==> (r matches Some(s) && s.x == old(self).next_x()
                && s.y@ == eval_polys(old(self).polys(), s.x) && final(self).next_x() == old(
                self,
            ).next_x() + 1 && final(self).emitted() == old(self).emitted().push(s.x)),
    {
        if self.cursor > 255 {
            None
        } else {
            let x = self.cursor as u8;
            let mut y: Vec<u8> = Vec::new();
            let mut i: usize = 0;
            while i < self.polys.len()
                invariant
                    self.tables.wf(),
                    i <= self.polys@.len(),
                    y@.len() == i,
                    forall|j: int| 0 <= j < i ==> y@[j] == horner(self.polys@[j]@, x),
                decreases self.polys@.len() - i,
            {
                let yi = horner_eval(&self.tables, &self.polys[i], x);
                y.push(yi);
                i += 1;
            }
            self.cursor += 1;
            proof {
                self.emitted@ = self.emitted@.push(x);
            }
            proof {
                assert(y@ =~= eval_polys(self.polys(), x));
                assert(self.emitted@ =~= Seq::new(
                    (self.cursor - 1) as nat,
                    |i: int| (i + 1) as u8,
                ));
            }
            Some(Share { x, y })
        }
    }
}

/// Horner evaluation of `poly` at `x` with the field engine `t`.
fn horner_eval(t: &GfTables, poly: &Vec<u8>, x: u8) -> (r: u8)
    requires
        t.wf(),
    ensures
        r == horner(poly@, x),
{
    let mut acc: u8 = 0;
    let mut i: usize = 0;
    while i < poly.len()
        invariant
            t.wf(),
            i <= poly@.len(),
            acc == horner_prefix(poly@, x, i as int),
        decreases poly@.len() - i,
    {
        acc = t.mul(acc, x) ^ poly[i];
        i += 1;
    }
    acc
}

/// Builds the share stream over the given polynomial set, starting at
/// `x = 1`.
pub fn get_evaluator(polys: Vec<Vec<u8>>) -> (e: Evaluator)
    ensures
        e.wf(),
        e.next_x() == 1,
        e.emitted() == Seq::<u8>::empty(),
        e.polys() == (polys@.map_values(|p: Vec<u8>| p@)),
{
    let e = Evaluator { tables: GfTables::new(), polys, cursor: 1, emitted: Ghost(Seq::empty()) };
    proof {
        assert(e.emitted@ =~= Seq::new(0, |i: int| (i + 1) as u8));
    }
    e
}

/// No two shares of one dealer run carry the same x-coordinate: the
/// emitted coordinates are exactly `1, 2, ..` in order, all distinct.
pub proof fn lemma_emitted_xs_distinct(e: &Evaluator)
    requires
        e.wf(),
    ensures
        forall|i: int| 0 <= i < e.emitted().len() ==> #[trigger] e.emitted()[i] == i + 1,
        forall|i: int, j: int|
            0 <= i < j < e.emitted().len() ==> e.emitted()[i] != e.emitted()[j],
{
}

/// All x-coordinates in the collection are pairwise distinct.
pub open spec fn distinct_xs(shares: Seq<Share>) -> bool {
    forall|i: int, j: int|
        0 <= i < j < shares.len() ==> (#[trigger] shares[i].x) != (#[trigger] shares[j].x)
}

/// Two shares of the collection carry the same x-coordinate.
pub open spec fn has_dup_x(shares: Seq<Share>) -> bool {
    exists|i: int, j: int|
        0 <= i < j < shares.len() && (#[trigger] shares[i].x) == (#[trigger] shares[j].x)
}

/// All y-vectors in the collection have the same length.
pub open spec fn uniform_len(shares: Seq<Share>) -> bool {
    forall|i: int| 0 <= i < shares.len() ==> (#[trigger] shares[i]).y@.len() == shares[0].y@.len()
}

/// The set of x-coordinates appearing in the collection.
pub open spec fn x_set(shares: Seq<Share>) -> Set<u8>
    decreases shares.len(),
{
    if shares.len() == 0 {
        Set::empty()
    } else {
        x_set(shares.drop_last()).insert(shares.last().x)
    }
}

/// The number of distinct x-coordinates in the collection.
pub open spec fn distinct_x_count(shares: Seq<Share>) -> nat {
    x_set(shares).len()
}

pub proof fn lemma_x_set_finite(shares: Seq<Share>)
    ensures
        x_set(shares).finite(),
    decreases shares.len(),
{
    if shares.len() > 0 {
        lemma_x_set_finite(shares.drop_last());
    }
}

pub proof fn lemma_x_set_contains(shares: Seq<Share>, v: u8)
    ensures
        x_set(shares).contains(v) <==> exists|p: int|
            0 <= p < shares.len() && (#[trigger] shares[p].x) == v,
    decreases shares.len(),
{
    if shares.len() > 0 {
        lemma_x_set_contains(shares.drop_last(), v);
        if x_set(shares).contains(v) {
            if shares.last().x == v {
                assert(shares[shares.len() - 1].x == v);
            } else {
                let p = choose|p: int|
                    0 <= p < shares.drop_last().len() && (#[trigger] shares.drop_last()[p].x)
                        == v;
                assert(shares[p].x == v);
            }
        }
        if exists|p: int| 0 <= p < shares.len() && (#[trigger] shares[p].x) == v {
            let p = choose|p: int| 0 <= p < shares.len() && (#[trigger] shares[p].x) == v;
            if p < shares.len() - 1 {
                assert(shares.drop_last()[p].x == v);
            }
        }
    }
}

/// The Lagrange basis for share `i`, folded over the first `n` shares:
/// the field product over every other share `j` of `x_j / (x_j - x_i)`.
pub open spec fn lag_basis_prefix(shares: Seq<Share>, i: int, n: int) -> u8
    decreases n,
{
    if n <= 0 {
        1
    } else {
        let p = lag_basis_prefix(shares, i, n - 1);
        if n - 1 == i {
            p
        } else {
            gf_mul(p, gf_div(shares[n - 1].x, shares[n - 1].x ^ shares[i].x))
        }
    }
}

/// The Lagrange basis for share `i` over the whole collection.
pub open spec fn lag_basis(shares: Seq<Share>, i: int) -> u8 {
    lag_basis_prefix(shares, i, shares.len() as int)
}

/// The interpolation sum for chunk `c`, folded over the first `n`
/// shares: the field sum of `basis_i * y_i[c]`.
pub open spec fn chunk_prefix(shares: Seq<Share>, c: int, n: int) -> u8
    decreases n,
{
    if n <= 0 {
        0
    } else {
        chunk_prefix(shares, c, n - 1) ^ gf_mul(lag_basis(shares, n - 1), shares[n - 1].y@[c])
    }
}

/// The recovered byte for chunk `c`: the encoding polynomials evaluated
/// at `x = 0` by Lagrange interpolation.
pub open spec fn recovered_byte(shares: Seq<Share>, c: int) -> u8 {
    chunk_prefix(shares, c, shares.len() as int)
}

/// The whole recovered secret, one byte per chunk.
pub open spec fn interpolate_spec(shares: Seq<Share>) -> Seq<u8>
    recommends
        shares.len() > 0,
{
    Seq::new(shares[0].y@.len(), |c: int| recovered_byte(shares, c))
}

/// Reconstructs the secret from shares with pairwise distinct
/// x-coordinates and y-vectors of one common length, by per-chunk
/// Lagrange interpolation at `x = 0`.
pub fn interpolate(shares: &[Share]) -> (secret: Vec<u8>)
    requires
        shares@.len() > 0,
        distinct_xs(shares@),
        uniform_len(shares@),
    ensures
        secret@ == interpolate_spec(shares@),
{
    let t = GfTables::new();
    let n_chunks = shares[0].y.len();
    let mut secret: Vec<u8> = Vec::new();
    let mut c: usize = 0;
    while c < n_chunks
        invariant
            t.wf(),
            shares@.len() > 0,
            distinct_xs(shares@),
            uniform_len(shares@),
            n_chunks == shares@[0].y@.len(),
            c <= n_chunks,
            secret@.len() == c,
            forall|cc: int| 0 <= cc < c ==> secret@[cc] == recovered_byte(shares@, cc),
        decreases n_chunks - c,
    {
        let mut acc: u8 = 0;
        let mut i: usize = 0;
        while i < shares.len()
            invariant
                t.wf(),
                shares@.len() > 0,
                distinct_xs(shares@),
                uniform_len(shares@),
                n_chunks == shares@[0].y@.len(),
                c < n_chunks,
                i <= shares@.len(),
                acc == chunk_prefix(shares@, c as int, i as int),
            decreases shares@.len() - i,
        {
            let mut basis: u8 = 1;
            let mut j: usize = 0;
            while j < shares.len()
                invariant
                    t.wf(),
                    shares@.len() > 0,
                    distinct_xs(shares@),
                    i < shares@.len(),
                    j <= shares@.len(),
                    basis == lag_basis_prefix(shares@, i as int, j as int),
                decreases shares@.len() - j,
            {
                if j != i {
                    let num = shares[j].x;
                    let xi = shares[i].x;
                    proof {
                        if i < j {
                            assert(shares@[i as int].x != shares@[j as int].x);
                        } else {
                            assert(shares@[j as int].x != shares@[i as int].x);
                        }
                        assert(num ^ xi != 0) by (bit_vector)
                            requires
                                num != xi,
                        ;
                    }
                    let den = num ^ xi;
                    basis = t.mul(basis, t.div_nonzero(num, den));
                }
                j += 1;
            }
            acc = acc ^ t.mul(basis, shares[i].y[c]);
            i += 1;
        }
        secret.push(acc);
        c += 1;
    }
    proof {
        assert(secret@ =~= interpolate_spec(shares@));
    }
    secret
}

/// Interpolation over a single share returns its y-vector unchanged: the
/// empty basis product is 1, and 1 is the multiplicative identity.
pub proof fn lemma_interpolate_single(s: Share)
    requires
        crate::field::tables_invertible(),
    ensures
        interpolate_spec(seq![s]) == s.y@,
{
    let sh = seq![s];
    assert forall|c: int| 0 <= c < s.y@.len() implies recovered_byte(sh, c) == s.y@[c] by {
        let v = s.y@[c];
        assert(lag_basis_prefix(sh, 0, 0) == 1);
        assert(lag_basis_prefix(sh, 0, 1) == 1);
        assert(lag_basis(sh, 0) == 1);
        assert(chunk_prefix(sh, c, 0) == 0);
        assert(chunk_prefix(sh, c, 1) == 0u8 ^ gf_mul(1, v));
        assert(recovered_byte(sh, c) == 0u8 ^ gf_mul(1, v));
        crate::field::lemma_field_laws(v, 1);
        assert(gf_mul(1, v) == gf_mul(v, 1));
        assert(0u8 ^ v == v) by (bit_vector);
    }
    assert(interpolate_spec(sh) =~= s.y@);
}

/// Interpolation over shares of a zero-length secret yields the
/// zero-length secret, whatever the shares hold.
pub proof fn lemma_interpolate_empty_secret(shares: Seq<Share>)
    requires
        shares.len() > 0,
        shares[0].y@.len() == 0,
    ensures
        interpolate_spec(shares) == Seq::<u8>::empty(),
{
    assert(interpolate_spec(shares) =~= Seq::<u8>::empty());
}

/// Two shares of one threshold-2 dealer run recover the secret exactly:
/// for each chunk, with points `y_i = k * x_i + s` and the Lagrange bases
/// `B_1 = x_2 / (x_1 - x_2)` and `B_2 = x_1 / (x_1 - x_2)`, the `k` terms
/// of the sum `B_1 * y_1 + B_2 * y_2` cancel and the `s` terms add up to
/// `(B_1 + B_2) * s == s`.
pub proof fn lemma_round_trip_threshold_two(
    secret: Seq<u8>,
    polys: Seq<Seq<u8>>,
    s1: Share,
    s2: Share,
)
    requires
        crate::field::tables_invertible(),
        polys.len() == secret.len(),
        forall|i: int|
            0 <= i < secret.len() ==> (#[trigger] polys[i]).len() == 2 && polys[i][1]
                == secret[i],
        s1.y@ == eval_polys(polys, s1.x),
        s2.y@ == eval_polys(polys, s2.x),
        s1.x != s2.x,
    ensures
        interpolate_spec(seq![s1, s2]) == secret,
{
    let sh = seq![s1, s2];
    let x1 = s1.x;
    let x2 = s2.x;
    let d = x1 ^ x2;
    assert(d != 0 && x2 ^ x1 == d) by (bit_vector)
        requires
            x1 != x2 && d == (x1 ^ x2),
    ;
    assert(lag_basis_prefix(sh, 0, 0) == 1);
    assert(lag_basis_prefix(sh, 0, 1) == 1);
    assert(lag_basis(sh, 0) == gf_mul(1, gf_div(x2, d)));
    crate::algebra::lemma_mul_one(gf_div(x2, d));
    let b1 = gf_div(x2, d);
    assert(lag_basis(sh, 0) == b1);
    assert(lag_basis_prefix(sh, 1, 0) == 1);
    assert(lag_basis_prefix(sh, 1, 1) == gf_mul(1, gf_div(x1, d)));
    crate::algebra::lemma_mul_one(gf_div(x1, d));
    let b2 = gf_div(x1, d);
    assert(lag_basis(sh, 1) == b2);
    crate::algebra::lemma_div_distributive(x2, x1, d);
    crate::field::lemma_field_laws(d, 1);
    assert(b1 ^ b2 == 1);
    crate::algebra::lemma_div_mul_swap(x2, x1, d);
    crate::algebra::lemma_div_mul_swap(x1, x2, d);
    crate::algebra::lemma_mul_commutative(x2, x1);
    let w = gf_mul(b1, x1);
    assert(gf_mul(b2, x2) == w);
    assert forall|c: int| 0 <= c < secret.len() implies recovered_byte(sh, c) == secret[c] by {
        let poly = polys[c];
        let k = poly[0];
        let s = secret[c];
        assert(horner_prefix(poly, x1, 0) == 0);
        assert(horner_prefix(poly, x2, 0) == 0);
        assert(horner_prefix(poly, x1, 1) == 0u8 ^ k);
        assert(horner_prefix(poly, x2, 1) == 0u8 ^ k);
        assert(0u8 ^ k == k) by (bit_vector);
        let y1 = s1.y@[c];
        let y2 = s2.y@[c];
        assert(y1 == gf_mul(k, x1) ^ s);
        assert(y2 == gf_mul(k, x2) ^ s);
        assert(chunk_prefix(sh, c, 0) == 0);
        assert(chunk_prefix(sh, c, 1) == 0u8 ^ gf_mul(b1, y1));
        assert(recovered_byte(sh, c) == (0u8 ^ gf_mul(b1, y1)) ^ gf_mul(b2, y2));
        crate::algebra::lemma_mul_distributive(gf_mul(k, x1), s, b1);
        crate::algebra::lemma_mul_distributive(gf_mul(k, x2), s, b2);
        let p = gf_mul(b1, gf_mul(k, x1));
        let q = gf_mul(b1, s);
        let r = gf_mul(b2, gf_mul(k, x2));
        let t = gf_mul(b2, s);
        assert(gf_mul(b1, y1) == p ^ q);
        assert(gf_mul(b2, y2) == r ^ t);
        crate::algebra::lemma_mul_commutative(b1, gf_mul(k, x1));
        crate::algebra::lemma_mul_associative(k, x1, b1);
        crate::algebra::lemma_mul_commutative(x1, b1);
        assert(p == gf_mul(k, w));
        crate::algebra::lemma_mul_commutative(b2, gf_mul(k, x2));
        crate::algebra::lemma_mul_associative(k, x2, b2);
        crate::algebra::lemma_mul_commutative(x2, b2);
        assert(r == gf_mul(k, w));
        crate::algebra::lemma_mul_distributive(b1, b2, s);
        crate::algebra::lemma_mul_one(s);
        assert(q ^ t == s);
        assert(p == r && q ^ t == s ==> ((0u8 ^ (p ^ q)) ^ (r ^ t)) == s) by (bit_vector);
    }
    assert(s1.y@.len() == secret.len());
    assert(interpolate_spec(sh) =~= secret);
}

/// With threshold 1 every polynomial is the constant secret byte, so any
/// single emitted share carries the secret and recovering from it alone
/// returns the secret exactly.
pub proof fn lemma_round_trip_threshold_one(secret: Seq<u8>, polys: Seq<Seq<u8>>, s: Share)
    requires
        crate::field::tables_invertible(),
        polys.len() == secret.len(),
        forall|i: int| 0 <= i < secret.len() ==> #[trigger] polys[i] == seq![secret[i]],
        s.y@ == eval_polys(polys, s.x),
    ensures
        interpolate_spec(seq![s]) == secret,
{
    assert forall|i: int| 0 <= i < secret.len() implies s.y@[i] == secret[i] by {
        lemma_horner_constant(secret[i], s.x);
    }
    assert(s.y@ =~= secret);
    lemma_interpolate_single(s);
}

} // verus!
