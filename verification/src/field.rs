//! Arithmetic over GF(2^8), the field with 256 elements built from the
//! irreducible polynomial x^8 + x^4 + x^3 + x + 1.
//!
//! Addition and subtraction are bitwise XOR.  Multiplication and division
//! go through two lookup tables built once per [`GfTables`] value: `EXP[i]`
//! is the generator 3 raised to the power `i` (a cycle of length 255), and
//! `LOG[v]` is the discrete logarithm of the nonzero value `v` base 3.

use vstd::prelude::*;

use crate::error::SharksError;

verus! {

/// Multiplication by the polynomial x (the value 2) in GF(2^8): shift left
/// and reduce by x^8 + x^4 + x^3 + x + 1 when the high bit falls out.
pub open spec fn xtime(a: u8) -> u8 {
    (a << 1) ^ (if a >= 128 {
        0x1b
    } else {
        0
    })
}

/// Multiplication by the generator 3 in GF(2^8): 3 * a == (2 * a) + a.
pub open spec fn gen3_mul(a: u8) -> u8 {
    xtime(a) ^ a
}

/// The generator 3 raised to the power `i` in GF(2^8).
pub open spec fn exp_at(i: nat) -> u8
    decreases i,
{
    if i == 0 {
        1
    } else {
        gen3_mul(exp_at((i - 1) as nat))
    }
}

/// The exponent table: entry `i` holds 3^i, for `i` in `0..255`.
pub open spec fn exp_table() -> Seq<u8> {
    Seq::new(255, |i: int| exp_at(i as nat))
}

/// The logarithm table after the first `n` construction steps: step `i`
/// records `i` as the logarithm of 3^i.  Entries never written stay 0.
pub open spec fn log_prefix(n: nat) -> Seq<u8>
    decreases n,
{
    if n == 0 {
        Seq::new(256, |j: int| 0u8)
    } else {
        log_prefix((n - 1) as nat).update(exp_at((n - 1) as nat) as int, (n - 1) as u8)
    }
}

/// The logarithm table: entry `v` holds the discrete logarithm of `v`
/// base 3, for nonzero `v`.
pub open spec fn log_table() -> Seq<u8> {
    log_prefix(255)
}

pub proof fn lemma_log_prefix_len(n: nat)
    ensures
        log_prefix(n).len() == 256,
    decreases n,
{
    if n > 0 {
        lemma_log_prefix_len((n - 1) as nat);
    }
}

/// The two tables invert each other: every table exponent is a nonzero
/// value whose logarithm is that exponent, and every nonzero value is the
/// table exponential of its logarithm.  This says that 3 generates the
/// whole multiplicative group, a fact about the concrete tables that
/// [`GfTables::check_tables`] establishes at run time.
pub open spec fn tables_invertible() -> bool {
    &&& forall|i: int|
        0 <= i < 255 ==> #[trigger] exp_table()[i] != 0 && log_table()[exp_table()[i] as int]
            == i
    &&& forall|v: int|
        1 <= v < 256 ==> #[trigger] log_table()[v] < 255 && exp_table()[log_table()[v] as int]
            == v as u8
}

/// What `mul` returns: 0 if either operand is 0, else
/// `EXP[(LOG[a] + LOG[b]) mod 255]`.
pub open spec fn gf_mul(a: u8, b: u8) -> u8 {
    if a == 0 || b == 0 {
        0
    } else {
        exp_table()[(log_table()[a as int] + log_table()[b as int]) % 255]
    }
}

/// What `div` returns on a nonzero divisor: 0 if the dividend is 0, else
/// `EXP[(LOG[a] - LOG[b] + 255) mod 255]`.
pub open spec fn gf_div(a: u8, b: u8) -> u8
    recommends
        b != 0,
{
    if a == 0 {
        0
    } else {
        exp_table()[(log_table()[a as int] + 255 - log_table()[b as int]) % 255]
    }
}

/// The field engine: the exponent and logarithm tables, built once and
/// read-only afterwards.
pub struct GfTables {
    exp: Vec<u8>,
    log: Vec<u8>,
}

impl GfTables {
    /// The tables hold exactly the specified exponent and logarithm
    /// sequences.
    pub closed spec fn wf(&self) -> bool {
        self.exp@ == exp_table() && self.log@ == log_table()
    }

    /// Builds the two tables by walking the powers of the generator 3.
    pub fn new() -> (t: GfTables)
        ensures
            t.wf(),
    {
        let mut log: Vec<u8> = Vec::new();
        let mut j: usize = 0;
        while j < 256
            invariant
                j <= 256,
                log@.len() == j,
                forall|k: int| 0 <= k < j ==> log@[k] == 0u8,
            decreases 256 - j,
        {
            log.push(0);
            j += 1;
        }
        proof {
            assert(log@ =~= log_prefix(0));
        }
        let mut exp: Vec<u8> = Vec::new();
        let mut x: u8 = 1;
        let mut i: usize = 0;
        while i < 255
            invariant
                i <= 255,
                exp@.len() == i,
                forall|k: int| 0 <= k < i ==> exp@[k] == exp_at(k as nat),
                log@ == log_prefix(i as nat),
                x == exp_at(i as nat),
            decreases 255 - i,
        {
            proof {
                lemma_log_prefix_len(i as nat);
            }
            exp.push(x);
            log.set(x as usize, i as u8);
            let doubled: u8 = (x << 1) ^ (if x >= 128 {
                0x1b
            } else {
                0
            });
            x = doubled ^ x;
            i += 1;
            proof {
                assert(x == exp_at(i as nat));
                assert(log@ == log_prefix(i as nat));
            }
        }
        let t = GfTables { exp, log };
        proof {
            assert(t.exp@ =~= exp_table());
        }
        t
    }

    /// Field addition: bitwise XOR.
    pub fn add(&self, a: u8, b: u8) -> (r: u8)
        ensures
            r == a ^ b,
    {
        a ^ b
    }

    /// Field subtraction: the same XOR, since the field has
    /// characteristic 2.
    pub fn sub(&self, a: u8, b: u8) -> (r: u8)
        ensures
            r == a ^ b,
    {
        a ^ b
    }

    /// Field multiplication through the discrete-log tables.
    pub fn mul(&self, a: u8, b: u8) -> (r: u8)
        requires
            self.wf(),
        ensures
            r == gf_mul(a, b),
    {
        proof {
            lemma_log_prefix_len(255);
        }
        if a == 0 || b == 0 {
            0
        } else {
            let la = self.log[a as usize] as usize;
            let lb = self.log[b as usize] as usize;
            self.exp[(la + lb) % 255]
        }
    }

    /// Field division by a divisor known to be nonzero.
    pub fn div_nonzero(&self, a: u8, b: u8) -> (r: u8)
        requires
            self.wf(),
            b != 0,
        ensures
            r == gf_div(a, b),
    {
        proof {
            lemma_log_prefix_len(255);
        }
        if a == 0 {
            0
        } else {
            let la = self.log[a as usize] as usize;
            let lb = self.log[b as usize] as usize;
            self.exp[(la + 255 - lb) % 255]
        }
    }

    /// Field division: fails on the zero divisor, which has no inverse.
    pub fn div(&self, a: u8, b: u8) -> (r: Result<u8, SharksError>)
        requires
            self.wf(),
        ensures
            b == 0 ==> r == Err::<u8, SharksError>(SharksError::DivisionByZero),
            b != 0 ==> r == Ok::<u8, SharksError>(gf_div(a, b)),
    {
        if b == 0 {
            Err(SharksError::DivisionByZero)
        } else {
            Ok(self.div_nonzero(a, b))
        }
    }

    /// Checks at run time that the two tables invert each other, which
    /// holds exactly when 3 generates the whole multiplicative group.
    pub fn check_tables(&self) -> (res: bool)
        requires
            self.wf(),
        ensures
            res == tables_invertible(),
    {
        proof {
            lemma_log_prefix_len(255);
        }
        let mut ok: bool = true;
        let mut i: usize = 0;
        while i < 255
            invariant
                i <= 255,
                self.wf(),
                self.exp@.len() == 255,
                self.log@.len() == 256,
                ok == (forall|k: int|
                    0 <= k < i ==> #[trigger] exp_table()[k] != 0 && log_table()[exp_table()[k] as int]
                        == k),
            decreases 255 - i,
        {
            let e = self.exp[i];
            let good = e != 0 && self.log[e as usize] as usize == i;
            ok = ok && good;
            i += 1;
        }
        let mut v: usize = 1;
        let mut ok2: bool = true;
        while v < 256
            invariant
                1 <= v <= 256,
                self.wf(),
                self.exp@.len() == 255,
                self.log@.len() == 256,
                ok2 == (forall|w: int|
                    1 <= w < v ==> #[trigger] log_table()[w] < 255 && exp_table()[log_table()[w] as int]
                        == w as u8),
            decreases 256 - v,
        {
            let lv = self.log[v] as usize;
            let good = lv < 255 && self.exp[lv] as usize == v;
            ok2 = ok2 && good;
            v += 1;
        }
        ok && ok2
    }
}

/// The field laws: XOR is an involution, 1 is the multiplicative
/// identity, every nonzero value divided by itself gives 1, and division
/// undoes multiplication by a nonzero value.  They hold of the table
/// formulas whenever the two tables invert each other, which
/// [`GfTables::check_tables`] decides.
pub proof fn lemma_field_laws(a: u8, b: u8)
    requires
        tables_invertible(),
    ensures
        (a ^ b) ^ b == a,
        gf_mul(a, 1) == a,
        a != 0 ==> gf_div(a, a) == 1,
        b != 0 ==> gf_div(gf_mul(a, b), b) == a,
{
    assert((a ^ b) ^ b == a) by (bit_vector);
    assert(exp_table()[0] == 1);
    assert(log_table()[1] == 0);
    if a != 0 {
        let la = log_table()[a as int] as int;
        assert(exp_table()[la] == a && la < 255);
        assert(gf_mul(a, 1) == exp_table()[(la + 0) % 255]);
        assert((la + 0) % 255 == la);
        assert(gf_div(a, a) == exp_table()[(la + 255 - la) % 255]);
        assert((la + 255 - la) % 255 == 0);
    }
    if b != 0 {
        let lb = log_table()[b as int] as int;
        assert(exp_table()[lb] == b && lb < 255);
        if a != 0 {
            let la = log_table()[a as int] as int;
            assert(exp_table()[la] == a && la < 255);
            let m = (la + lb) % 255;
            assert(0 <= m < 255);
            let c = exp_table()[m];
            assert(c != 0 && log_table()[c as int] == m);
            assert(gf_mul(a, b) == c);
            assert(gf_div(c, b) == exp_table()[(m + 255 - lb) % 255]);
            assert((m + 255 - lb) % 255 == la) by {
                if la + lb < 255 {
                    assert(m == la + lb);
                } else {
                    assert(m == la + lb - 255);
                }
            }
        }
    }
}

} // verus!
