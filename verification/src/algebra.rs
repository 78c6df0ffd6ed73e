//! The algebraic laws of the table-based field operations.
//!
//! Everything here is conditional on [`tables_invertible`], the one fact
//! about the concrete tables that the solver cannot derive (that 3
//! generates the whole multiplicative group); [`GfTables::check_tables`]
//! decides it at run time.  From it, the table formulas provably form a
//! field: multiplication is commutative, associative, distributive over
//! XOR, has 1 as identity, and is undone by division.

use vstd::prelude::*;

use vstd::arithmetic::div_mod::{
    lemma_add_mod_noop, lemma_add_mod_noop_right, lemma_sub_mod_noop,
};

use crate::field::{exp_at, exp_table, gen3_mul, gf_div, gf_mul, log_table, tables_invertible};

verus! {

/// Multiplication by x distributes over XOR: the shift does, and the
/// reduction constant appears exactly when the high bits differ.
proof fn lemma_xtime_linear(a: u8, b: u8)
    ensures
        crate::field::xtime(a ^ b) == crate::field::xtime(a) ^ crate::field::xtime(b),
{
    assert(((a ^ b) << 1) ^ (if (a ^ b) >= 128 {
        0x1bu8
    } else {
        0u8
    }) == ((a << 1) ^ (if a >= 128 {
        0x1bu8
    } else {
        0u8
    })) ^ ((b << 1) ^ (if b >= 128 {
        0x1bu8
    } else {
        0u8
    }))) by (bit_vector);
}

/// Multiplication by the generator 3 distributes over XOR.
proof fn lemma_gen3_linear(a: u8, b: u8)
    ensures
        gen3_mul(a ^ b) == gen3_mul(a) ^ gen3_mul(b),
{
    lemma_xtime_linear(a, b);
    let p = crate::field::xtime(a);
    let q = crate::field::xtime(b);
    assert((p ^ q) ^ (a ^ b) == (p ^ a) ^ (q ^ b)) by (bit_vector);
}

/// Multiplication by 3 annihilates exactly the zero element.
proof fn lemma_gen3_nonzero(v: u8)
    ensures
        (gen3_mul(v) == 0) == (v == 0),
{
    assert((((v << 1) ^ (if v >= 128 {
        0x1bu8
    } else {
        0u8
    })) ^ v == 0) == (v == 0)) by (bit_vector);
}

/// Multiplication by 3 is injective.
proof fn lemma_gen3_injective(x: u8, y: u8)
    requires
        gen3_mul(x) == gen3_mul(y),
    ensures
        x == y,
{
    assert((((x << 1) ^ (if x >= 128 {
        0x1bu8
    } else {
        0u8
    })) ^ x == ((y << 1) ^ (if y >= 128 {
        0x1bu8
    } else {
        0u8
    })) ^ y) ==> x == y) by (bit_vector);
}

/// The exponent table advances by one multiplication by 3, cyclically:
/// at the wrap, 3^255 must be 1, since 3^255 is nonzero, every nonzero
/// value is some table power, and a later power would make two earlier
/// powers collide.
proof fn lemma_exp_step(k: int)
    requires
        tables_invertible(),
        0 <= k < 255,
    ensures
        exp_table()[(k + 1) % 255] == gen3_mul(exp_table()[k]),
{
    if k < 254 {
        assert((k + 1) % 255 == k + 1);
        assert(exp_at((k + 1) as nat) == gen3_mul(exp_at(k as nat)));
    } else {
        assert((k + 1) % 255 == 0);
        let m = gen3_mul(exp_table()[254]);
        assert(exp_table()[254] != 0);
        lemma_gen3_nonzero(exp_table()[254]);
        let j = log_table()[m as int] as int;
        assert(j < 255 && exp_table()[j] == m);
        if j > 0 {
            assert(exp_at(j as nat) == gen3_mul(exp_at((j - 1) as nat)));
            assert(exp_table()[j - 1] == exp_at((j - 1) as nat));
            lemma_gen3_injective(exp_table()[254], exp_table()[j - 1]);
            assert(log_table()[exp_table()[254] as int] == 254);
            assert(log_table()[exp_table()[j - 1] as int] == j - 1);
            assert(false);
        }
        assert(exp_table()[0] == 1);
    }
}

/// 1 is the multiplicative identity on both sides.
pub proof fn lemma_mul_one(a: u8)
    requires
        tables_invertible(),
    ensures
        gf_mul(a, 1) == a,
        gf_mul(1, a) == a,
{
    if a != 0 {
        assert(exp_table()[0] == 1);
        assert(log_table()[1] == 0);
        let la = log_table()[a as int] as int;
        assert(exp_table()[la] == a && la < 255);
        assert((la + 0) % 255 == la);
        assert((0 + la) % 255 == la);
    }
}

/// Multiplication is commutative.
pub proof fn lemma_mul_commutative(a: u8, b: u8)
    ensures
        gf_mul(a, b) == gf_mul(b, a),
{
}

/// Multiplying by a power of 3 and then by 3 is multiplying by the next
/// power.
proof fn lemma_mul_gen3(a: u8, b: u8)
    requires
        tables_invertible(),
    ensures
        gf_mul(a, gen3_mul(b)) == gen3_mul(gf_mul(a, b)),
{
    lemma_gen3_nonzero(b);
    if a == 0 || b == 0 {
        lemma_gen3_nonzero(0);
        assert(gf_mul(a, gen3_mul(b)) == 0);
        assert(gen3_mul(gf_mul(a, b)) == 0);
    } else {
        let la = log_table()[a as int] as int;
        let lb = log_table()[b as int] as int;
        assert(exp_table()[la] == a && la < 255);
        assert(exp_table()[lb] == b && lb < 255);
        lemma_exp_step(lb);
        let m = gen3_mul(b);
        assert(m == exp_table()[(lb + 1) % 255]);
        assert(m != 0 && log_table()[m as int] == (lb + 1) % 255);
        lemma_add_mod_noop_right(la, lb + 1, 255);
        assert((la + (lb + 1) % 255) % 255 == (la + lb + 1) % 255);
        assert(gf_mul(a, m) == exp_table()[(la + lb + 1) % 255]);
        let s = (la + lb) % 255;
        lemma_exp_step(s);
        lemma_add_mod_noop(la + lb, 1, 255);
        assert((s + 1) % 255 == (la + lb + 1) % 255);
        assert(gen3_mul(gf_mul(a, b)) == exp_table()[(la + lb + 1) % 255]);
    }
}

/// Distributivity against the powers of 3, by induction along the
/// exponent chain: the base is the identity 1, and each step follows
/// from the linearity of multiplication by 3.
proof fn lemma_mul_dist_pow(a: u8, b: u8, k: int)
    requires
        tables_invertible(),
        0 <= k < 255,
    ensures
        gf_mul(a ^ b, exp_table()[k]) == gf_mul(a, exp_table()[k]) ^ gf_mul(b, exp_table()[k]),
    decreases k,
{
    if k == 0 {
        assert(exp_table()[0] == 1);
        lemma_mul_one(a ^ b);
        lemma_mul_one(a);
        lemma_mul_one(b);
    } else {
        lemma_mul_dist_pow(a, b, k - 1);
        let e = exp_table()[k - 1];
        assert(exp_table()[k] == gen3_mul(e)) by {
            assert(exp_at(k as nat) == gen3_mul(exp_at((k - 1) as nat)));
        }
        lemma_mul_gen3(a ^ b, e);
        lemma_mul_gen3(a, e);
        lemma_mul_gen3(b, e);
        lemma_gen3_linear(gf_mul(a, e), gf_mul(b, e));
    }
}

/// Multiplication distributes over XOR, the field addition.
pub proof fn lemma_mul_distributive(a: u8, b: u8, c: u8)
    requires
        tables_invertible(),
    ensures
        gf_mul(a ^ b, c) == gf_mul(a, c) ^ gf_mul(b, c),
        gf_mul(c, a ^ b) == gf_mul(c, a) ^ gf_mul(c, b),
{
    if c == 0 {
        assert(gf_mul(a, 0) ^ gf_mul(b, 0) == 0) by (bit_vector);
    } else {
        let lc = log_table()[c as int] as int;
        assert(exp_table()[lc] == c && lc < 255);
        lemma_mul_dist_pow(a, b, lc);
    }
    lemma_mul_commutative(a ^ b, c);
    lemma_mul_commutative(a, c);
    lemma_mul_commutative(b, c);
}

/// Multiplication is associative.
pub proof fn lemma_mul_associative(a: u8, b: u8, c: u8)
    requires
        tables_invertible(),
    ensures
        gf_mul(gf_mul(a, b), c) == gf_mul(a, gf_mul(b, c)),
{
    if a != 0 && b != 0 && c != 0 {
        let la = log_table()[a as int] as int;
        let lb = log_table()[b as int] as int;
        let lc = log_table()[c as int] as int;
        assert(exp_table()[la] == a && la < 255);
        assert(exp_table()[lb] == b && lb < 255);
        assert(exp_table()[lc] == c && lc < 255);
        let ab = gf_mul(a, b);
        assert(ab == exp_table()[(la + lb) % 255]);
        assert(ab != 0 && log_table()[ab as int] == (la + lb) % 255);
        lemma_add_mod_noop(la + lb, lc, 255);
        assert(lc % 255 == lc);
        assert(gf_mul(ab, c) == exp_table()[(la + lb + lc) % 255]);
        let bc = gf_mul(b, c);
        assert(bc == exp_table()[(lb + lc) % 255]);
        assert(bc != 0 && log_table()[bc as int] == (lb + lc) % 255);
        lemma_add_mod_noop_right(la, lb + lc, 255);
        assert(gf_mul(a, bc) == exp_table()[(la + lb + lc) % 255]);
    }
}

/// Division is undone by multiplication with the same nonzero divisor.
pub proof fn lemma_div_mul_cancel(a: u8, b: u8)
    requires
        tables_invertible(),
        b != 0,
    ensures
        gf_mul(gf_div(a, b), b) == a,
{
    if a != 0 {
        let la = log_table()[a as int] as int;
        let lb = log_table()[b as int] as int;
        assert(exp_table()[la] == a && la < 255);
        assert(exp_table()[lb] == b && lb < 255);
        let d = gf_div(a, b);
        assert(d == exp_table()[(la + 255 - lb) % 255]);
        assert(d != 0 && log_table()[d as int] == (la + 255 - lb) % 255);
        lemma_add_mod_noop(la + 255 - lb, lb, 255);
        assert(lb % 255 == lb);
        assert((la + 255 - lb + lb) % 255 == la);
        assert(gf_mul(d, b) == exp_table()[la]);
    }
}

/// Multiplication by a nonzero value is cancellable.
pub proof fn lemma_mul_cancel(d1: u8, d2: u8, c: u8)
    requires
        tables_invertible(),
        c != 0,
        gf_mul(d1, c) == gf_mul(d2, c),
    ensures
        d1 == d2,
{
    let lc = log_table()[c as int] as int;
    assert(exp_table()[lc] == c && lc < 255);
    if d1 == 0 || d2 == 0 {
        if d1 != 0 {
            let l1 = log_table()[d1 as int] as int;
            assert(exp_table()[(l1 + lc) % 255] != 0);
            assert(false);
        }
        if d2 != 0 {
            let l2 = log_table()[d2 as int] as int;
            assert(exp_table()[(l2 + lc) % 255] != 0);
            assert(false);
        }
    } else {
        let l1 = log_table()[d1 as int] as int;
        let l2 = log_table()[d2 as int] as int;
        assert(exp_table()[l1] == d1 && l1 < 255);
        assert(exp_table()[l2] == d2 && l2 < 255);
        assert(log_table()[gf_mul(d1, c) as int] == (l1 + lc) % 255);
        assert(log_table()[gf_mul(d2, c) as int] == (l2 + lc) % 255);
        lemma_sub_mod_noop(l1 + lc, l2 + lc, 255);
        assert((l1 - l2) % 255 == 0);
        assert(l1 == l2);
        assert(d1 == exp_table()[l1]);
    }
}

/// Division by one nonzero divisor distributes over XOR.
pub proof fn lemma_div_distributive(a: u8, b: u8, c: u8)
    requires
        tables_invertible(),
        c != 0,
    ensures
        gf_div(a, c) ^ gf_div(b, c) == gf_div(a ^ b, c),
{
    let da = gf_div(a, c);
    let db = gf_div(b, c);
    let dd = gf_div(a ^ b, c);
    lemma_div_mul_cancel(a, c);
    lemma_div_mul_cancel(b, c);
    lemma_div_mul_cancel(a ^ b, c);
    lemma_mul_distributive(da, db, c);
    lemma_mul_cancel(da ^ db, dd, c);
}

/// Dividing one factor before multiplying equals multiplying first and
/// dividing the product.
pub proof fn lemma_div_mul_swap(a: u8, b: u8, d: u8)
    requires
        tables_invertible(),
        d != 0,
    ensures
        gf_mul(gf_div(a, d), b) == gf_div(gf_mul(a, b), d),
{
    let q = gf_div(a, d);
    lemma_div_mul_cancel(a, d);
    lemma_div_mul_cancel(gf_mul(a, b), d);
    lemma_mul_associative(q, b, d);
    lemma_mul_commutative(b, d);
    lemma_mul_associative(q, d, b);
    assert(gf_mul(gf_mul(q, b), d) == gf_mul(gf_mul(q, d), b));
    assert(gf_mul(gf_mul(q, b), d) == gf_mul(a, b));
    lemma_mul_cancel(gf_mul(q, b), gf_div(gf_mul(a, b), d), d);
}

} // verus!
