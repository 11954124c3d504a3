//! The divisibility relation on natural numbers and its basic algebra.

use vstd::arithmetic::div_mod::{
    lemma_fundamental_div_mod, lemma_mod_division_less_than_divisor, lemma_mod_pos_bound,
};
use vstd::prelude::*;

verus! {

/// `d` divides `n`: some multiple of `d` equals `n`.
pub open spec fn divides(d: nat, n: nat) -> bool {
    exists|k: nat| n == #[trigger] (k * d)
}

/// Every number divides itself.
pub proof fn lemma_divides_refl(n: nat)
    ensures
        divides(n, n),
{
    assert(n == 1 * n);
}

/// Every number divides zero.
pub proof fn lemma_divides_zero(d: nat)
    ensures
        divides(d, 0),
{
    assert(0nat == 0 * d);
}

/// A divisor of a positive number lies between one and that number.
pub proof fn lemma_divides_le(d: nat, n: nat)
    requires
        divides(d, n),
        n > 0,
    ensures
        1 <= d <= n,
{
    let k = choose|k: nat| n == #[trigger] (k * d);
    assert(k > 0 && d > 0) by {
        if k == 0 || d == 0 {
            assert(k * d == 0) by (nonlinear_arith)
                requires
                    k == 0 || d == 0,
            ;
        }
    }
    assert(k * d >= d) by (nonlinear_arith)
        requires
            k >= 1,
    ;
}

/// Mutual divisibility forces equality.
pub proof fn lemma_divides_antisymmetric(a: nat, b: nat)
    requires
        divides(a, b),
        divides(b, a),
    ensures
        a == b,
{
    if a == 0 {
        let k = choose|k: nat| b == #[trigger] (k * a);
        assert(k * 0 == 0) by (nonlinear_arith);
    } else if b == 0 {
        let k = choose|k: nat| a == #[trigger] (k * b);
        assert(k * 0 == 0) by (nonlinear_arith);
    } else {
        lemma_divides_le(a, b);
        lemma_divides_le(b, a);
    }
}

/// Divisibility is transitive.
pub proof fn lemma_divides_transitive(a: nat, b: nat, c: nat)
    requires
        divides(a, b),
        divides(b, c),
    ensures
        divides(a, c),
{
    let k1 = choose|k: nat| b == #[trigger] (k * a);
    let k2 = choose|k: nat| c == #[trigger] (k * b);
    assert(c == (k2 * k1) * a) by (nonlinear_arith)
        requires
            b == k1 * a,
            c == k2 * b,
    ;
}

/// A common divisor of `a` and `b` also divides the remainder `a % b`.
pub proof fn lemma_divides_mod(d: nat, a: nat, b: nat)
    requires
        b > 0,
        divides(d, a),
        divides(d, b),
    ensures
        divides(d, (a % b) as nat),
{
    let ka = choose|k: nat| a == #[trigger] (k * d);
    let kb = choose|k: nat| b == #[trigger] (k * d);
    let q = a as int / b as int;
    lemma_fundamental_div_mod(a as int, b as int);
    lemma_mod_pos_bound(a as int, b as int);
    let r = (a % b) as int;
    assert(r == (ka - q * kb) * d) by (nonlinear_arith)
        requires
            a == ka * d,
            b == kb * d,
            a as int == b as int * q + r,
    ;
    assert(d > 0) by {
        if d == 0 {
            assert(kb * 0 == 0) by (nonlinear_arith);
        }
    }
    let k = ka - q * kb;
    assert(k >= 0) by (nonlinear_arith)
        requires
            r == k * d,
            r >= 0,
            d > 0,
    ;
    assert((a % b) as nat == (k as nat) * d);
}

/// A divisor of `b` and of the remainder `a % b` also divides `a`.
pub proof fn lemma_divides_mod_converse(d: nat, a: nat, b: nat)
    requires
        b > 0,
        divides(d, b),
        divides(d, (a % b) as nat),
    ensures
        divides(d, a),
{
    let kb = choose|k: nat| b == #[trigger] (k * d);
    let kr = choose|k: nat| (a % b) as nat == #[trigger] (k * d);
    let q = a as int / b as int;
    lemma_fundamental_div_mod(a as int, b as int);
    assert(q >= 0) by {
        lemma_mod_division_less_than_divisor(a as int, b as int);
        assert(a as int == b as int * q + (a % b)) by (nonlinear_arith)
            requires
                a as int == b as int * q + a as int % b as int,
                a as int % b as int == a % b,
        ;
        if q < 0 {
            assert(b as int * q <= b as int * -1) by (nonlinear_arith)
                requires
                    b > 0,
                    q <= -1,
            ;
        }
    }
    assert(a == (q * kb + kr) * d) by (nonlinear_arith)
        requires
            a as int == b as int * q + (a % b) as int,
            b == kb * d,
            (a % b) as nat == kr * d,
    ;
    assert(q * kb >= 0) by (nonlinear_arith)
        requires
            q >= 0,
    ;
    let k = q * kb + kr;
    assert(a == (k as nat) * d);
}

} // verus!
