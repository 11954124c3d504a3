//! The pairwise Euclidean algorithm and its fold over a list of numbers.

use crate::divisibility::{
    divides, lemma_divides_antisymmetric, lemma_divides_le, lemma_divides_mod,
    lemma_divides_mod_converse, lemma_divides_refl, lemma_divides_transitive, lemma_divides_zero,
};
use vstd::prelude::*;

verus! {

/// The greatest common divisor, defined by repeated remainder-taking.
pub open spec fn spec_gcd(a: nat, b: nat) -> nat
    decreases b,
{
    if b == 0 {
        a
    } else {
        spec_gcd(b, a % b)
    }
}

/// `spec_gcd(a, b)` divides both of its arguments.
pub proof fn lemma_gcd_divides(a: nat, b: nat)
    ensures
        divides(spec_gcd(a, b), a),
        divides(spec_gcd(a, b), b),
    decreases b,
{
    if b == 0 {
        lemma_divides_refl(a);
        lemma_divides_zero(a);
    } else {
        lemma_gcd_divides(b, a % b);
        lemma_divides_mod_converse(spec_gcd(a, b), a, b);
    }
}

/// Every common divisor of `a` and `b` divides `spec_gcd(a, b)`: together
/// with `lemma_gcd_divides` and `lemma_divides_le`, no common divisor is
/// larger than the greatest common divisor.
pub proof fn lemma_gcd_greatest(a: nat, b: nat, d: nat)
    requires
        divides(d, a),
        divides(d, b),
    ensures
        divides(d, spec_gcd(a, b)),
    decreases b,
{
    if b != 0 {
        lemma_divides_mod(d, a, b);
        lemma_gcd_greatest(b, a % b, d);
    }
}

/// The greatest common divisor of two numbers, at least one of them
/// non-zero, is positive.
pub proof fn lemma_gcd_pos(a: nat, b: nat)
    requires
        a > 0 || b > 0,
    ensures
        spec_gcd(a, b) >= 1,
{
    lemma_gcd_divides(a, b);
    if spec_gcd(a, b) == 0 {
        if a > 0 {
            lemma_divides_le(spec_gcd(a, b), a);
        } else {
            lemma_divides_le(spec_gcd(a, b), b);
        }
    }
}

/// The greatest common divisor does not depend on the order of its
/// arguments.
pub proof fn lemma_gcd_commutes(a: nat, b: nat)
    ensures
        spec_gcd(a, b) == spec_gcd(b, a),
{
    lemma_gcd_divides(a, b);
    lemma_gcd_divides(b, a);
    lemma_gcd_greatest(b, a, spec_gcd(a, b));
    lemma_gcd_greatest(a, b, spec_gcd(b, a));
    lemma_divides_antisymmetric(spec_gcd(a, b), spec_gcd(b, a));
}

/// A number is its own greatest common divisor.
pub proof fn lemma_gcd_self(a: nat)
    ensures
        spec_gcd(a, a) == a,
{
    if a > 0 {
        assert(a % a == 0);
        assert(spec_gcd(a, a) == spec_gcd(a, 0));
        assert(spec_gcd(a, 0) == a);
    }
}

/// Grouping does not matter when three numbers are combined pairwise.
pub proof fn lemma_gcd_associative(a: nat, b: nat, c: nat)
    ensures
        spec_gcd(spec_gcd(a, b), c) == spec_gcd(a, spec_gcd(b, c)),
{
    let l = spec_gcd(spec_gcd(a, b), c);
    let r = spec_gcd(a, spec_gcd(b, c));
    lemma_gcd_divides(a, b);
    lemma_gcd_divides(b, c);
    lemma_gcd_divides(spec_gcd(a, b), c);
    lemma_gcd_divides(a, spec_gcd(b, c));
    lemma_divides_transitive(l, spec_gcd(a, b), a);
    lemma_divides_transitive(l, spec_gcd(a, b), b);
    lemma_gcd_greatest(b, c, l);
    lemma_gcd_greatest(a, spec_gcd(b, c), l);
    lemma_divides_transitive(r, spec_gcd(b, c), b);
    lemma_divides_transitive(r, spec_gcd(b, c), c);
    lemma_gcd_greatest(a, b, r);
    lemma_gcd_greatest(spec_gcd(a, b), c, r);
    lemma_divides_antisymmetric(l, r);
}

/// The pairwise greatest common divisor of two non-zero numbers, computed
/// by the classic Euclidean algorithm: keep replacing the larger operand
/// with the remainder of dividing it by the smaller until one reaches zero.
pub fn gcd(n: u64, m: u64) -> (g: u64)
    requires
        n != 0,
        m != 0,
    ensures
        g == spec_gcd(n as nat, m as nat),
        1 <= g,
        divides(g as nat, n as nat),
        divides(g as nat, m as nat),
        forall|d: nat| #[trigger] divides(d, n as nat) && divides(d, m as nat) ==> d <= g,
{
    let mut a = n;
    let mut b = m;
    while b != 0
        invariant
            a != 0,
            spec_gcd(a as nat, b as nat) == spec_gcd(n as nat, m as nat),
        decreases b,
    {
        if b < a {
            let t = b;
            b = a;
            a = t;
            proof {
                lemma_gcd_commutes(a as nat, b as nat);
            }
        }
        proof {
            lemma_gcd_commutes(a as nat, b as nat);
        }
        b = b % a;
    }
    proof {
        lemma_gcd_divides(n as nat, m as nat);
        lemma_gcd_pos(n as nat, m as nat);
        assert forall|d: nat| #[trigger] divides(d, n as nat) && divides(d, m as nat) implies d
            <= a by {
            lemma_gcd_greatest(n as nat, m as nat, d);
            lemma_divides_le(d, a as nat);
        }
    }
    a
}

/// The left-to-right fold of the pairwise greatest common divisor over a
/// non-empty sequence of numbers.
pub open spec fn spec_gcd_fold(s: Seq<u64>) -> nat
    recommends
        s.len() >= 1,
    decreases s.len(),
{
    if s.len() <= 1 {
        s[0] as nat
    } else {
        spec_gcd(spec_gcd_fold(s.drop_last()), s.last() as nat)
    }
}

/// The fold divides every element of the sequence.
pub proof fn lemma_fold_divides(s: Seq<u64>)
    requires
        s.len() >= 1,
    ensures
        forall|i: int| 0 <= i < s.len() ==> divides(spec_gcd_fold(s), #[trigger] s[i] as nat),
    decreases s.len(),
{
    if s.len() == 1 {
        lemma_divides_refl(s[0] as nat);
    } else {
        lemma_fold_divides(s.drop_last());
        let g = spec_gcd_fold(s);
        let gp = spec_gcd_fold(s.drop_last());
        lemma_gcd_divides(gp, s.last() as nat);
        assert forall|i: int| 0 <= i < s.len() implies divides(g, #[trigger] s[i] as nat) by {
            if i < s.len() - 1 {
                assert(divides(gp, s.drop_last()[i] as nat));
                lemma_divides_transitive(g, gp, s[i] as nat);
            }
        }
    }
}

/// Every common divisor of all the elements divides the fold.
pub proof fn lemma_fold_greatest(s: Seq<u64>, d: nat)
    requires
        s.len() >= 1,
        forall|i: int| 0 <= i < s.len() ==> divides(d, #[trigger] s[i] as nat),
    ensures
        divides(d, spec_gcd_fold(s)),
    decreases s.len(),
{
    if s.len() == 1 {
        assert(divides(d, s[0] as nat));
    } else {
        assert forall|i: int| 0 <= i < s.drop_last().len() implies divides(
            d,
            #[trigger] s.drop_last()[i] as nat,
        ) by {
            assert(s.drop_last()[i] == s[i]);
        }
        lemma_fold_greatest(s.drop_last(), d);
        assert(divides(d, s.last() as nat));
        lemma_gcd_greatest(spec_gcd_fold(s.drop_last()), s.last() as nat, d);
    }
}

/// Folding the pairwise greatest common divisor over a list does not depend
/// on the order in which the elements are taken: two non-empty sequences
/// holding the same elements the same number of times fold to the same
/// value.
pub proof fn lemma_fold_order_independent(s1: Seq<u64>, s2: Seq<u64>)
    requires
        s1.len() >= 1,
        s2.len() >= 1,
        s1.to_multiset() == s2.to_multiset(),
    ensures
        spec_gcd_fold(s1) == spec_gcd_fold(s2),
{
    broadcast use vstd::seq_lib::group_to_multiset_ensures;

    lemma_fold_divides(s1);
    lemma_fold_divides(s2);
    assert forall|i: int| 0 <= i < s2.len() implies divides(
        spec_gcd_fold(s1),
        #[trigger] s2[i] as nat,
    ) by {
        assert(s2.contains(s2[i]));
        assert(s2.to_multiset().count(s2[i]) > 0);
        assert(s1.to_multiset().count(s2[i]) > 0);
        assert(s1.contains(s2[i]));
        let j = choose|j: int| 0 <= j < s1.len() && s1[j] == s2[i];
        assert(divides(spec_gcd_fold(s1), s1[j] as nat));
    }
    lemma_fold_greatest(s2, spec_gcd_fold(s1));
    assert forall|i: int| 0 <= i < s1.len() implies divides(
        spec_gcd_fold(s2),
        #[trigger] s1[i] as nat,
    ) by {
        assert(s1.contains(s1[i]));
        assert(s1.to_multiset().count(s1[i]) > 0);
        assert(s2.to_multiset().count(s1[i]) > 0);
        assert(s2.contains(s1[i]));
        let j = choose|j: int| 0 <= j < s2.len() && s2[j] == s1[i];
        assert(divides(spec_gcd_fold(s2), s2[j] as nat));
    }
    lemma_fold_greatest(s1, spec_gcd_fold(s2));
    lemma_divides_antisymmetric(spec_gcd_fold(s1), spec_gcd_fold(s2));
}

/// The greatest common divisor of a whole list, folded left to right with
/// the running value as accumulator, exactly as the engine combines the
/// parsed arguments.  A single number is its own result, so a list holding
/// one zero is allowed; as soon as a second number is present every element
/// must be non-zero.
pub fn gcd_list(numbers: &Vec<u64>) -> (g: u64)
    requires
        numbers@.len() >= 1,
        numbers@.len() > 1 ==> forall|i: int| 0 <= i < numbers@.len() ==> numbers@[i] != 0,
    ensures
        g == spec_gcd_fold(numbers@),
        forall|i: int| 0 <= i < numbers@.len() ==> divides(g as nat, #[trigger] numbers@[i] as nat),
        forall|d: nat|
            (forall|i: int| 0 <= i < numbers@.len() ==> divides(d, #[trigger] numbers@[i] as nat))
                ==> #[trigger] divides(d, g as nat),
{
    let mut d = numbers[0];
    let mut idx: usize = 1;
    proof {
        assert(numbers@.take(1).len() == 1);
        assert(numbers@.take(1)[0] == numbers@[0]);
    }
    while idx < numbers.len()
        invariant
            1 <= idx <= numbers@.len(),
            numbers@.len() > 1 ==> forall|i: int| 0 <= i < numbers@.len() ==> numbers@[i] != 0,
            d == spec_gcd_fold(numbers@.take(idx as int)),
            numbers@.len() > 1 ==> d != 0,
        decreases numbers@.len() - idx,
    {
        d = gcd(d, numbers[idx]);
        proof {
            let taken = numbers@.take(idx + 1);
            assert(taken.drop_last() =~= numbers@.take(idx as int));
            assert(taken.last() == numbers@[idx as int]);
        }
        idx = idx + 1;
    }
    proof {
        assert(numbers@.take(numbers@.len() as int) =~= numbers@);
        lemma_fold_divides(numbers@);
        assert forall|dv: nat|
            (forall|i: int|
                0 <= i < numbers@.len() ==> divides(dv, #[trigger] numbers@[i] as nat)) implies #[trigger] divides(
            dv,
            d as nat,
        ) by {
            lemma_fold_greatest(numbers@, dv);
        }
    }
    d
}

} // verus!
