//! Greatest common divisor by Euclid's algorithm.

use vstd::prelude::*;
use vstd::arithmetic::div_mod::{lemma_small_mod, lemma_mod_self_0};

verus! {

/// Mathematical greatest common divisor, by the Euclidean recursion.
pub open spec fn gcd_spec(a: nat, b: nat) -> nat
    decreases b,
{
    if b == 0 {
        a
    } else {
        gcd_spec(b, a % b)
    }
}

/// The greatest common divisor does not depend on the order of its arguments.
pub proof fn lemma_gcd_sym(a: nat, b: nat)
    ensures
        gcd_spec(a, b) == gcd_spec(b, a),
{
    if b == 0 {
        if a == 0 {
        } else {
            lemma_mod_self_0(a as int);
            assert(gcd_spec(0, a) == gcd_spec(a, 0nat % a));
            lemma_small_mod(0, a);
        }
    } else if a == 0 {
        lemma_mod_self_0(b as int);
        lemma_small_mod(0, b);
    } else if a == b {
        lemma_mod_self_0(a as int);
        lemma_mod_self_0(b as int);
    } else if a < b {
        lemma_small_mod(a, b);
        assert(gcd_spec(a, b) == gcd_spec(b, a % b));
    } else {
        lemma_small_mod(b, a);
        assert(gcd_spec(b, a) == gcd_spec(a, b % a));
    }
}

/// Euclid's algorithm on positive integers.
pub fn gcd(n: u64, m: u64) -> (r: u64)
    requires
        n != 0,
        m != 0,
    ensures
        r == gcd_spec(n as nat, m as nat),
        r != 0,
{
    let mut n = n;
    let mut m = m;
    let ghost g: nat = gcd_spec(n as nat, m as nat);
    while m != 0
        invariant
            n >= 1,
            gcd_spec(n as nat, m as nat) == g,
        decreases m,
    {
        if m < n {
            let t = m;
            m = n;
            n = t;
            proof {
                lemma_gcd_sym(n as nat, m as nat);
            }
        }
        proof {
            lemma_gcd_sym(n as nat, m as nat);
            assert(gcd_spec(m as nat, n as nat) == gcd_spec(n as nat, (m as nat) % (n as nat)));
        }
        m = m % n;
    }
    n
}

} // verus!
