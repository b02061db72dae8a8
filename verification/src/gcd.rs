//! Greatest common divisor by Euclid's algorithm.
use vstd::prelude::*;
use vstd::arithmetic::div_mod::*;
use vstd::arithmetic::mul::*;

verus! {

/// The greatest common divisor, by Euclid's recursion.
pub open spec fn gcd(a: nat, b: nat) -> nat
    decreases b,
{
    if b == 0 {
        a
    } else {
        gcd(b, a % b)
    }
}

/// `d` is a (positive) divisor of `n`.
pub open spec fn divides(d: nat, n: nat) -> bool {
    d > 0 && n % d == 0
}

/// The gcd of two numbers, not both zero, is positive.
pub proof fn lemma_gcd_pos(a: nat, b: nat)
    requires
        a > 0 || b > 0,
    ensures
        gcd(a, b) > 0,
    decreases b,
{
    if b > 0 {
        lemma_gcd_pos(b, a % b);
    }
}

/// The gcd divides both of its arguments.
pub proof fn lemma_gcd_divides(a: nat, b: nat)
    requires
        a > 0 || b > 0,
    ensures
        divides(gcd(a, b), a),
        divides(gcd(a, b), b),
    decreases b,
{
    lemma_gcd_pos(a, b);
    if b == 0 {
        lemma_mod_self_0(a as int);
    } else {
        let g = gcd(a, b);
        let r = a % b;
        lemma_gcd_divides(b, r);
        let q = a / b;
        let k = b / g;
        lemma_fundamental_div_mod(a as int, b as int);
        lemma_fundamental_div_mod(b as int, g as int);
        assert(b == g * k);
        assert(b * q == g * (k * q)) by {
            lemma_mul_is_associative(g as int, k as int, q as int);
        }
        assert(a == g * (k * q) + r);
        lemma_mod_multiples_vanish((k * q) as int, r as int, g as int);
    }
}

/// Every common divisor of the arguments divides their gcd.
pub proof fn lemma_gcd_greatest(a: nat, b: nat, d: nat)
    requires
        divides(d, a),
        divides(d, b),
    ensures
        gcd(a, b) % d == 0,
    decreases b,
{
    if b > 0 {
        let r = a % b;
        let q = a / b;
        lemma_fundamental_div_mod(a as int, b as int);
        lemma_fundamental_div_mod(a as int, d as int);
        lemma_fundamental_div_mod(b as int, d as int);
        let ka = a / d;
        let kb = b / d;
        assert(r == d * (ka - kb * q)) by (nonlinear_arith)
            requires
                a == b * q + r,
                a == d * ka,
                b == d * kb,
        ;
        lemma_mod_multiples_vanish(ka - kb * q, 0, d as int);
        lemma_small_mod(0, d);
        lemma_gcd_greatest(b, r, d);
    }
}

/// The gcd does not depend on the order of its arguments.
pub proof fn lemma_gcd_commutative(a: nat, b: nat)
    ensures
        gcd(a, b) == gcd(b, a),
{
    if a == 0 || b == 0 {
        if a > 0 {
            lemma_mod_self_0(a as int);
            lemma_small_mod(0, a);
            assert(gcd(b, a) == gcd(a, 0));
        }
        if b > 0 {
            lemma_small_mod(0, b);
            assert(gcd(a, b) == gcd(b, 0));
        }
    } else if a < b {
        lemma_small_mod(a, b);
        assert(gcd(a, b) == gcd(b, a));
    } else if a > b {
        lemma_small_mod(b, a);
        assert(gcd(b, a) == gcd(a, b));
    }
}

/// Greatest common divisor of `a` and `b`, for a positive `a`.
pub fn gcd2(a: u64, b: u64) -> (r: u64)
    requires
        a > 0,
    ensures
        r == gcd(a as nat, b as nat),
        divides(r as nat, a as nat),
        divides(r as nat, b as nat),
        forall|d: nat| divides(d, a as nat) && divides(d, b as nat) ==> #[trigger] (r as nat % d) == 0,
{
    let ghost g = gcd(a as nat, b as nat);
    proof {
        lemma_gcd_divides(a as nat, b as nat);
        assert forall|d: nat| divides(d, a as nat) && divides(d, b as nat) implies #[trigger] (g
            % d) == 0 by {
            lemma_gcd_greatest(a as nat, b as nat, d);
        }
    }
    let mut x = a;
    let mut y = b;
    if x <= y {
        if x < y {
            proof {
                lemma_small_mod(x as nat, y as nat);
                assert(gcd(x as nat, y as nat) == gcd(y as nat, x as nat));
            }
        }
        if y % x == 0 {
            proof {
                lemma_small_mod(0, x as nat);
                assert(gcd(y as nat, x as nat) == gcd(x as nat, 0));
            }
            return x;
        }
        y = y % x;
    }
    loop
        invariant
            x > 0,
            gcd(x as nat, y as nat) == g,
            g == gcd(a as nat, b as nat),
            divides(g, a as nat),
            divides(g, b as nat),
            forall|d: nat| divides(d, a as nat) && divides(d, b as nat) ==> #[trigger] (g % d) == 0,
        decreases y,
    {
        if y == 0 {
            return x;
        }
        let ghost (x0, y0) = (x, y);
        x = x % y;
        assert(g == gcd(y0 as nat, x as nat));
        if x == 0 {
            assert(gcd(y0 as nat, 0) == y0);
            return y;
        }
        y = y % x;
        assert(gcd(y0 as nat, x as nat) == gcd(x as nat, y as nat));
    }
}

} // verus!
