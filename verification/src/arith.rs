//! Small facts of integer division used by the counters of this crate.
use vstd::prelude::*;
use vstd::arithmetic::div_mod::*;

verus! {

/// Advancing a position by one step moves its residue by one, wrapping at
/// `n`, and its quotient by one exactly when it wraps.
pub proof fn lemma_step(x: int, n: int)
    requires
        0 < n,
    ensures
        (x + 1) % n == if x % n + 1 == n {
            0
        } else {
            x % n + 1
        },
        (x + 1) / n == if x % n + 1 == n {
            x / n + 1
        } else {
            x / n
        },
{
    lemma_fundamental_div_mod(x, n);
    lemma_mod_bound(x, n);
    let q = x / n;
    let r = x % n;
    assert(x == q * n + r) by {
        vstd::arithmetic::mul::lemma_mul_is_commutative(q, n);
    }
    if r + 1 == n {
        assert(x + 1 == (q + 1) * n + 0) by {
            vstd::arithmetic::mul::lemma_mul_is_distributive_add_other_way(n, q, 1);
        }
        lemma_fundamental_div_mod_converse_mod(x + 1, n, q + 1, 0);
        lemma_fundamental_div_mod_converse_div(x + 1, n, q + 1, 0);
    } else {
        lemma_fundamental_div_mod_converse_mod(x + 1, n, q, r + 1);
        lemma_fundamental_div_mod_converse_div(x + 1, n, q, r + 1);
    }
}

} // verus!
