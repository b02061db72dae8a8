//! Tuning schedule of a bank of resonators from a table of ratios within one
//! octave: resonator `k` gets table entry `(s + k) % len`, one octave higher
//! each time the table wraps around.
use vstd::prelude::*;
use vstd::arithmetic::div_mod::*;
use crate::arith::lemma_step;

verus! {

/// Where the schedule starts: resonator 0 is `n` steps below the table's
/// first entry, i.e. at index `(-n) mod len`, `floor(-n / len)` octaves up.
pub open spec fn start_octave(n: int, len: int) -> int {
    (-n) / len
}

/// Table index of resonator 0.
pub open spec fn start_index(n: int, len: int) -> int {
    (-n) % len
}

/// The schedule starts exactly `n` table steps below the table's start:
/// `start_octave` whole tables and `start_index` steps, with the index within
/// the table.
pub proof fn lemma_start_position(n: int, len: int)
    requires
        0 < len,
    ensures
        start_octave(n, len) * len + start_index(n, len) == -n,
        0 <= start_index(n, len) < len,
{
    lemma_fundamental_div_mod(-n, len);
    lemma_mod_bound(-n, len);
    vstd::arithmetic::mul::lemma_mul_is_commutative(len, (-n) / len);
}

/// Euclidean division of a machine integer by a positive length.
fn div_rem_euclid(m: isize, len: usize) -> (qr: (isize, usize))
    requires
        m > isize::MIN,
        0 < len <= isize::MAX,
    ensures
        qr.0 == (m as int) / (len as int),
        qr.1 == (m as int) % (len as int),
{
    if m >= 0 {
        let mu = m as usize;
        let q = mu / len;
        let r = mu % len;
        (q as isize, r)
    } else {
        let a = (-m) as usize;
        let qa = a / len;
        let ra = a % len;
        proof {
            lemma_fundamental_div_mod(a as int, len as int);
            vstd::arithmetic::mul::lemma_mul_is_commutative(qa as int, len as int);
            lemma_div_pos_is_pos(a as int, len as int);
            vstd::arithmetic::div_mod::lemma_div_is_ordered_by_denominator(a as int, 1, len as int);
        }
        if ra == 0 {
            proof {
                assert(m == (-(qa as int)) * len + 0) by (nonlinear_arith)
                    requires
                        a == qa * len + ra,
                        ra == 0,
                        m == -a,
                ;
                lemma_fundamental_div_mod_converse_mod(m as int, len as int, -(qa as int), 0);
                lemma_fundamental_div_mod_converse_div(m as int, len as int, -(qa as int), 0);
            }
            (-(qa as isize), 0)
        } else {
            proof {
                assert(m == (-(qa as int) - 1) * len + (len - ra)) by (nonlinear_arith)
                    requires
                        a == qa * len + ra,
                        m == -a,
                ;
                lemma_fundamental_div_mod_converse_mod(m as int, len as int, -(qa as int) - 1, len - ra);
                lemma_fundamental_div_mod_converse_div(m as int, len as int, -(qa as int) - 1, len - ra);
            }
            (-(qa as isize) - 1, len - ra)
        }
    }
}

/// The schedule for `count` resonators whose first one lies `n` table steps
/// below the table's start, with a table of `len` entries: the starting
/// octave, and for each resonator how many octaves above it it lies and
/// which table entry it uses.
pub fn tune_plan(count: usize, n: isize, len: usize) -> (plan: (isize, Vec<(usize, usize)>))
    requires
        n > isize::MIN,
        0 < len <= isize::MAX,
    ensures
        plan.0 == start_octave(n as int, len as int),
        plan.1@.len() == count,
        forall|k: int|
            0 <= k < count ==> {
                let x = start_index(n as int, len as int) + k;
                &&& (#[trigger] plan.1@[k]).0 == x / (len as int)
                &&& plan.1@[k].1 == x % (len as int)
            },
        forall|k: int|
            0 <= k < count ==> (plan.0 + (#[trigger] plan.1@[k]).0) * len + plan.1@[k].1 == k - n && 0
                <= plan.1@[k].1 < len,
{
    let (i, j0) = div_rem_euclid(-n, len);
    proof {
        lemma_mod_bound(-(n as int), len as int);
        lemma_small_mod(j0 as nat, len as nat);
        vstd::arithmetic::div_mod::lemma_basic_div(j0 as int, len as int);
    }
    let mut j = j0;
    let mut octs: usize = 0;
    let mut steps: Vec<(usize, usize)> = Vec::new();
    for k in 0..count
        invariant
            0 < len,
            j0 == start_index(n as int, len as int),
            j == (j0 + k) % (len as int),
            octs == (j0 + k) / (len as int),
            octs <= k,
            steps@.len() == k,
            forall|kk: int|
                0 <= kk < k ==> {
                    let x = j0 + kk;
                    &&& (#[trigger] steps@[kk]).0 == x / (len as int)
                    &&& steps@[kk].1 == x % (len as int)
                },
    {
        steps.push((octs, j));
        proof {
            lemma_step(j0 + k, len as int);
            lemma_mod_bound(j0 + k, len as int);
        }
        j = j + 1;
        if len <= j {
            j = 0;
            octs = octs + 1;
        }
    }
    proof {
        lemma_start_position(n as int, len as int);
        assert forall|k: int|
            0 <= k < count implies (i + (#[trigger] steps@[k]).0) * len + steps@[k].1 == k - n && 0
                <= steps@[k].1 < len by {
            let x = j0 + k;
            lemma_fundamental_div_mod(x, len as int);
            lemma_mod_bound(x, len as int);
            assert((i + x / (len as int)) * len == i * len + (x / (len as int)) * len) by {
                vstd::arithmetic::mul::lemma_mul_is_distributive_add_other_way(len as int, i as int, x / (len as int));
            }
            vstd::arithmetic::mul::lemma_mul_is_commutative(len as int, x / (len as int));
        }
    }
    (i, steps)
}

} // verus!
