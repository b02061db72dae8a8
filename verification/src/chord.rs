//! Chord recognition: which pitch class is the root of the keys held down.
use vstd::prelude::*;
use vstd::arithmetic::div_mod::*;
use crate::arith::lemma_step;

verus! {

/// How strongly a key `d` semitones (modulo an octave) below a pitch class
/// votes for that pitch class being the root: unison 5, fourth below 4,
/// minor sixth below 3, minor seventh below 2, whole tone below 1.
pub open spec fn chord_weight(d: int) -> nat {
    if d == 0 {
        5
    } else if d == 5 {
        4
    } else if d == 8 {
        3
    } else if d == 10 {
        2
    } else if d == 2 {
        1
    } else {
        0
    }
}

/// The vote for pitch class `k` cast by the first `n` keys of `keys`.
pub open spec fn chord_score(keys: Seq<bool>, n: int, k: int) -> nat
    decreases n,
{
    if n <= 0 {
        0
    } else {
        chord_score(keys, n - 1, k) + if keys[n - 1] {
            chord_weight((k - (n - 1)) % 12)
        } else {
            0
        }
    }
}

/// The total vote for pitch class `k`.
pub open spec fn total_score(keys: Seq<bool>, k: int) -> nat {
    chord_score(keys, keys.len() as int, k)
}

/// Every pitch class's vote fits in a machine word.
pub open spec fn scores_fit(keys: Seq<bool>) -> bool {
    forall|k: int| 0 <= k < 12 ==> #[trigger] total_score(keys, k) <= usize::MAX
}

/// Pitch class `k` has strictly more votes than every other pitch class.
pub open spec fn is_chord_root(keys: Seq<bool>, k: int) -> bool {
    &&& 0 <= k < 12
    &&& forall|j: int| 0 <= j < 12 && j != k ==> #[trigger] total_score(keys, j) < total_score(keys, k)
}

/// Votes only grow as more keys are counted.
pub proof fn lemma_score_monotone(keys: Seq<bool>, n: int, m: int, k: int)
    requires
        n <= m,
    ensures
        chord_score(keys, n, k) <= chord_score(keys, m, k),
    decreases m - n,
{
    if n < m {
        lemma_score_monotone(keys, n, m - 1, k);
    }
}

/// Each key adds at most 5 to any pitch class, so `n` keys add at most `5 * n`.
pub proof fn lemma_score_bound(keys: Seq<bool>, n: int, k: int)
    requires
        0 <= n,
    ensures
        chord_score(keys, n, k) <= 5 * n,
    decreases n,
{
    if n > 0 {
        lemma_score_bound(keys, n - 1, k);
    }
}

/// A key's vote depends only on its pitch class `i % 12`.
proof fn lemma_weight_class(i: int, k: int)
    requires
        0 <= i,
    ensures
        (k - i) % 12 == (k - i % 12) % 12,
{
    lemma_fundamental_div_mod(i, 12);
    let q = i / 12;
    assert(k - i == 12 * (-q) + (k - i % 12));
    lemma_mod_multiples_vanish(-q, k - i % 12, 12);
}

/// The vote that a key of pitch class `m` casts for pitch class `k`.
fn vote(m: usize, k: usize) -> (w: usize)
    requires
        m < 12,
        k < 12,
    ensures
        w == chord_weight((k - m) % 12),
{
    let d = (k + 12 - m) % 12;
    proof {
        lemma_mod_multiples_vanish(1, k - m, 12);
    }
    if d == 0 {
        5
    } else if d == 5 {
        4
    } else if d == 8 {
        3
    } else if d == 10 {
        2
    } else if d == 2 {
        1
    } else {
        0
    }
}

/// A chord has at most one root.
pub proof fn lemma_root_unique(keys: Seq<bool>, k1: int, k2: int)
    requires
        is_chord_root(keys, k1),
        is_chord_root(keys, k2),
    ensures
        k1 == k2,
{
    if k1 != k2 {
        assert(total_score(keys, k1) < total_score(keys, k2));
        assert(total_score(keys, k2) < total_score(keys, k1));
    }
}

/// With at most `usize::MAX / 5` keys, no vote can overflow.
pub proof fn lemma_scores_fit(keys: Seq<bool>)
    requires
        keys.len() * 5 <= usize::MAX,
    ensures
        scores_fit(keys),
{
    assert forall|k: int| 0 <= k < 12 implies #[trigger] total_score(keys, k) <= usize::MAX by {
        lemma_score_bound(keys, keys.len() as int, k);
    }
}

/// The root of the keys, if they have one.
pub open spec fn chord_root_of(keys: Seq<bool>) -> Option<int> {
    if exists|k: int| is_chord_root(keys, k) {
        Some(choose|k: int| is_chord_root(keys, k))
    } else {
        None
    }
}

/// The keys moved up by `k` semitones: `k` released keys added below them.
pub open spec fn transposed(keys: Seq<bool>, k: nat) -> Seq<bool> {
    Seq::new(k, |p: int| false) + keys
}

/// Shifting by `k` and back leaves a residue modulo 12 unchanged, both ways round.
proof fn lemma_shift_back(a: int, k: int)
    ensures
        ((a + k) % 12 - k) % 12 == a % 12,
        ((a - k) % 12 + k) % 12 == a % 12,
{
    lemma_fundamental_div_mod(a + k, 12);
    let q = (a + k) / 12;
    assert((a + k) % 12 - k == 12 * (-q) + a);
    lemma_mod_multiples_vanish(-q, a, 12);
    lemma_fundamental_div_mod(a - k, 12);
    let p = (a - k) / 12;
    assert((a - k) % 12 + k == 12 * (-p) + a);
    lemma_mod_multiples_vanish(-p, a, 12);
}

/// The released keys below a transposed chord cast no vote.
proof fn lemma_transposed_silent(keys: Seq<bool>, k: nat, m: int, c: int)
    requires
        m <= k,
    ensures
        chord_score(transposed(keys, k), m, c) == 0,
    decreases m,
{
    if m > 0 {
        lemma_transposed_silent(keys, k, m - 1, c);
    }
}

/// Key `p + k` of the transposed chord votes for `(c + k) % 12` as key `p`
/// votes for `c`.
proof fn lemma_transposed_score(keys: Seq<bool>, k: nat, n: int, c: int)
    requires
        0 <= n <= keys.len(),
        0 <= c < 12,
    ensures
        chord_score(transposed(keys, k), k + n, (c + k) % 12) == chord_score(keys, n, c),
    decreases n,
{
    let t = transposed(keys, k);
    if n == 0 {
        lemma_transposed_silent(keys, k, k as int, (c + k) % 12);
    } else {
        lemma_transposed_score(keys, k, n - 1, c);
        assert(t[k + n - 1] == keys[n - 1]);
        lemma_fundamental_div_mod(c + k, 12);
        let q = (c + k) / 12;
        assert((c + k) % 12 - (k + n - 1) == 12 * (-q) + (c - (n - 1)));
        lemma_mod_multiples_vanish(-q, c - (n - 1), 12);
    }
}

/// Transposing a chord by `k` semitones moves every pitch class's vote from
/// `c` to `(c + k) % 12`.
pub proof fn lemma_transposed_votes(keys: Seq<bool>, k: nat, c: int)
    requires
        0 <= c < 12,
    ensures
        total_score(transposed(keys, k), (c + k) % 12) == total_score(keys, c),
{
    lemma_transposed_score(keys, k, keys.len() as int, c);
}

/// Transposing a chord by `k` semitones transposes its root by `k` (modulo
/// an octave), and a chord without a root stays without one; the votes fit
/// in a machine word for both or for neither.
pub proof fn lemma_transposed_root(keys: Seq<bool>, k: nat)
    ensures
        chord_root_of(transposed(keys, k)) == match chord_root_of(keys) {
            Some(r) => Some((r + k) % 12),
            None => None,
        },
        scores_fit(transposed(keys, k)) == scores_fit(keys),
{
    let t = transposed(keys, k);
    // Every pitch class of the transposed chord is some pitch class moved up by `k`.
    assert forall|j: int| 0 <= j < 12 implies #[trigger] total_score(t, j) == total_score(keys, (j - k) % 12)
        && ((j - k) % 12 + k) % 12 == j by {
        lemma_shift_back(j, k as int);
        lemma_transposed_votes(keys, k, (j - k) % 12);
    }
    assert forall|c: int| 0 <= c < 12 implies is_chord_root(t, (c + k) % 12) == #[trigger] is_chord_root(keys, c) by {
        lemma_shift_back(c, k as int);
        lemma_transposed_votes(keys, k, c);
        let cc = (c + k) % 12;
        if is_chord_root(keys, c) {
            assert forall|j: int| 0 <= j < 12 && j != cc implies #[trigger] total_score(t, j) < total_score(t, cc) by {
                let jj = (j - k) % 12;
                assert(total_score(t, j) == total_score(keys, jj));
                if jj == c {
                    assert(j == cc);
                }
            }
        }
        if is_chord_root(t, cc) {
            assert forall|jj: int| 0 <= jj < 12 && jj != c implies #[trigger] total_score(keys, jj) < total_score(keys, c) by {
                let j = (jj + k) % 12;
                lemma_shift_back(jj, k as int);
                lemma_transposed_votes(keys, k, jj);
                assert(total_score(t, j) == total_score(keys, jj));
            }
        }
    }
    match chord_root_of(keys) {
        Some(r) => {
            assert(exists|kk: int| is_chord_root(keys, kk));
            assert(is_chord_root(keys, r));
            assert(is_chord_root(t, (r + k) % 12));
            let c = choose|kk: int| is_chord_root(t, kk);
            lemma_root_unique(t, c, (r + k) % 12);
        },
        None => {
            if exists|kk: int| is_chord_root(t, kk) {
                let c = choose|kk: int| is_chord_root(t, kk);
                lemma_shift_back(c, k as int);
                let r = (c - k) % 12;
                assert(is_chord_root(keys, r));
            }
        },
    }
    assert(scores_fit(t) == scores_fit(keys)) by {
        if scores_fit(keys) {
            assert forall|j: int| 0 <= j < 12 implies #[trigger] total_score(t, j) <= usize::MAX by {
                assert(total_score(keys, (j - k) % 12) <= usize::MAX);
            }
        }
        if scores_fit(t) {
            assert forall|c: int| 0 <= c < 12 implies #[trigger] total_score(keys, c) <= usize::MAX by {
                lemma_transposed_votes(keys, k, c);
                assert(total_score(t, (c + k) % 12) <= usize::MAX);
            }
        }
    }
}

/// No held key, no vote.
pub proof fn lemma_no_keys_no_votes(keys: Seq<bool>, c: int)
    requires
        forall|p: int| 0 <= p < keys.len() ==> !#[trigger] keys[p],
    ensures
        total_score(keys, c) == 0,
{
    lemma_no_keys_prefix(keys, keys.len() as int, c);
}

proof fn lemma_no_keys_prefix(keys: Seq<bool>, n: int, c: int)
    requires
        n <= keys.len(),
        forall|p: int| 0 <= p < keys.len() ==> !#[trigger] keys[p],
    ensures
        chord_score(keys, n, c) == 0,
    decreases n,
{
    if n > 0 {
        lemma_no_keys_prefix(keys, n - 1, c);
    }
}

/// Holding one more key `p` adds its vote to pitch class `c`, and nothing
/// else: with `d = (c - p) mod 12` (how far `c` lies above the key, in
/// semitones modulo an octave) the key votes 5 for `d = 0` (its own pitch
/// class), 4 for `d = 5`, 3 for `d = 8`, 2 for `d = 10`, 1 for `d = 2`, and 0
/// otherwise.
pub proof fn lemma_vote_of_added_key(keys: Seq<bool>, p: int, c: int)
    requires
        0 <= p < keys.len(),
        !keys[p],
    ensures
        total_score(keys.update(p, true), c) == total_score(keys, c) + ({
            let d = (c - p) % 12;
            if d == 0 {
                5nat
            } else if d == 5 {
                4nat
            } else if d == 8 {
                3nat
            } else if d == 10 {
                2nat
            } else if d == 2 {
                1nat
            } else {
                0nat
            }
        }),
{
    lemma_vote_of_added_key_prefix(keys, p, c, keys.len() as int);
}

proof fn lemma_vote_of_added_key_prefix(keys: Seq<bool>, p: int, c: int, n: int)
    requires
        0 <= p < keys.len(),
        !keys[p],
        0 <= n <= keys.len(),
    ensures
        chord_score(keys.update(p, true), n, c) == chord_score(keys, n, c) + if p < n {
            chord_weight((c - p) % 12)
        } else {
            0
        },
    decreases n,
{
    if n > 0 {
        lemma_vote_of_added_key_prefix(keys, p, c, n - 1);
    }
}

/// The notes of a root-position dominant seventh chord on C (C, E, G, B flat).
pub open spec fn dominant_seventh() -> Seq<bool> {
    seq![true, false, false, false, true, false, false, true, false, false, true]
}

/// The notes of a root-position major triad on C (C, E, G).
pub open spec fn major_triad() -> Seq<bool> {
    seq![true, false, false, false, true, false, false, true]
}

proof fn lemma_dominant_seventh_on_c()
    ensures
        is_chord_root(dominant_seventh(), 0),
{
    let keys = dominant_seventh();
    reveal_with_fuel(chord_score, 12);
    assert(total_score(keys, 0) == 13);
    assert(total_score(keys, 1) == 0);
    assert(total_score(keys, 2) == 3);
    assert(total_score(keys, 3) == 7);
    assert(total_score(keys, 4) == 5);
    assert(total_score(keys, 5) == 6);
    assert(total_score(keys, 6) == 4);
    assert(total_score(keys, 7) == 5);
    assert(total_score(keys, 8) == 5);
    assert(total_score(keys, 9) == 5);
    assert(total_score(keys, 10) == 7);
    assert(total_score(keys, 11) == 0);
}

proof fn lemma_major_triad_on_c()
    ensures
        is_chord_root(major_triad(), 0),
{
    let keys = major_triad();
    reveal_with_fuel(chord_score, 9);
    assert(total_score(keys, 0) == 12);
    assert(total_score(keys, 1) == 0);
    assert(total_score(keys, 2) == 3);
    assert(total_score(keys, 3) == 3);
    assert(total_score(keys, 4) == 5);
    assert(total_score(keys, 5) == 6);
    assert(total_score(keys, 6) == 1);
    assert(total_score(keys, 7) == 5);
    assert(total_score(keys, 8) == 3);
    assert(total_score(keys, 9) == 5);
    assert(total_score(keys, 10) == 2);
    assert(total_score(keys, 11) == 0);
}

/// A root-position dominant seventh chord on any key `k` (keys `k`, `k + 4`,
/// `k + 7`, `k + 10`) has its lowest note's pitch class as root.
pub proof fn lemma_dominant_seventh_root(k: nat)
    ensures
        chord_root_of(transposed(dominant_seventh(), k)) == Some((k % 12) as int),
{
    lemma_dominant_seventh_on_c();
    let c = choose|r: int| is_chord_root(dominant_seventh(), r);
    lemma_root_unique(dominant_seventh(), c, 0);
    lemma_transposed_root(dominant_seventh(), k);
}

/// A root-position major triad on any key `k` (keys `k`, `k + 4`, `k + 7`)
/// has its lowest note's pitch class as root.
pub proof fn lemma_major_triad_root(k: nat)
    ensures
        chord_root_of(transposed(major_triad(), k)) == Some((k % 12) as int),
{
    lemma_major_triad_on_c();
    let c = choose|r: int| is_chord_root(major_triad(), r);
    lemma_root_unique(major_triad(), c, 0);
    lemma_transposed_root(major_triad(), k);
}

/// The pitch class (0 to 11) that is the root of the chord formed by the keys
/// held down, where key `i` has pitch class `i % 12`; `None` when no pitch class
/// has strictly the most votes.
pub fn chord_root(pr1: &[bool]) -> (r: Option<usize>)
    requires
        scores_fit(pr1@),
    ensures
        match r {
            Some(k) => is_chord_root(pr1@, k as int),
            None => forall|k: int| 0 <= k < 12 ==> !is_chord_root(pr1@, k),
        },
        chord_root_of(pr1@) == match r {
            Some(k) => Some(k as int),
            None => None::<int>,
        },
{
    let mut oct: Vec<usize> = vec![0, 0, 0, 0, 0, 0, 0, 0, 0, 0, 0, 0];
    let n = pr1.len();
    for i in 0..n
        invariant
            n == pr1@.len(),
            scores_fit(pr1@),
            oct@.len() == 12,
            forall|k: int| 0 <= k < 12 ==> oct@[k] == chord_score(pr1@, i as int, k),
    {
        let ghost prev = oct@;
        if pr1[i] {
            let m = i % 12;
            for k in 0..12
                invariant
                    n == pr1@.len(),
                    i < n,
                    m == i % 12,
                    pr1@[i as int],
                    scores_fit(pr1@),
                    oct@.len() == 12,
                    prev.len() == 12,
                    forall|j: int| 0 <= j < 12 ==> prev[j] == chord_score(pr1@, i as int, j),
                    forall|j: int| 0 <= j < k ==> oct@[j] == chord_score(pr1@, i + 1, j),
                    forall|j: int| k <= j < 12 ==> oct@[j] == prev[j],
            {
                proof {
                    lemma_weight_class(i as int, k as int);
                    lemma_score_monotone(pr1@, i + 1, n as int, k as int);
                    assert(total_score(pr1@, k as int) <= usize::MAX);
                    assert(chord_score(pr1@, i + 1, k as int) == chord_score(pr1@, i as int, k as int)
                        + chord_weight((k as int - i as int) % 12));
                }
                let w = vote(m, k);
                assert(w == chord_weight((k as int - i as int) % 12));
                assert(oct@[k as int] == prev[k as int]);
                assert(oct@[k as int] + w == chord_score(pr1@, i + 1, k as int));
                oct.set(k, oct[k] + w);
            }
        }
    }
    // Find the largest vote, the first pitch class that has it, and how many have it.
    let mut mx: usize = 0;
    let mut imx: usize = 0;
    let mut cnt: usize = 0;
    for k in 0..12
        invariant
            oct@.len() == 12,
            forall|j: int| 0 <= j < 12 ==> oct@[j] == total_score(pr1@, j),
            forall|j: int| 0 <= j < k ==> oct@[j] <= mx,
            mx == 0 || (imx < k && oct@[imx as int] == mx),
            k > 0 ==> cnt >= 1,
            k == 0 ==> imx == 0,
            k > 0 ==> imx < k,
            cnt <= k,
            cnt == 1 <==> (imx < k && oct@[imx as int] == mx && forall|j: int|
                0 <= j < k && j != imx ==> oct@[j] < mx),
    {
        let x = oct[k];
        if x < mx {
            proof {
                if cnt != 1 {
                    if imx < k && oct@[imx as int] == mx {
                        let w = choose|j: int| 0 <= j < k && j != imx && oct@[j] >= mx;
                        assert(0 <= w < k + 1 && w != imx && oct@[w] >= mx);
                    }
                }
            }
        } else if x == mx {
            proof {
                if cnt >= 1 {
                    assert(oct@[k as int] == mx && k != imx);
                }
            }
            cnt = cnt + 1;
        } else {
            mx = x;
            imx = k;
            cnt = 1;
        }
    }
    if cnt == 1 {
        proof {
            assert(is_chord_root(pr1@, imx as int));
            let c = choose|kk: int| is_chord_root(pr1@, kk);
            lemma_root_unique(pr1@, c, imx as int);
        }
        Some(imx)
    } else {
        proof {
            assert forall|k: int| 0 <= k < 12 implies !is_chord_root(pr1@, k) by {
                if is_chord_root(pr1@, k) {
                    let other = if k == 0 { 1int } else { 0int };
                    assert(total_score(pr1@, other) < total_score(pr1@, k));
                    if mx > 0 && imx != k {
                        assert(total_score(pr1@, imx as int) < total_score(pr1@, k));
                    }
                }
            }
        }
        None
    }
}

/// The entries of `den` picked out by the keys when the key pattern is read
/// starting at key `i` and wrapping around: entry `j` (for `j < m`) is kept when
/// key `(i + j) % keys.len()` is held.
pub open spec fn rotation_row(keys: Seq<bool>, den: Seq<u32>, i: int, m: int) -> Seq<u32>
    decreases m,
{
    if m <= 0 || keys.len() == 0 {
        seq![]
    } else {
        let prev = rotation_row(keys, den, i, m - 1);
        if keys[(i + m - 1) % (keys.len() as int)] {
            prev.push(den[m - 1])
        } else {
            prev
        }
    }
}

/// For every rotation `i` of the key pattern (one per entry of `den`), the
/// entries of `den` that line up with held keys, in order.
pub fn chord_root2(pr1: &[bool], den: &[u32]) -> (rows: Vec<Vec<u32>>)
    ensures
        rows@.len() == den@.len(),
        forall|i: int|
            0 <= i < den@.len() ==> (#[trigger] rows@[i])@ == rotation_row(
                pr1@,
                den@,
                i,
                den@.len() as int,
            ),
{
    let plen = pr1.len();
    let dlen = den.len();
    let mut rows: Vec<Vec<u32>> = Vec::new();
    for i in 0..dlen
        invariant
            plen == pr1@.len(),
            dlen == den@.len(),
            rows@.len() == i,
            forall|r: int|
                0 <= r < i ==> (#[trigger] rows@[r])@ == rotation_row(pr1@, den@, r, dlen as int),
    {
        let mut row: Vec<u32> = Vec::new();
        if plen > 0 {
            let mut p = i % plen;
            for j in 0..dlen
                invariant
                    plen == pr1@.len(),
                    plen > 0,
                    dlen == den@.len(),
                    p == (i + j) % (plen as int),
                    row@ == rotation_row(pr1@, den@, i as int, j as int),
            {
                if pr1[p] {
                    row.push(den[j]);
                }
                proof {
                    lemma_step(i + j, plen as int);
                }
                p = p + 1;
                if p == plen {
                    p = 0;
                }
            }
        }
        rows.push(row);
    }
    rows
}

} // verus!
