//! How keys and harmonics map onto resonators: key `i` sounds its harmonic `j`
//! on resonator `cfg[j] + i`, and each resonator has one slot per (key,
//! harmonic) pair that lands on it.
use vstd::prelude::*;

verus! {

/// Number of harmonics among the first `m` whose key range
/// `[cfg[j], cfg[j] + nk)` covers resonator `r`.
pub open spec fn hits(cfg: Seq<usize>, nk: nat, r: int, m: int) -> nat
    decreases m,
{
    if m <= 0 {
        0
    } else {
        hits(cfg, nk, r, m - 1) + if cfg[m - 1] <= r < cfg[m - 1] + nk {
            1nat
        } else {
            0
        }
    }
}

/// Number of slots of resonator `r`: one per (key, harmonic) that lands on it.
pub open spec fn slot_count(cfg: Seq<usize>, nk: nat, r: int) -> nat {
    hits(cfg, nk, r, cfg.len() as int)
}

/// The slot of key `i`, harmonic `j`: its resonator, and its index among
/// that resonator's slots (harmonics in order).
pub open spec fn slot_of(cfg: Seq<usize>, nk: nat, i: int, j: int) -> (int, int) {
    (cfg[j] + i, hits(cfg, nk, cfg[j] + i, j) as int)
}

/// Every key and harmonic of the configuration fit in a machine word
/// (the number of resonators, `nk + max(cfg)`, can be computed).
pub open spec fn layout_fits(nk: nat, cfg: Seq<usize>) -> bool {
    forall|j: int| 0 <= j < cfg.len() ==> #[trigger] cfg[j] + nk <= usize::MAX
}

/// The largest entry of `cfg`.
pub open spec fn max_of(cfg: Seq<usize>) -> int
    decreases cfg.len(),
{
    if cfg.len() == 0 {
        0
    } else if cfg.len() == 1 {
        cfg[0] as int
    } else {
        let m = max_of(cfg.drop_last());
        if cfg.last() > m {
            cfg.last() as int
        } else {
            m
        }
    }
}

/// Number of resonators of a layout: every key on every harmonic.
pub open spec fn resonator_count(nk: nat, cfg: Seq<usize>) -> int {
    nk + max_of(cfg)
}

/// `max_of` bounds every entry and is one of them.
pub proof fn lemma_max_of(cfg: Seq<usize>)
    requires
        cfg.len() > 0,
    ensures
        forall|j: int| 0 <= j < cfg.len() ==> cfg[j] <= max_of(cfg),
        exists|j: int| 0 <= j < cfg.len() && cfg[j] == max_of(cfg),
    decreases cfg.len(),
{
    if cfg.len() == 1 {
        assert(cfg[0] == max_of(cfg));
    } else {
        let d = cfg.drop_last();
        lemma_max_of(d);
        let w = choose|j: int| 0 <= j < d.len() && d[j] == max_of(d);
        assert forall|j: int| 0 <= j < cfg.len() implies cfg[j] <= max_of(cfg) by {
            if j < d.len() {
                assert(d[j] == cfg[j]);
            }
        }
        if cfg.last() > max_of(d) {
            assert(cfg[cfg.len() - 1] == max_of(cfg));
        } else {
            assert(cfg[w] == max_of(cfg));
        }
    }
}

/// `hits` counts at most `m` harmonics.
pub proof fn lemma_hits_bound(cfg: Seq<usize>, nk: nat, r: int, m: int)
    requires
        0 <= m,
    ensures
        hits(cfg, nk, r, m) <= m,
    decreases m,
{
    if m > 0 {
        lemma_hits_bound(cfg, nk, r, m - 1);
    }
}

/// Counting more harmonics never lowers the count, and a harmonic that
/// covers `r` is counted by every later prefix.
pub proof fn lemma_hits_grow(cfg: Seq<usize>, nk: nat, r: int, m1: int, m2: int)
    requires
        0 <= m1 <= m2 <= cfg.len(),
    ensures
        hits(cfg, nk, r, m1) <= hits(cfg, nk, r, m2),
        m1 < m2 && cfg[m1] <= r < cfg[m1] + nk ==> hits(cfg, nk, r, m1) < hits(cfg, nk, r, m2),
    decreases m2 - m1,
{
    if m1 < m2 {
        lemma_hits_grow(cfg, nk, r, m1, m2 - 1);
    }
}

/// Distinct (key, harmonic) pairs get distinct slots.
pub proof fn lemma_slots_distinct(cfg: Seq<usize>, nk: nat, i1: int, j1: int, i2: int, j2: int)
    requires
        0 <= i1 < nk,
        0 <= i2 < nk,
        0 <= j1 < cfg.len(),
        0 <= j2 < cfg.len(),
        slot_of(cfg, nk, i1, j1) == slot_of(cfg, nk, i2, j2),
    ensures
        i1 == i2,
        j1 == j2,
{
    let r = cfg[j1] + i1;
    if j1 < j2 {
        lemma_hits_grow(cfg, nk, r, j1, j2);
    } else if j2 < j1 {
        lemma_hits_grow(cfg, nk, r, j2, j1);
    }
}

/// Every slot counted among the first `m` harmonics of resonator `r` is the
/// slot of one of those harmonics, for some key.
proof fn lemma_hits_cover(cfg: Seq<usize>, nk: nat, r: int, s: int, m: int)
    requires
        0 <= s < hits(cfg, nk, r, m),
        m <= cfg.len(),
    ensures
        exists|i: int, j: int| 0 <= i < nk && 0 <= j < m && #[trigger] slot_of(cfg, nk, i, j) == (r, s),
    decreases m,
{
    if s < hits(cfg, nk, r, m - 1) {
        lemma_hits_cover(cfg, nk, r, s, m - 1);
        let (i, j) = choose|i: int, j: int|
            0 <= i < nk && 0 <= j < m - 1 && #[trigger] slot_of(cfg, nk, i, j) == (r, s);
        assert(slot_of(cfg, nk, i, j) == (r, s));
    } else {
        let j = m - 1;
        let i = r - cfg[j];
        assert(slot_of(cfg, nk, i, j) == (r, s));
    }
}

/// Every slot of every resonator belongs to some (key, harmonic) pair: with
/// `lemma_slots_distinct`, the slots of the pairs are exactly the slots of the
/// resonators, each once.
pub proof fn lemma_slots_cover(cfg: Seq<usize>, nk: nat, r: int, s: int)
    requires
        0 <= s < slot_count(cfg, nk, r),
    ensures
        exists|i: int, j: int|
            0 <= i < nk && 0 <= j < cfg.len() && #[trigger] slot_of(cfg, nk, i, j) == (r, s),
{
    lemma_hits_cover(cfg, nk, r, s, cfg.len() as int);
}

/// The slot of key `i`, harmonic `j` is a valid slot of a valid resonator.
pub proof fn lemma_slot_in_range(cfg: Seq<usize>, nk: nat, i: int, j: int)
    requires
        0 <= i < nk,
        0 <= j < cfg.len(),
    ensures
        0 <= slot_of(cfg, nk, i, j).0 < resonator_count(nk, cfg),
        0 <= slot_of(cfg, nk, i, j).1 < slot_count(cfg, nk, slot_of(cfg, nk, i, j).0),
{
    lemma_max_of(cfg);
    lemma_hits_grow(cfg, nk, cfg[j] + i, j, cfg.len() as int);
}

/// The largest entry of a non-empty configuration.
fn max_entry(cfg: &[usize]) -> (mx: usize)
    requires
        cfg@.len() > 0,
    ensures
        mx == max_of(cfg@),
{
    let mut mx = cfg[0];
    let mut j: usize = 1;
    while j < cfg.len()
        invariant
            1 <= j <= cfg@.len(),
            mx == max_of(cfg@.take(j as int)),
        decreases cfg@.len() - j,
    {
        proof {
            assert(cfg@.take(j + 1).drop_last() =~= cfg@.take(j as int));
        }
        if cfg[j] > mx {
            mx = cfg[j];
        }
        j = j + 1;
    }
    proof {
        assert(cfg@.take(cfg@.len() as int) =~= cfg@);
    }
    mx
}

/// For each of the `nk` keys, the slot of each harmonic of `cfg`: harmonic
/// `j` of key `i` goes to resonator `cfg[j] + i`, at the next free index of
/// that resonator's slots (harmonics taken in order).
pub fn k2r(nk: usize, cfg: &[usize]) -> (ret: Vec<Vec<(usize, usize)>>)
    requires
        cfg@.len() > 0,
        layout_fits(nk as nat, cfg@),
    ensures
        ret@.len() == nk,
        forall|i: int| 0 <= i < nk ==> (#[trigger] ret@[i])@.len() == cfg@.len(),
        forall|i: int, j: int|
            0 <= i < nk && 0 <= j < cfg@.len() ==> ((#[trigger] ret@[i]@[j]).0 as int,
            ret@[i]@[j].1 as int) == slot_of(cfg@, nk as nat, i, j),
{
    let mx = max_entry(cfg);
    proof {
        lemma_max_of(cfg@);
    }
    let total = nk + mx;
    let mut cnt: Vec<usize> = Vec::new();
    while cnt.len() < total
        invariant
            cnt@.len() <= total,
            forall|r: int| 0 <= r < cnt@.len() ==> cnt@[r] == 0,
        decreases total - cnt@.len(),
    {
        cnt.push(0);
    }
    let mut ret: Vec<Vec<(usize, usize)>> = Vec::new();
    while ret.len() < nk
        invariant
            ret@.len() <= nk,
            forall|i: int| 0 <= i < ret@.len() ==> (#[trigger] ret@[i])@.len() == 0,
        decreases nk - ret@.len(),
    {
        ret.push(Vec::new());
    }
    let clen = cfg.len();
    for j in 0..clen
        invariant
            clen == cfg@.len(),
            total == nk + mx,
            mx == max_of(cfg@),
            forall|jj: int| 0 <= jj < cfg@.len() ==> cfg@[jj] <= mx,
            cnt@.len() == total,
            forall|r: int| 0 <= r < total ==> #[trigger] cnt@[r] == hits(cfg@, nk as nat, r, j as int),
            ret@.len() == nk,
            forall|i: int| 0 <= i < nk ==> (#[trigger] ret@[i])@.len() == j,
            forall|i: int, jj: int|
                0 <= i < nk && 0 <= jj < j ==> ((#[trigger] ret@[i]@[jj]).0 as int,
                ret@[i]@[jj].1 as int) == slot_of(cfg@, nk as nat, i, jj),
    {
        let c = cfg[j];
        for i in 0..nk
            invariant
                clen == cfg@.len(),
                j < clen,
                c == cfg@[j as int],
                total == nk + mx,
                c <= mx,
                cnt@.len() == total,
                forall|r: int|
                    0 <= r < total ==> #[trigger] cnt@[r] == hits(cfg@, nk as nat, r, j as int) + if c
                        <= r < c + i {
                        1nat
                    } else {
                        0
                    },
                ret@.len() == nk,
                forall|ii: int| 0 <= ii < i ==> (#[trigger] ret@[ii])@.len() == j + 1,
                forall|ii: int| i <= ii < nk ==> (#[trigger] ret@[ii])@.len() == j,
                forall|ii: int, jj: int|
                    0 <= ii < nk && 0 <= jj < j ==> ((#[trigger] ret@[ii]@[jj]).0 as int,
                    ret@[ii]@[jj].1 as int) == slot_of(cfg@, nk as nat, ii, jj),
                forall|ii: int|
                    0 <= ii < i ==> ((#[trigger] ret@[ii]@[j as int]).0 as int,
                    ret@[ii]@[j as int].1 as int) == slot_of(cfg@, nk as nat, ii, j as int),
        {
            let r = c + i;
            proof {
                lemma_hits_bound(cfg@, nk as nat, r as int, j as int);
            }
            let k = cnt[r];
            let ghost before = ret@;
            ret[i].push((r, k));
            proof {
                assert forall|ii: int, jj: int|
                    0 <= ii < nk && 0 <= jj < j implies ((#[trigger] ret@[ii]@[jj]).0 as int,
                    ret@[ii]@[jj].1 as int) == slot_of(cfg@, nk as nat, ii, jj) by {
                    assert(before[ii]@[jj] == ret@[ii]@[jj]);
                }
                assert forall|ii: int|
                    0 <= ii < i + 1 implies ((#[trigger] ret@[ii]@[j as int]).0 as int,
                    ret@[ii]@[j as int].1 as int) == slot_of(cfg@, nk as nat, ii, j as int) by {
                    if ii < i {
                        assert(before[ii]@[j as int] == ret@[ii]@[j as int]);
                    }
                }
            }
            cnt.set(r, k + 1);
        }
    }
    ret
}

/// The number of slots of each resonator of the layout.
pub fn slot_counts(nk: usize, cfg: &[usize]) -> (counts: Vec<usize>)
    requires
        cfg@.len() > 0,
        layout_fits(nk as nat, cfg@),
    ensures
        counts@.len() == resonator_count(nk as nat, cfg@),
        forall|r: int| 0 <= r < counts@.len() ==> #[trigger] counts@[r] == slot_count(cfg@, nk as nat, r),
{
    let mx = max_entry(cfg);
    proof {
        lemma_max_of(cfg@);
    }
    let total = nk + mx;
    let clen = cfg.len();
    let mut counts: Vec<usize> = Vec::new();
    for r in 0..total
        invariant
            clen == cfg@.len(),
            total == resonator_count(nk as nat, cfg@),
            counts@.len() == r,
            forall|rr: int| 0 <= rr < r ==> #[trigger] counts@[rr] == slot_count(cfg@, nk as nat, rr),
    {
        let mut c: usize = 0;
        for j in 0..clen
            invariant
                clen == cfg@.len(),
                c == hits(cfg@, nk as nat, r as int, j as int),
        {
            proof {
                lemma_hits_bound(cfg@, nk as nat, r as int, j as int);
            }
            if cfg[j] <= r && r - cfg[j] < nk {
                c = c + 1;
            }
        }
        counts.push(c);
    }
    counts
}

} // verus!
