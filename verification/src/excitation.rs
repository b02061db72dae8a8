//! The excitation bursts: each slot of each resonator replays a short table
//! of samples, backwards, after its key goes down.
use vstd::prelude::*;
use crate::layout::{k2r, layout_fits, lemma_slot_in_range, resonator_count, slot_count, slot_counts, slot_of};

verus! {

/// A burst counter: how many samples of a table of `len` samples are still
/// to be played.
#[derive(Debug)]
pub struct Countdown {
    n: usize,
    len: usize,
}

impl View for Countdown {
    /// `(remaining, len)`.
    type V = (nat, nat);

    closed spec fn view(&self) -> (nat, nat) {
        (self.n as nat, self.len as nat)
    }
}

impl Countdown {
    /// A silent counter over a table of `len` samples.
    pub fn new(len: usize) -> (c: Countdown)
        ensures
            c@ == (0nat, len as nat),
    {
        Countdown { n: 0, len }
    }

    /// A counter with `n` of its `len` samples still to play; `None` when
    /// `n > len`.
    pub fn with_remaining(n: usize, len: usize) -> (c: Option<Countdown>)
        ensures
            match c {
                Some(c) => c@ == (n as nat, len as nat),
                None => n > len,
            },
    {
        if n <= len {
            Some(Countdown { n, len })
        } else {
            None
        }
    }

    /// Samples still to play.
    pub fn remaining(&self) -> (n: usize)
        ensures
            n == self@.0,
    {
        self.n
    }

    /// Length of the sample table.
    pub fn len(&self) -> (n: usize)
        ensures
            n == self@.1,
    {
        self.len
    }

    /// Starts the burst over: the whole table is to be played.
    pub fn restart(&mut self)
        ensures
            final(self)@ == (old(self)@.1, old(self)@.1),
    {
        self.n = self.len;
    }

    /// The index of the next sample to play (the table is played from its
    /// end back to its start), or `None` once the burst is over.
    pub fn next(&mut self) -> (k: Option<usize>)
        requires
            old(self)@.0 <= old(self)@.1,
        ensures
            final(self)@.1 == old(self)@.1,
            final(self)@.0 <= final(self)@.1,
            old(self)@.0 > 0 ==> k == Some((old(self)@.0 - 1) as usize) && final(self)@.0 == old(self)@.0
                - 1,
            old(self)@.0 == 0 ==> k == None::<usize> && final(self)@ == old(self)@,
    {
        if 0 < self.n {
            self.n = self.n - 1;
            Some(self.n)
        } else {
            None
        }
    }
}

/// The burst counters of a bank.
#[derive(Debug)]
pub struct Excitation {
    exi: Vec<Vec<(usize, usize)>>,
    cd: Vec<Vec<Countdown>>,
}

/// What an [`Excitation`] holds.
pub ghost struct ExcitationView {
    /// For each key, the slot `(resonator, index)` of each of its harmonics.
    pub slots: Seq<Seq<(usize, usize)>>,
    /// For each resonator, the `(remaining, len)` counter of each slot.
    pub counters: Seq<Seq<(nat, nat)>>,
}

impl ExcitationView {
    /// Every slot of every key exists, and no counter runs past its table.
    pub open spec fn wf(self) -> bool {
        &&& forall|i: int, j: int|
            0 <= i < self.slots.len() && 0 <= j < self.slots[i].len() ==> {
                let t = #[trigger] self.slots[i][j];
                &&& t.0 < self.counters.len()
                &&& t.1 < self.counters[t.0 as int].len()
            }
        &&& forall|r: int, s: int|
            0 <= r < self.counters.len() && 0 <= s < self.counters[r].len() ==> (
            #[trigger] self.counters[r][s]).0 <= self.counters[r][s].1
    }

    /// Slot `(r, s)` belongs to key `i`.
    pub open spec fn of_key(self, i: int, r: int, s: int) -> bool {
        exists|j: int|
            0 <= j < self.slots[i].len() && (#[trigger] self.slots[i][j]).0 == r && self.slots[i][j].1
                == s
    }

    /// The counters after key `i` goes down: each of its slots restarts.
    pub open spec fn after_on(self, i: int) -> ExcitationView {
        ExcitationView {
            counters: Seq::new(
                self.counters.len(),
                |r: int|
                    Seq::new(
                        self.counters[r].len(),
                        |s: int|
                            if self.of_key(i, r, s) {
                                (self.counters[r][s].1, self.counters[r][s].1)
                            } else {
                                self.counters[r][s]
                            },
                    ),
            ),
            ..self
        }
    }
}

/// The sample a counter plays next: `Some(remaining - 1)`, or `None` once it
/// is over.
pub open spec fn next_sample(c: (nat, nat)) -> Option<usize> {
    if c.0 > 0 {
        Some((c.0 - 1) as usize)
    } else {
        None
    }
}

/// A counter one sample on.
pub open spec fn advanced(c: (nat, nat)) -> (nat, nat) {
    if c.0 > 0 {
        ((c.0 - 1) as nat, c.1)
    } else {
        c
    }
}

/// Key `i` going down restarts exactly its own slots (every harmonic); every
/// other counter, and every table length, is left as it was.
pub proof fn lemma_on_restarts_only_its_slots(v: ExcitationView, i: int)
    requires
        v.wf(),
        0 <= i < v.slots.len(),
    ensures
        v.after_on(i).slots == v.slots,
        v.after_on(i).counters.len() == v.counters.len(),
        forall|r: int| 0 <= r < v.counters.len() ==> (#[trigger] v.after_on(i).counters[r]).len() == v.counters[r].len(),
        forall|r: int, s: int|
            0 <= r < v.counters.len() && 0 <= s < v.counters[r].len() ==> #[trigger] v.after_on(i).counters[r][s]
                == if exists|j: int|
                0 <= j < v.slots[i].len() && (#[trigger] v.slots[i][j]).0 == r && v.slots[i][j].1 == s {
                (v.counters[r][s].1, v.counters[r][s].1)
            } else {
                v.counters[r][s]
            },
{
}

/// A counter `k` samples on.
pub open spec fn advanced_by(c: (nat, nat), k: nat) -> (nat, nat)
    decreases k,
{
    if k == 0 {
        c
    } else {
        advanced(advanced_by(c, (k - 1) as nat))
    }
}

/// The counters after `k` ticks of resonator `r` (each a `tick_row(r)`).
pub open spec fn ticked(v: ExcitationView, r: int, k: nat) -> ExcitationView
    decreases k,
{
    if k == 0 {
        v
    } else {
        let w = ticked(v, r, (k - 1) as nat);
        ExcitationView {
            counters: w.counters.update(r, w.counters[r].map_values(|c: (nat, nat)| advanced(c))),
            ..w
        }
    }
}

/// A restarted counter over a table of `len` samples, `k` samples on.
pub proof fn lemma_advanced_by_full(len: nat, k: nat)
    ensures
        advanced_by((len, len), k) == (if k <= len {
            (len - k) as nat
        } else {
            0nat
        }, len),
    decreases k,
{
    if k > 0 {
        lemma_advanced_by_full(len, (k - 1) as nat);
    }
}

/// Ticking resonator `r` `k` times moves each of its counters `k` samples on.
pub proof fn lemma_ticked_slot(v: ExcitationView, r: int, s: int, k: nat)
    requires
        0 <= r < v.counters.len(),
        0 <= s < v.counters[r].len(),
    ensures
        ticked(v, r, k).slots == v.slots,
        ticked(v, r, k).counters.len() == v.counters.len(),
        ticked(v, r, k).counters[r].len() == v.counters[r].len(),
        ticked(v, r, k).counters[r][s] == advanced_by(v.counters[r][s], k),
    decreases k,
{
    if k > 0 {
        lemma_ticked_slot(v, r, s, (k - 1) as nat);
    }
}

/// A burst lasts exactly as long as its table: after key `i` goes down, the
/// `k`-th following tick of the resonator of one of its slots (counting from
/// 0) plays sample `len - 1 - k` of the slot's table of `len` samples while
/// `k < len`, and nothing from then on.
pub proof fn lemma_burst_lasts_its_table(v: ExcitationView, i: int, j: int, k: nat)
    requires
        v.wf(),
        0 <= i < v.slots.len(),
        0 <= j < v.slots[i].len(),
    ensures
        ({
            let r = v.slots[i][j].0 as int;
            let s = v.slots[i][j].1 as int;
            let len = v.counters[r][s].1;
            let c = ticked(v.after_on(i), r, k).counters[r][s];
            &&& c == (if k <= len {
                (len - k) as nat
            } else {
                0nat
            }, len)
            &&& next_sample(c) == if k < len {
                Some((len - k - 1) as usize)
            } else {
                None
            }
        }),
{
    let r = v.slots[i][j].0 as int;
    let s = v.slots[i][j].1 as int;
    let len = v.counters[r][s].1;
    let u = v.after_on(i);
    assert(v.of_key(i, r, s));
    assert(u.counters[r][s] == (len, len));
    lemma_ticked_slot(u, r, s, k);
    lemma_advanced_by_full(len, k);
}

impl View for Excitation {
    type V = ExcitationView;

    closed spec fn view(&self) -> ExcitationView {
        ExcitationView {
            slots: self.exi@.map_values(|row: Vec<(usize, usize)>| row@),
            counters: self.cd@.map_values(|row: Vec<Countdown>| row@.map_values(|c: Countdown| c@)),
        }
    }
}

impl Excitation {
    /// The counters of a bank for `nk` keys with harmonics `cfg`, where every
    /// slot of resonator `r` plays a table of `lens[r]` samples; all silent.
    pub fn new(nk: usize, cfg: &[usize], lens: &[usize]) -> (e: Excitation)
        requires
            cfg@.len() > 0,
            layout_fits(nk as nat, cfg@),
            lens@.len() == resonator_count(nk as nat, cfg@),
        ensures
            e@.wf(),
            e@.slots.len() == nk,
            forall|i: int| 0 <= i < nk ==> (#[trigger] e@.slots[i]).len() == cfg@.len(),
            forall|i: int, j: int|
                0 <= i < nk && 0 <= j < cfg@.len() ==> ((#[trigger] e@.slots[i][j]).0 as int,
                e@.slots[i][j].1 as int) == slot_of(cfg@, nk as nat, i, j),
            e@.counters.len() == lens@.len(),
            forall|r: int|
                0 <= r < lens@.len() ==> (#[trigger] e@.counters[r]).len() == slot_count(
                    cfg@,
                    nk as nat,
                    r,
                ),
            forall|r: int, s: int|
                0 <= r < lens@.len() && 0 <= s < e@.counters[r].len() ==> #[trigger] e@.counters[r][s]
                    == (0nat, lens@[r] as nat),
    {
        let exi = k2r(nk, cfg);
        let counts = slot_counts(nk, cfg);
        let total = counts.len();
        let mut cd: Vec<Vec<Countdown>> = Vec::new();
        for r in 0..total
            invariant
                total == counts@.len(),
                total == lens@.len(),
                cd@.len() == r,
                forall|rr: int| 0 <= rr < r ==> (#[trigger] cd@[rr])@.len() == counts@[rr],
                forall|rr: int, s: int|
                    0 <= rr < r && 0 <= s < cd@[rr]@.len() ==> (#[trigger] cd@[rr]@[s])@ == (
                    0nat,
                    lens@[rr] as nat,
                ),
        {
            let n = counts[r];
            let mut row: Vec<Countdown> = Vec::new();
            for s in 0..n
                invariant
                    r < lens@.len(),
                    row@.len() == s,
                    forall|ss: int| 0 <= ss < s ==> (#[trigger] row@[ss])@ == (0nat, lens@[r as int] as nat),
            {
                row.push(Countdown::new(lens[r]));
            }
            cd.push(row);
        }
        let e = Excitation { exi, cd };
        proof {
            assert forall|i: int, j: int|
                0 <= i < e@.slots.len() && 0 <= j < e@.slots[i].len() implies {
                    let t = #[trigger] e@.slots[i][j];
                    &&& t.0 < e@.counters.len()
                    &&& t.1 < e@.counters[t.0 as int].len()
                } by {
                lemma_slot_in_range(cfg@, nk as nat, i, j);
            }
        }
        e
    }

    /// Counters given part by part (slots of each key, counters of each
    /// resonator); `None` when a slot does not exist or a counter runs past
    /// its table.
    pub fn from_parts(exi: Vec<Vec<(usize, usize)>>, cd: Vec<Vec<Countdown>>) -> (e: Option<Excitation>)
        ensures
            ({
                let want = ExcitationView {
                    slots: exi@.map_values(|row: Vec<(usize, usize)>| row@),
                    counters: cd@.map_values(|row: Vec<Countdown>| row@.map_values(|c: Countdown| c@)),
                };
                match e {
                    Some(e) => e@ == want && want.wf(),
                    None => !want.wf(),
                }
            }),
    {
        let ghost want = ExcitationView {
            slots: exi@.map_values(|row: Vec<(usize, usize)>| row@),
            counters: cd@.map_values(|row: Vec<Countdown>| row@.map_values(|c: Countdown| c@)),
        };
        let nr = cd.len();
        for r in 0..nr
            invariant
                nr == want.counters.len(),
                want.slots == exi@.map_values(|row: Vec<(usize, usize)>| row@),
                want.counters == cd@.map_values(|row: Vec<Countdown>| row@.map_values(|c: Countdown| c@)),
                forall|rr: int, s: int|
                    0 <= rr < r && 0 <= s < want.counters[rr].len() ==> (
                    #[trigger] want.counters[rr][s]).0 <= want.counters[rr][s].1,
        {
            let m = cd[r].len();
            for s in 0..m
                invariant
                    nr == want.counters.len(),
                    r < nr,
                    m == want.counters[r as int].len(),
                    want.slots == exi@.map_values(|row: Vec<(usize, usize)>| row@),
                    want.counters == cd@.map_values(|row: Vec<Countdown>| row@.map_values(|c: Countdown| c@)),
                    forall|rr: int, ss: int|
                        0 <= rr < r && 0 <= ss < want.counters[rr].len() ==> (
                        #[trigger] want.counters[rr][ss]).0 <= want.counters[rr][ss].1,
                    forall|ss: int|
                        0 <= ss < s ==> (#[trigger] want.counters[r as int][ss]).0 <= want.counters[r as int][ss].1,
            {
                if cd[r][s].remaining() > cd[r][s].len() {
                    proof {
                        assert(want.counters[r as int][s as int] == cd@[r as int]@[s as int]@);
                        assert(want.counters[r as int][s as int].0 > want.counters[r as int][s as int].1);
                        assert(!want.wf());
                    }
                    return None;
                }
            }
        }
        let nk = exi.len();
        for i in 0..nk
            invariant
                nk == want.slots.len(),
                want.slots == exi@.map_values(|row: Vec<(usize, usize)>| row@),
                want.counters == cd@.map_values(|row: Vec<Countdown>| row@.map_values(|c: Countdown| c@)),
                forall|ii: int, j: int|
                    0 <= ii < i && 0 <= j < want.slots[ii].len() ==> {
                        let t = #[trigger] want.slots[ii][j];
                        &&& t.0 < want.counters.len()
                        &&& t.1 < want.counters[t.0 as int].len()
                    },
        {
            let m = exi[i].len();
            for j in 0..m
                invariant
                    nk == want.slots.len(),
                    i < nk,
                    m == want.slots[i as int].len(),
                    want.slots == exi@.map_values(|row: Vec<(usize, usize)>| row@),
                    want.counters == cd@.map_values(|row: Vec<Countdown>| row@.map_values(|c: Countdown| c@)),
                    forall|ii: int, jj: int|
                        0 <= ii < i && 0 <= jj < want.slots[ii].len() ==> {
                            let t = #[trigger] want.slots[ii][jj];
                            &&& t.0 < want.counters.len()
                            &&& t.1 < want.counters[t.0 as int].len()
                        },
                    forall|jj: int|
                        0 <= jj < j ==> {
                            let t = #[trigger] want.slots[i as int][jj];
                            &&& t.0 < want.counters.len()
                            &&& t.1 < want.counters[t.0 as int].len()
                        },
            {
                let (r, s) = exi[i][j];
                if r >= cd.len() || s >= cd[r].len() {
                    proof {
                        assert(want.slots[i as int][j as int] == (r, s));
                    }
                    return None;
                }
            }
        }
        let e = Excitation { exi, cd };
        proof {
            assert(e@ == want);
        }
        Some(e)
    }

    /// Key `i` goes down: the burst of each of its slots starts over.
    pub fn on(&mut self, i: usize)
        requires
            old(self)@.wf(),
            i < old(self)@.slots.len(),
        ensures
            final(self)@ == old(self)@.after_on(i as int),
            final(self)@.wf(),
    {
        let ghost v0 = self@;
        let m = self.exi[i].len();
        for j in 0..m
            invariant
                v0.wf(),
                i < v0.slots.len(),
                m == v0.slots[i as int].len(),
                self@.slots == v0.slots,
                self.cd@.len() == v0.counters.len(),
                forall|r: int| 0 <= r < v0.counters.len() ==> (#[trigger] self.cd@[r])@.len() == v0.counters[r].len(),
                forall|r: int, s: int|
                    0 <= r < v0.counters.len() && 0 <= s < v0.counters[r].len() ==> (#[trigger] self.cd@[r]@[s])@
                        == if exists|jj: int|
                        0 <= jj < j && (#[trigger] v0.slots[i as int][jj]).0 == r && v0.slots[i as int][jj].1
                            == s {
                        (v0.counters[r][s].1, v0.counters[r][s].1)
                    } else {
                        v0.counters[r][s]
                    },
        {
            let (r, s) = self.exi[i][j];
            let ghost c0 = self.cd@;
            self.cd[r][s].restart();
            proof {
                assert(v0.slots[i as int][j as int] == (r, s));
                assert forall|rr: int, ss: int|
                    0 <= rr < v0.counters.len() && 0 <= ss < v0.counters[rr].len() implies (#[trigger] self.cd@[rr]@[ss])@
                        == if exists|jj: int|
                        0 <= jj < j + 1 && (#[trigger] v0.slots[i as int][jj]).0 == rr && v0.slots[i as int][jj].1
                            == ss {
                        (v0.counters[rr][ss].1, v0.counters[rr][ss].1)
                    } else {
                        v0.counters[rr][ss]
                    } by {
                    if rr != r {
                        assert(self.cd@[rr] == c0[rr]);
                    } else if ss != s {
                        assert(self.cd@[rr]@[ss] == c0[rr]@[ss]);
                    }
                    if exists|jj: int|
                        0 <= jj < j + 1 && (#[trigger] v0.slots[i as int][jj]).0 == rr && v0.slots[i as int][jj].1
                            == ss {
                        let w = choose|jj: int|
                            0 <= jj < j + 1 && (#[trigger] v0.slots[i as int][jj]).0 == rr
                                && v0.slots[i as int][jj].1 == ss;
                        if w < j {
                            assert(c0[rr]@[ss]@ == (v0.counters[rr][ss].1, v0.counters[rr][ss].1));
                        }
                    }
                }
            }
        }
        proof {
            let want = v0.after_on(i as int);
            assert forall|r: int|
                0 <= r < v0.counters.len() implies self@.counters[r] =~= #[trigger] want.counters[r] by {
            }
            assert(self@.counters =~~= want.counters);
        }
    }

    /// One sample of every slot of resonator `r`: the sample index each slot
    /// plays (`None` for a silent slot); each counter moves one sample on.
    pub fn tick_row(&mut self, r: usize) -> (samples: Vec<Option<usize>>)
        requires
            old(self)@.wf(),
            r < old(self)@.counters.len(),
        ensures
            final(self)@.slots == old(self)@.slots,
            final(self)@.counters == old(self)@.counters.update(
                r as int,
                old(self)@.counters[r as int].map_values(|c: (nat, nat)| advanced(c)),
            ),
            samples@ == old(self)@.counters[r as int].map_values(|c: (nat, nat)| next_sample(c)),
            final(self)@ == ticked(old(self)@, r as int, 1),
            final(self)@.wf(),
    {
        let ghost v0 = self@;
        let ghost cd0 = self.cd@;
        let n = self.cd[r].len();
        let mut samples: Vec<Option<usize>> = Vec::new();
        for s in 0..n
            invariant
                v0.wf(),
                r < v0.counters.len(),
                n == v0.counters[r as int].len(),
                self@.slots == v0.slots,
                self.cd@.len() == v0.counters.len(),
                cd0 == old(self).cd@,
                v0 == old(self)@,
                forall|rr: int| 0 <= rr < v0.counters.len() && rr != r ==> #[trigger] self.cd@[rr] == cd0[rr],
                self.cd@[r as int]@.len() == n,
                forall|ss: int|
                    0 <= ss < n ==> (#[trigger] self.cd@[r as int]@[ss])@ == if ss < s {
                        advanced(v0.counters[r as int][ss])
                    } else {
                        v0.counters[r as int][ss]
                    },
                samples@.len() == s,
                forall|ss: int| 0 <= ss < s ==> #[trigger] samples@[ss] == next_sample(v0.counters[r as int][ss]),
        {
            let ghost c0 = self.cd@;
            assert(self.cd@[r as int]@[s as int]@ == v0.counters[r as int][s as int]);
            let k = self.cd[r][s].next();
            samples.push(k);
            proof {
                assert forall|rr: int| 0 <= rr < v0.counters.len() && rr != r implies #[trigger] self.cd@[rr]
                    == cd0[rr] by {
                    assert(self.cd@[rr] == c0[rr]);
                }
                assert forall|ss: int|
                    0 <= ss < n implies (#[trigger] self.cd@[r as int]@[ss])@ == if ss < s + 1 {
                        advanced(v0.counters[r as int][ss])
                    } else {
                        v0.counters[r as int][ss]
                    } by {
                    if ss != s {
                        assert(self.cd@[r as int]@[ss] == c0[r as int]@[ss]);
                    }
                }
            }
        }
        proof {
            assert(samples@ =~= v0.counters[r as int].map_values(|c: (nat, nat)| next_sample(c)));
            let want = v0.counters.update(
                r as int,
                v0.counters[r as int].map_values(|c: (nat, nat)| advanced(c)),
            );
            assert(self@.counters[r as int] =~= want[r as int]);
            assert forall|rr: int| 0 <= rr < want.len() implies #[trigger] self@.counters[rr] == want[rr] by {
                if rr != r {
                    assert(self.cd@[rr] == cd0[rr]);
                }
            }
            assert(self@.counters =~= want);
            assert(ticked(v0, r as int, 0) == v0);
            assert(self@ == ticked(v0, r as int, 1));
        }
        samples
    }

    /// The slot that harmonic `h` of each key lands on, in key order.
    pub fn harmonic_slots(&self, h: usize) -> (ts: Vec<(usize, usize)>)
        requires
            forall|i: int| 0 <= i < self@.slots.len() ==> h < (#[trigger] self@.slots[i]).len(),
        ensures
            ts@.len() == self@.slots.len(),
            forall|i: int| 0 <= i < self@.slots.len() ==> #[trigger] ts@[i] == self@.slots[i][h as int],
    {
        let nk = self.exi.len();
        let mut ts: Vec<(usize, usize)> = Vec::new();
        for i in 0..nk
            invariant
                nk == self@.slots.len(),
                forall|ii: int| 0 <= ii < self@.slots.len() ==> h < (#[trigger] self@.slots[ii]).len(),
                ts@.len() == i,
                forall|ii: int| 0 <= ii < i ==> #[trigger] ts@[ii] == self@.slots[ii][h as int],
        {
            assert(self@.slots[i as int] == self.exi@[i as int]@);
            ts.push(self.exi[i][h]);
        }
        ts
    }

    /// Number of keys.
    pub fn key_count(&self) -> (n: usize)
        ensures
            n == self@.slots.len(),
    {
        self.exi.len()
    }

    /// Number of resonators.
    pub fn resonator_count(&self) -> (n: usize)
        ensures
            n == self@.counters.len(),
    {
        self.cd.len()
    }

    /// Number of slots of resonator `r`.
    pub fn slot_count(&self, r: usize) -> (n: usize)
        requires
            r < self@.counters.len(),
        ensures
            n == self@.counters[r as int].len(),
    {
        self.cd[r].len()
    }

    /// The counter of slot `s` of resonator `r`: `(remaining, len)`.
    pub fn counter(&self, r: usize, s: usize) -> (c: (usize, usize))
        requires
            r < self@.counters.len(),
            s < self@.counters[r as int].len(),
        ensures
            c.0 == self@.counters[r as int][s as int].0,
            c.1 == self@.counters[r as int][s as int].1,
    {
        (self.cd[r][s].remaining(), self.cd[r][s].len())
    }
}

} // verus!
