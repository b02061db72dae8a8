//! Which keys are held, which resonator slots they press, which resonators
//! ring, and which chord root the held keys form.
use vstd::prelude::*;
use crate::chord::{chord_root, is_chord_root, lemma_root_unique, lemma_scores_fit};
use crate::layout::{k2r, layout_fits, lemma_slot_in_range, lemma_slots_cover, lemma_slots_distinct, resonator_count, slot_count, slot_counts, slot_of};

verus! {

/// Number of harmonics whose level is tracked.
pub const HARMONICS: usize = 8;

/// Root value meaning "no chord root".
pub const NO_ROOT: usize = 12;

/// The control state of a bank of resonators.
#[derive(Debug)]
pub struct Voicing {
    k2r: Vec<Vec<(usize, usize)>>,
    prs: Vec<Vec<bool>>,
    atv: Vec<bool>,
    pr1: Vec<bool>,
    snd: Vec<bool>,
    crt: usize,
}

/// What a [`Voicing`] holds.
pub ghost struct VoicingView {
    /// For each key, the slot `(resonator, index)` of each of its harmonics.
    pub slots: Seq<Seq<(usize, usize)>>,
    /// For each resonator, which of its slots are pressed.
    pub presses: Seq<Seq<bool>>,
    /// For each resonator, whether it rings with the slow (held) decay.
    pub active: Seq<bool>,
    /// For each key, whether it is held.
    pub held: Seq<bool>,
    /// For each harmonic, whether its level is non-zero.
    pub sounding: Seq<bool>,
    /// The chord root used for tuning, `NO_ROOT` when there is none.
    pub root: nat,
}

/// Some slot of the row is pressed.
pub open spec fn any_pressed(row: Seq<bool>) -> bool {
    exists|s: int| 0 <= s < row.len() && #[trigger] row[s]
}

impl VoicingView {
    /// The shape of the state is coherent: every slot of every key exists.
    pub open spec fn wf(self) -> bool {
        &&& self.sounding.len() == HARMONICS
        &&& self.held.len() == self.slots.len()
        &&& self.held.len() * 5 <= usize::MAX
        &&& self.active.len() == self.presses.len()
        &&& self.root <= NO_ROOT
        &&& forall|i: int, j: int|
            0 <= i < self.slots.len() && 0 <= j < self.slots[i].len() ==> {
                let t = #[trigger] self.slots[i][j];
                &&& t.0 < self.presses.len()
                &&& t.1 < self.presses[t.0 as int].len()
            }
    }

    /// No two (key, harmonic) pairs share a slot.
    pub open spec fn slots_distinct(self) -> bool {
        forall|i1: int, j1: int, i2: int, j2: int|
            0 <= i1 < self.slots.len() && 0 <= j1 < self.slots[i1].len() && 0 <= i2 < self.slots.len() && 0
                <= j2 < self.slots[i2].len() && #[trigger] self.slots[i1][j1] == #[trigger] self.slots[i2][j2] ==> i1
                == i2 && j1 == j2
    }

    /// Slot `s` of resonator `r` belongs to some (key, harmonic) pair.
    pub open spec fn owned(self, r: int, s: int) -> bool {
        exists|i: int, j: int|
            0 <= i < self.slots.len() && 0 <= j < self.slots[i].len() && (#[trigger] self.slots[i][j]).0 == r
                && self.slots[i][j].1 == s
    }

    /// Every slot of every resonator belongs to some (key, harmonic) pair.
    pub open spec fn slots_cover(self) -> bool {
        forall|r: int, s: int|
            0 <= r < self.presses.len() && 0 <= s < self.presses[r].len() ==> #[trigger] self.owned(r, s)
    }

    /// A resonator rings with the held decay exactly when one of its slots is pressed.
    pub open spec fn consistent(self) -> bool {
        forall|r: int| 0 <= r < self.presses.len() ==> #[trigger] self.active[r] == any_pressed(
            self.presses[r],
        )
    }

    /// Harmonic `j` of key `i` sounds and lands on slot `(r, s)`.
    pub open spec fn strikes(self, i: int, r: int, s: int) -> bool {
        exists|j: int|
            0 <= j < self.slots[i].len() && j < HARMONICS && self.sounding[j] && (#[trigger] self.slots[i][j]).0
                == r && self.slots[i][j].1 == s
    }

    /// Some sounding harmonic of key `i` lands on resonator `r`.
    pub open spec fn strikes_resonator(self, i: int, r: int) -> bool {
        exists|j: int|
            0 <= j < self.slots[i].len() && j < HARMONICS && self.sounding[j] && (#[trigger] self.slots[i][j]).0
                == r
    }

    /// Some slot of resonator `r` satisfies `hit`.
    pub open spec fn touched(self, hit: spec_fn(int, int) -> bool, r: int) -> bool {
        exists|s: int| 0 <= s < self.presses[r].len() && #[trigger] hit(r, s)
    }

    /// The presses after releasing every slot that satisfies `hit`.
    pub open spec fn released_presses(self, hit: spec_fn(int, int) -> bool) -> Seq<Seq<bool>> {
        Seq::new(
            self.presses.len(),
            |r: int| Seq::new(self.presses[r].len(), |s: int| self.presses[r][s] && !hit(r, s)),
        )
    }

    /// The resonators that releasing the slots satisfying `hit` leaves with no
    /// pressed slot, among those it touched: their decay must switch to the
    /// fast (free) one.
    pub open spec fn released_mask(self, hit: spec_fn(int, int) -> bool) -> Seq<bool> {
        Seq::new(
            self.presses.len(),
            |r: int| self.touched(hit, r) && !any_pressed(self.released_presses(hit)[r]),
        )
    }

    /// The state after releasing every slot that satisfies `hit`.
    pub open spec fn release(self, hit: spec_fn(int, int) -> bool) -> VoicingView {
        VoicingView {
            presses: self.released_presses(hit),
            active: Seq::new(
                self.active.len(),
                |r: int|
                    if self.released_mask(hit)[r] {
                        false
                    } else {
                        self.active[r]
                    },
            ),
            ..self
        }
    }

    /// The slots of key `i`.
    pub open spec fn key_slots(self, i: int) -> spec_fn(int, int) -> bool {
        |r: int, s: int|
            exists|j: int|
                0 <= j < self.slots[i].len() && (#[trigger] self.slots[i][j]).0 == r && self.slots[i][j].1 == s
    }

    /// The slots of harmonic `h`, over all keys.
    pub open spec fn harmonic_slots(self, h: int) -> spec_fn(int, int) -> bool {
        |r: int, s: int|
            exists|k: int|
                0 <= k < self.slots.len() && h < self.slots[k].len() && (#[trigger] self.slots[k][h]).0 == r && self.slots[k][h].1 == s
    }

    /// The state after key `i` goes down.
    pub open spec fn after_on(self, i: int) -> VoicingView {
        let held = self.held.update(i, true);
        VoicingView {
            presses: Seq::new(
                self.presses.len(),
                |r: int|
                    Seq::new(self.presses[r].len(), |s: int| self.presses[r][s] || self.strikes(i, r, s)),
            ),
            active: Seq::new(
                self.active.len(),
                |r: int| self.active[r] || self.strikes_resonator(i, r),
            ),
            held: held,
            root: root_of(held),
            ..self
        }
    }

    /// The state after key `i` goes up.
    pub open spec fn after_off(self, i: int) -> VoicingView {
        VoicingView { held: self.held.update(i, false), ..self.release(self.key_slots(i)) }
    }

    /// The state after harmonic `h` is set sounding or silent.
    pub open spec fn after_harm(self, h: int, sounding: bool) -> VoicingView {
        let v = VoicingView { sounding: self.sounding.update(h, sounding), ..self };
        if sounding {
            v
        } else {
            v.release(self.harmonic_slots(h))
        }
    }
}

/// The chord root of the held keys, `NO_ROOT` when there is none.
pub open spec fn root_of(held: Seq<bool>) -> nat {
    if exists|k: int| is_chord_root(held, k) {
        (choose|k: int| is_chord_root(held, k)) as nat
    } else {
        NO_ROOT as nat
    }
}

impl View for Voicing {
    type V = VoicingView;

    closed spec fn view(&self) -> VoicingView {
        VoicingView {
            slots: self.k2r@.map_values(|row: Vec<(usize, usize)>| row@),
            presses: self.prs@.map_values(|row: Vec<bool>| row@),
            active: self.atv@,
            held: self.pr1@,
            sounding: self.snd@,
            root: self.crt as nat,
        }
    }
}

impl Voicing {
    /// The state of a bank for `nk` keys with harmonics `cfg` (key `i`,
    /// harmonic `j` on resonator `cfg[j] + i`): nothing held or pressed, every
    /// harmonic sounding, no chord root.
    pub fn new(nk: usize, cfg: &[usize]) -> (v: Voicing)
        requires
            cfg@.len() > 0,
            layout_fits(nk as nat, cfg@),
            nk * 5 <= usize::MAX,
        ensures
            v@.wf(),
            v@.consistent(),
            v@.slots_distinct(),
            v@.slots_cover(),
            v@.slots.len() == nk,
            forall|i: int| 0 <= i < nk ==> (#[trigger] v@.slots[i]).len() == cfg@.len(),
            forall|i: int, j: int|
                0 <= i < nk && 0 <= j < cfg@.len() ==> ((#[trigger] v@.slots[i][j]).0 as int,
                v@.slots[i][j].1 as int) == slot_of(cfg@, nk as nat, i, j),
            v@.presses.len() == resonator_count(nk as nat, cfg@),
            forall|r: int|
                0 <= r < v@.presses.len() ==> (#[trigger] v@.presses[r]).len() == slot_count(
                    cfg@,
                    nk as nat,
                    r,
                ) && !any_pressed(v@.presses[r]),
            forall|r: int| 0 <= r < v@.active.len() ==> !(#[trigger] v@.active[r]),
            v@.held.len() == nk,
            forall|i: int| 0 <= i < nk ==> !(#[trigger] v@.held[i]),
            forall|h: int| 0 <= h < HARMONICS ==> #[trigger] v@.sounding[h],
            v@.root == NO_ROOT,
    {
        let slots = k2r(nk, cfg);
        let counts = slot_counts(nk, cfg);
        let total = counts.len();
        let mut prs: Vec<Vec<bool>> = Vec::new();
        let mut atv: Vec<bool> = Vec::new();
        for r in 0..total
            invariant
                total == counts@.len(),
                prs@.len() == r,
                atv@.len() == r,
                forall|rr: int|
                    0 <= rr < r ==> (#[trigger] prs@[rr])@.len() == counts@[rr] && !any_pressed(
                        prs@[rr]@,
                    ),
                forall|rr: int| 0 <= rr < r ==> !(#[trigger] atv@[rr]),
        {
            let n = counts[r];
            let mut row: Vec<bool> = Vec::new();
            for s in 0..n
                invariant
                    row@.len() == s,
                    forall|ss: int| 0 <= ss < s ==> !(#[trigger] row@[ss]),
            {
                row.push(false);
            }
            prs.push(row);
            atv.push(false);
        }
        let mut pr1: Vec<bool> = Vec::new();
        for i in 0..nk
            invariant
                pr1@.len() == i,
                forall|ii: int| 0 <= ii < i ==> !(#[trigger] pr1@[ii]),
        {
            pr1.push(false);
        }
        let snd: Vec<bool> = vec![true, true, true, true, true, true, true, true];
        let v = Voicing { k2r: slots, prs, atv, pr1, snd, crt: NO_ROOT };
        proof {
            assert forall|i: int, j: int|
                0 <= i < v@.slots.len() && 0 <= j < v@.slots[i].len() implies {
                    let t = #[trigger] v@.slots[i][j];
                    &&& t.0 < v@.presses.len()
                    &&& t.1 < v@.presses[t.0 as int].len()
                } by {
                lemma_slot_in_range(cfg@, nk as nat, i, j);
            }
            assert forall|i1: int, j1: int, i2: int, j2: int|
                0 <= i1 < v@.slots.len() && 0 <= j1 < v@.slots[i1].len() && 0 <= i2 < v@.slots.len() && 0
                    <= j2 < v@.slots[i2].len() && #[trigger] v@.slots[i1][j1] == #[trigger] v@.slots[i2][j2] implies i1
                    == i2 && j1 == j2 by {
                lemma_slots_distinct(cfg@, nk as nat, i1, j1, i2, j2);
            }
            assert forall|r: int, s: int|
                0 <= r < v@.presses.len() && 0 <= s < v@.presses[r].len() implies #[trigger] v@.owned(r, s) by {
                lemma_slots_cover(cfg@, nk as nat, r, s);
                let (i, j) = choose|i: int, j: int|
                    0 <= i < nk && 0 <= j < cfg@.len() && #[trigger] slot_of(cfg@, nk as nat, i, j) == (r, s);
                assert(v@.slots[i][j].0 == r && v@.slots[i][j].1 == s);
            }
        }
        v
    }

    /// A state given part by part (slots of each key, presses of each
    /// resonator, decay of each resonator, held keys, sounding harmonics,
    /// chord root); `None` when the parts do not fit together.
    pub fn from_parts(
        k2r: Vec<Vec<(usize, usize)>>,
        prs: Vec<Vec<bool>>,
        atv: Vec<bool>,
        pr1: Vec<bool>,
        snd: Vec<bool>,
        crt: usize,
    ) -> (v: Option<Voicing>)
        ensures
            ({
                let want = VoicingView {
                    slots: k2r@.map_values(|row: Vec<(usize, usize)>| row@),
                    presses: prs@.map_values(|row: Vec<bool>| row@),
                    active: atv@,
                    held: pr1@,
                    sounding: snd@,
                    root: crt as nat,
                };
                match v {
                    Some(v) => v@ == want && want.wf(),
                    None => !want.wf(),
                }
            }),
    {
        let ghost want = VoicingView {
            slots: k2r@.map_values(|row: Vec<(usize, usize)>| row@),
            presses: prs@.map_values(|row: Vec<bool>| row@),
            active: atv@,
            held: pr1@,
            sounding: snd@,
            root: crt as nat,
        };
        if snd.len() != HARMONICS || pr1.len() != k2r.len() || pr1.len() > usize::MAX / 5
            || atv.len() != prs.len() || crt > NO_ROOT {
            return None;
        }
        let nk = k2r.len();
        for i in 0..nk
            invariant
                nk == want.slots.len(),
                want == (VoicingView {
                    slots: k2r@.map_values(|row: Vec<(usize, usize)>| row@),
                    presses: prs@.map_values(|row: Vec<bool>| row@),
                    active: atv@,
                    held: pr1@,
                    sounding: snd@,
                    root: crt as nat,
                }),
                forall|ii: int, j: int|
                    0 <= ii < i && 0 <= j < want.slots[ii].len() ==> {
                        let t = #[trigger] want.slots[ii][j];
                        &&& t.0 < want.presses.len()
                        &&& t.1 < want.presses[t.0 as int].len()
                    },
        {
            let m = k2r[i].len();
            for j in 0..m
                invariant
                    nk == want.slots.len(),
                    i < nk,
                    m == want.slots[i as int].len(),
                    want == (VoicingView {
                        slots: k2r@.map_values(|row: Vec<(usize, usize)>| row@),
                        presses: prs@.map_values(|row: Vec<bool>| row@),
                        active: atv@,
                        held: pr1@,
                        sounding: snd@,
                        root: crt as nat,
                    }),
                    forall|ii: int, jj: int|
                        0 <= ii < i && 0 <= jj < want.slots[ii].len() ==> {
                            let t = #[trigger] want.slots[ii][jj];
                            &&& t.0 < want.presses.len()
                            &&& t.1 < want.presses[t.0 as int].len()
                        },
                    forall|jj: int|
                        0 <= jj < j ==> {
                            let t = #[trigger] want.slots[i as int][jj];
                            &&& t.0 < want.presses.len()
                            &&& t.1 < want.presses[t.0 as int].len()
                        },
            {
                let (r, s) = k2r[i][j];
                if r >= prs.len() || s >= prs[r].len() {
                    proof {
                        assert(want.slots[i as int][j as int] == (r, s));
                    }
                    return None;
                }
            }
        }
        let v = Voicing { k2r, prs, atv, pr1, snd, crt };
        proof {
            assert(v@ == want);
        }
        Some(v)
    }

    /// The chord root used for tuning (`NO_ROOT` when there is none).
    pub fn root(&self) -> (r: usize)
        ensures
            r == self@.root,
    {
        self.crt
    }

    /// Number of keys.
    pub fn key_count(&self) -> (n: usize)
        ensures
            n == self@.held.len(),
    {
        self.pr1.len()
    }

    /// Number of resonators.
    pub fn resonator_count(&self) -> (n: usize)
        ensures
            n == self@.presses.len(),
    {
        self.prs.len()
    }

    /// Number of slots of resonator `r`.
    pub fn slot_count(&self, r: usize) -> (n: usize)
        requires
            r < self@.presses.len(),
        ensures
            n == self@.presses[r as int].len(),
    {
        self.prs[r].len()
    }

    /// Whether key `i` is held.
    pub fn is_held(&self, i: usize) -> (b: bool)
        requires
            i < self@.held.len(),
        ensures
            b == self@.held[i as int],
    {
        self.pr1[i]
    }

    /// Whether slot `s` of resonator `r` is pressed.
    pub fn is_pressed(&self, r: usize, s: usize) -> (b: bool)
        requires
            r < self@.presses.len(),
            s < self@.presses[r as int].len(),
        ensures
            b == self@.presses[r as int][s as int],
    {
        self.prs[r][s]
    }

    /// Whether resonator `r` rings with the held decay.
    pub fn is_active(&self, r: usize) -> (b: bool)
        requires
            self@.wf(),
            r < self@.presses.len(),
        ensures
            b == self@.active[r as int],
    {
        self.atv[r]
    }

    /// Whether harmonic `h` sounds.
    pub fn is_sounding(&self, h: usize) -> (b: bool)
        requires
            self@.wf(),
            h < HARMONICS,
        ensures
            b == self@.sounding[h as int],
    {
        self.snd[h]
    }

    /// Releases every slot listed in `ts` (whose slots are exactly those that
    /// satisfy `hit`); a resonator left with no pressed slot switches to the
    /// free decay, and is marked in the returned mask.
    fn release_slots(&mut self, ts: &Vec<(usize, usize)>, Ghost(hit): Ghost<spec_fn(int, int) -> bool>) -> (released: Vec<bool>)
        requires
            old(self)@.wf(),
            forall|q: int|
                0 <= q < ts@.len() ==> {
                    let t = #[trigger] ts@[q];
                    &&& t.0 < old(self)@.presses.len()
                    &&& t.1 < old(self)@.presses[t.0 as int].len()
                },
            forall|r: int, s: int|
                #[trigger] hit(r, s) <==> exists|q: int|
                    0 <= q < ts@.len() && (#[trigger] ts@[q]).0 == r && ts@[q].1 == s,
        ensures
            final(self)@ == old(self)@.release(hit),
            released@ == old(self)@.released_mask(hit),
    {
        let ghost v0 = self@;
        let total = self.prs.len();
        let mut released: Vec<bool> = Vec::new();
        for r in 0..total
            invariant
                released@.len() == r,
                forall|rr: int| 0 <= rr < r ==> !(#[trigger] released@[rr]),
        {
            released.push(false);
        }
        let n = ts.len();
        for q in 0..n
            invariant
                n == ts@.len(),
                v0.wf(),
                v0 == old(self)@,
                forall|q: int|
                    0 <= q < ts@.len() ==> {
                        let t = #[trigger] ts@[q];
                        &&& t.0 < v0.presses.len()
                        &&& t.1 < v0.presses[t.0 as int].len()
                    },
                self@.slots == v0.slots,
                self@.held == v0.held,
                self@.sounding == v0.sounding,
                self@.root == v0.root,
                self.prs@.len() == v0.presses.len(),
                self.atv@.len() == v0.active.len(),
                released@.len() == v0.presses.len(),
                forall|r: int|
                    0 <= r < v0.presses.len() ==> (#[trigger] self.prs@[r])@.len()
                        == v0.presses[r].len(),
                forall|r: int, s: int|
                    0 <= r < v0.presses.len() && 0 <= s < v0.presses[r].len() ==> #[trigger] self.prs@[r]@[s]
                        == (v0.presses[r][s] && !exists|qq: int|
                        0 <= qq < q && (#[trigger] ts@[qq]).0 == r && ts@[qq].1 == s),
                forall|r: int|
                    0 <= r < v0.presses.len() ==> #[trigger] released@[r] == ((exists|qq: int|
                        0 <= qq < q && (#[trigger] ts@[qq]).0 == r) && !any_pressed(self.prs@[r]@)),
                forall|r: int|
                    0 <= r < v0.active.len() ==> #[trigger] self.atv@[r] == if released@[r] {
                        false
                    } else {
                        v0.active[r]
                    },
        {
            let (r, s) = ts[q];
            let ghost p0 = self.prs@;
            let ghost m0 = released@;
            let ghost a0 = self.atv@;
            self.prs[r].set(s, false);
            proof {
                assert(ts@[q as int] == (r, s));
                assert forall|rr: int, ss: int|
                    0 <= rr < v0.presses.len() && 0 <= ss < v0.presses[rr].len() implies #[trigger] self.prs@[rr]@[ss]
                        == (v0.presses[rr][ss] && !exists|qq: int|
                        0 <= qq < q + 1 && (#[trigger] ts@[qq]).0 == rr && ts@[qq].1 == ss) by {
                    if rr != r {
                        assert(self.prs@[rr] == p0[rr]);
                    } else if ss != s {
                        assert(self.prs@[rr]@[ss] == p0[rr]@[ss]);
                    }
                    if exists|qq: int| 0 <= qq < q + 1 && (#[trigger] ts@[qq]).0 == rr && ts@[qq].1 == ss {
                        let w = choose|qq: int|
                            0 <= qq < q + 1 && (#[trigger] ts@[qq]).0 == rr && ts@[qq].1 == ss;
                        if w < q {
                            assert(!p0[rr]@[ss]);
                        }
                    }
                }
                if any_pressed(self.prs@[r as int]@) {
                    let w = choose|ss: int| 0 <= ss < self.prs@[r as int]@.len() && #[trigger] self.prs@[r as int]@[ss];
                    assert(p0[r as int]@[w]);
                }
            }
            let free = all_free(&self.prs[r]);
            if free {
                self.atv.set(r, false);
                released.set(r, true);
            }
            proof {
                assert forall|rr: int|
                    0 <= rr < v0.presses.len() implies #[trigger] released@[rr] == ((exists|qq: int|
                        0 <= qq < q + 1 && (#[trigger] ts@[qq]).0 == rr) && !any_pressed(self.prs@[rr]@)) by {
                    if rr != r {
                        assert(self.prs@[rr] == p0[rr]);
                        assert(released@[rr] == m0[rr]);
                        if exists|qq: int| 0 <= qq < q + 1 && (#[trigger] ts@[qq]).0 == rr {
                            let w = choose|qq: int| 0 <= qq < q + 1 && (#[trigger] ts@[qq]).0 == rr;
                            assert(w < q);
                        }
                    }
                }
                assert forall|rr: int|
                    0 <= rr < v0.active.len() implies #[trigger] self.atv@[rr] == if released@[rr] {
                        false
                    } else {
                        v0.active[rr]
                    } by {
                    if rr != r {
                        assert(self.atv@[rr] == a0[rr]);
                        assert(released@[rr] == m0[rr]);
                    }
                }
            }
        }
        proof {
            let want = v0.release(hit);
            assert forall|r: int, s: int|
                0 <= r < v0.presses.len() && 0 <= s < v0.presses[r].len() implies #[trigger] self.prs@[r]@[s]
                    == want.presses[r][s] by {
                if hit(r, s) {
                    let w = choose|q: int| 0 <= q < ts@.len() && (#[trigger] ts@[q]).0 == r && ts@[q].1 == s;
                }
            }
            assert(self@.presses =~~= want.presses);
            assert forall|r: int|
                0 <= r < v0.presses.len() implies #[trigger] released@[r] == v0.released_mask(hit)[r] by {
                if exists|qq: int| 0 <= qq < n && (#[trigger] ts@[qq]).0 == r {
                    let w = choose|qq: int| 0 <= qq < n && (#[trigger] ts@[qq]).0 == r;
                    assert(hit(r, ts@[w].1 as int));
                }
                if v0.touched(hit, r) {
                    let s = choose|s: int| 0 <= s < v0.presses[r].len() && #[trigger] hit(r, s);
                    let w = choose|q: int| 0 <= q < ts@.len() && (#[trigger] ts@[q]).0 == r && ts@[q].1 == s;
                }
                assert(self.prs@[r]@ =~= want.presses[r]);
            }
            assert(released@ =~= v0.released_mask(hit));
            assert(self@.active =~= want.active);
        }
        released
    }

    /// Key `i` goes up: every slot of its harmonics is released, and each
    /// resonator left with no pressed slot switches to the free decay; the
    /// returned mask marks those resonators. The chord root is kept.
    pub fn off(&mut self, i: usize) -> (released: Vec<bool>)
        requires
            old(self)@.wf(),
            i < old(self)@.held.len(),
        ensures
            final(self)@ == old(self)@.after_off(i as int),
            released@ == old(self)@.released_mask(old(self)@.key_slots(i as int)),
            final(self)@.wf(),
            old(self)@.consistent() ==> final(self)@.consistent(),
    {
        let ghost v0 = self@;
        let n = self.k2r[i].len();
        let mut ts: Vec<(usize, usize)> = Vec::new();
        for j in 0..n
            invariant
                v0 == self@,
                i < v0.slots.len(),
                n == v0.slots[i as int].len(),
                ts@ == v0.slots[i as int].take(j as int),
        {
            ts.push(self.k2r[i][j]);
            proof {
                assert(v0.slots[i as int].take(j + 1) =~= v0.slots[i as int].take(j as int).push(
                    v0.slots[i as int][j as int],
                ));
            }
        }
        proof {
            assert(ts@ =~= v0.slots[i as int]);
            let hit = v0.key_slots(i as int);
            assert forall|r: int, s: int| #[trigger] hit(r, s) <==> exists|q: int|
                0 <= q < ts@.len() && (#[trigger] ts@[q]).0 == r && ts@[q].1 == s by {
            }
        }
        let released = self.release_slots(&ts, Ghost(v0.key_slots(i as int)));
        self.pr1.set(i, false);
        proof {
            lemma_release_keeps_consistent(v0, v0.key_slots(i as int));
            assert(self@ == v0.after_off(i as int));
        }
        released
    }

    /// Harmonic `h` is set sounding or silent. Silencing it releases its slot
    /// on every key, as `off` does; the returned mask marks the resonators
    /// left with no pressed slot (none when the harmonic is set sounding).
    pub fn harm(&mut self, h: usize, sounding: bool) -> (released: Vec<bool>)
        requires
            old(self)@.wf(),
            h < HARMONICS,
        ensures
            final(self)@ == old(self)@.after_harm(h as int, sounding),
            sounding ==> final(self)@.presses == old(self)@.presses && final(self)@.active == old(self)@.active,
            released@ == if sounding {
                Seq::new(old(self)@.presses.len(), |r: int| false)
            } else {
                old(self)@.released_mask(old(self)@.harmonic_slots(h as int))
            },
            final(self)@.wf(),
            old(self)@.consistent() ==> final(self)@.consistent(),
    {
        let ghost v0 = self@;
        self.snd.set(h, sounding);
        if sounding {
            let total = self.prs.len();
            let mut released: Vec<bool> = Vec::new();
            for r in 0..total
                invariant
                    released@.len() == r,
                    forall|rr: int| 0 <= rr < r ==> !(#[trigger] released@[rr]),
            {
                released.push(false);
            }
            proof {
                assert(released@ =~= Seq::new(v0.presses.len(), |r: int| false));
                assert(self@ == v0.after_harm(h as int, sounding));
            }
            return released;
        }
        let nk = self.k2r.len();
        let mut ts: Vec<(usize, usize)> = Vec::new();
        let ghost mut owners: Seq<int> = Seq::empty();
        for k in 0..nk
            invariant
                nk == v0.slots.len(),
                self@.slots == v0.slots,
                h < HARMONICS,
                ts@.len() == owners.len(),
                forall|q: int|
                    0 <= q < ts@.len() ==> {
                        let o = #[trigger] owners[q];
                        &&& 0 <= o < k
                        &&& h < v0.slots[o].len()
                        &&& ts@[q] == v0.slots[o][h as int]
                    },
                forall|kk: int|
                    0 <= kk < k && h < v0.slots[kk].len() ==> exists|q: int|
                        0 <= q < ts@.len() && #[trigger] owners[q] == kk,
        {
            let ghost o0 = owners;
            if h < self.k2r[k].len() {
                ts.push(self.k2r[k][h]);
                proof {
                    owners = owners.push(k as int);
                    assert(owners[owners.len() - 1] == k);
                }
            }
            proof {
                assert forall|kk: int|
                    0 <= kk < k + 1 && h < v0.slots[kk].len() implies exists|q: int|
                        0 <= q < ts@.len() && #[trigger] owners[q] == kk by {
                    if kk < k {
                        let q = choose|q: int| 0 <= q < o0.len() && #[trigger] o0[q] == kk;
                        assert(owners[q] == kk);
                    } else {
                        assert(owners[owners.len() - 1] == kk);
                    }
                }
            }
        }
        let ghost v1 = self@;
        proof {
            let hit = v0.harmonic_slots(h as int);
            assert forall|r: int, s: int| #[trigger] hit(r, s) <==> exists|q: int|
                0 <= q < ts@.len() && (#[trigger] ts@[q]).0 == r && ts@[q].1 == s by {
                if hit(r, s) {
                    let k = choose|k: int|
                        0 <= k < v0.slots.len() && h < v0.slots[k].len() && (#[trigger] v0.slots[k][h as int]).0
                            == r && v0.slots[k][h as int].1 == s;
                    let q = choose|q: int| 0 <= q < ts@.len() && #[trigger] owners[q] == k;
                    assert(ts@[q] == v0.slots[k][h as int]);
                }
                if exists|q: int| 0 <= q < ts@.len() && (#[trigger] ts@[q]).0 == r && ts@[q].1 == s {
                    let q = choose|q: int| 0 <= q < ts@.len() && (#[trigger] ts@[q]).0 == r && ts@[q].1 == s;
                    let o = owners[q];
                    assert(v0.slots[o][h as int] == ts@[q]);
                }
            }
            assert forall|q: int|
                0 <= q < ts@.len() implies {
                    let t = #[trigger] ts@[q];
                    &&& t.0 < v1.presses.len()
                    &&& t.1 < v1.presses[t.0 as int].len()
                } by {
                let o = owners[q];
                assert(ts@[q] == v0.slots[o][h as int]);
            }
        }
        let released = self.release_slots(&ts, Ghost(v0.harmonic_slots(h as int)));
        proof {
            lemma_release_keeps_consistent(v1, v0.harmonic_slots(h as int));
            assert(self@ == v0.after_harm(h as int, sounding));
        }
        released
    }

    /// Key `i` goes down: each of its first `HARMONICS` harmonics that sounds
    /// presses its slot and makes its resonator ring with the held decay; the
    /// chord root is recomputed from the held keys.
    pub fn on(&mut self, i: usize)
        requires
            old(self)@.wf(),
            i < old(self)@.held.len(),
        ensures
            final(self)@ == old(self)@.after_on(i as int),
            final(self)@.root < 12 && is_chord_root(final(self)@.held, final(self)@.root as int)
                || final(self)@.root == NO_ROOT && forall|k: int| !#[trigger] is_chord_root(final(self)@.held, k),
            final(self)@.wf(),
            old(self)@.consistent() ==> final(self)@.consistent(),
    {
        let ghost v0 = self@;
        proof {
            lemma_on_root(v0, i as int);
        }
        let len = self.k2r[i].len();
        let lim = if len < HARMONICS {
            len
        } else {
            HARMONICS
        };
        for j in 0..lim
            invariant
                v0.wf(),
                i < v0.held.len(),
                lim == if v0.slots[i as int].len() < HARMONICS {
                    v0.slots[i as int].len()
                } else {
                    HARMONICS as nat
                },
                self@.slots == v0.slots,
                self@.held == v0.held,
                self@.sounding == v0.sounding,
                self@.root == v0.root,
                self.prs@.len() == v0.presses.len(),
                self.atv@.len() == v0.active.len(),
                forall|r: int|
                    0 <= r < v0.presses.len() ==> (#[trigger] self.prs@[r])@.len()
                        == v0.presses[r].len(),
                forall|r: int, s: int|
                    0 <= r < v0.presses.len() && 0 <= s < v0.presses[r].len() ==> #[trigger] self.prs@[r]@[s]
                        == (v0.presses[r][s] || exists|jj: int|
                        0 <= jj < j && v0.sounding[jj] && (#[trigger] v0.slots[i as int][jj]).0 == r && v0.slots[i as int][jj].1 == s),
                forall|r: int|
                    0 <= r < v0.active.len() ==> #[trigger] self.atv@[r] == (v0.active[r] || exists|
                        jj: int,
                    |
                        0 <= jj < j && v0.sounding[jj] && (#[trigger] v0.slots[i as int][jj]).0 == r),
        {
            if self.snd[j] {
                let (r, s) = self.k2r[i][j];
                let ghost p0 = self.prs@;
                let ghost a0 = self.atv@;
                self.prs[r].set(s, true);
                self.atv.set(r, true);
                proof {
                    assert(v0.slots[i as int][j as int] == (r, s));
                    assert forall|rr: int, ss: int|
                        0 <= rr < v0.presses.len() && 0 <= ss < v0.presses[rr].len() implies #[trigger] self.prs@[rr]@[ss]
                            == (v0.presses[rr][ss] || exists|jj: int|
                            0 <= jj < j + 1 && v0.sounding[jj] && (#[trigger] v0.slots[i as int][jj]).0 == rr && v0.slots[i as int][jj].1 == ss) by {
                        if rr == r && ss == s {
                            assert(self.prs@[rr]@[ss]);
                        } else {
                            if rr != r {
                                assert(self.prs@[rr] == p0[rr]);
                            } else {
                                assert(self.prs@[rr]@[ss] == p0[rr]@[ss]);
                            }
                            if exists|jj: int|
                                0 <= jj < j + 1 && v0.sounding[jj] && (#[trigger] v0.slots[i as int][jj]).0 == rr && v0.slots[i as int][jj].1 == ss {
                                let w = choose|jj: int|
                                    0 <= jj < j + 1 && v0.sounding[jj] && (#[trigger] v0.slots[i as int][jj]).0
                                        == rr && v0.slots[i as int][jj].1 == ss;
                                assert(w != j);
                            }
                        }
                    }
                    assert forall|rr: int|
                        0 <= rr < v0.active.len() implies #[trigger] self.atv@[rr] == (v0.active[rr]
                            || exists|jj: int|
                            0 <= jj < j + 1 && v0.sounding[jj] && (#[trigger] v0.slots[i as int][jj]).0
                                == rr) by {
                        if rr != r {
                            assert(self.atv@[rr] == a0[rr]);
                            if exists|jj: int|
                                0 <= jj < j + 1 && v0.sounding[jj] && (#[trigger] v0.slots[i as int][jj]).0
                                    == rr {
                                let w = choose|jj: int|
                                    0 <= jj < j + 1 && v0.sounding[jj] && (#[trigger] v0.slots[i as int][jj]).0
                                        == rr;
                                assert(w != j);
                            }
                        }
                    }
                }
            }
        }
        self.pr1.set(i, true);
        proof {
            lemma_scores_fit(self.pr1@);
        }
        match chord_root(self.pr1.as_slice()) {
            Some(k) => {
                self.crt = k;
                proof {
                    assert(is_chord_root(self.pr1@, k as int));
                    let c = choose|kk: int| is_chord_root(self.pr1@, kk);
                    lemma_root_unique(self.pr1@, c, k as int);
                }
            },
            None => {
                self.crt = NO_ROOT;
            },
        }
        proof {
            let want = v0.after_on(i as int);
            assert(self@.presses =~~= want.presses);
            assert(self@.active =~= want.active);
            lemma_on_keeps_consistent(v0, i as int);
        }
    }
}

/// Pressing a key keeps every resonator's decay in agreement with its presses.
pub proof fn lemma_on_keeps_consistent(v: VoicingView, i: int)
    requires
        v.wf(),
        0 <= i < v.held.len(),
    ensures
        v.after_on(i).wf(),
        v.consistent() ==> v.after_on(i).consistent(),
{
    let want = v.after_on(i);
    if exists|k: int| is_chord_root(v.held.update(i, true), k) {
        let k = choose|k: int| is_chord_root(v.held.update(i, true), k);
        assert(0 <= k < 12);
    }
    if v.consistent() {
        assert forall|r: int| 0 <= r < want.presses.len() implies #[trigger] want.active[r]
            == any_pressed(want.presses[r]) by {
            assert(v.active[r] == any_pressed(v.presses[r]));
            if v.strikes_resonator(i, r) {
                let w = choose|jj: int|
                    0 <= jj < v.slots[i].len() && jj < HARMONICS && v.sounding[jj]
                        && (#[trigger] v.slots[i][jj]).0 == r;
                let s = v.slots[i][w].1 as int;
                assert(v.strikes(i, r, s));
                assert(want.presses[r][s]);
            } else {
                assert(want.presses[r] =~= v.presses[r]);
            }
        }
    }
}

/// A key pressed and released again, while none of its slots was pressed
/// before, leaves the presses as they were, and (when every resonator's decay
/// agreed with its presses) the decays as well; the key is then up.
pub proof fn lemma_off_undoes_on(v: VoicingView, i: int)
    requires
        v.wf(),
        0 <= i < v.held.len(),
        forall|j: int|
            0 <= j < v.slots[i].len() ==> {
                let t = #[trigger] v.slots[i][j];
                !v.presses[t.0 as int][t.1 as int]
            },
    ensures
        v.after_on(i).after_off(i).presses == v.presses,
        v.after_on(i).after_off(i).held == v.held.update(i, false),
        v.consistent() ==> v.after_on(i).after_off(i).active == v.active,
{
    let w1 = v.after_on(i);
    let w2 = w1.after_off(i);
    lemma_on_keeps_consistent(v, i);
    lemma_release_keeps_consistent(w1, w1.key_slots(i));
    assert forall|r: int, s: int|
        0 <= r < v.presses.len() && 0 <= s < v.presses[r].len() implies #[trigger] w2.presses[r][s]
        == v.presses[r][s] by {
        if w1.key_slots(i)(r, s) {
            let j = choose|j: int|
                0 <= j < w1.slots[i].len() && (#[trigger] w1.slots[i][j]).0 == r && w1.slots[i][j].1 == s;
            assert(!v.presses[r][s]);
        } else if v.strikes(i, r, s) {
            let j = choose|j: int|
                0 <= j < v.slots[i].len() && j < HARMONICS && v.sounding[j] && (#[trigger] v.slots[i][j]).0
                    == r && v.slots[i][j].1 == s;
            assert(w1.key_slots(i)(r, s));
        }
    }
    assert forall|r: int| 0 <= r < v.presses.len() implies #[trigger] w2.presses[r] =~= v.presses[r] by {
    }
    assert(w2.presses =~= v.presses);
    assert(w2.held =~= v.held.update(i, false));
    if v.consistent() {
        assert forall|r: int| 0 <= r < v.active.len() implies #[trigger] w2.active[r] == v.active[r] by {
            assert(w2.active[r] == any_pressed(w2.presses[r]));
            assert(v.active[r] == any_pressed(v.presses[r]));
        }
        assert(w2.active =~= v.active);
    }
}

/// Once harmonic `h` is silenced, none of its slots is pressed, and pressing
/// any key does not press them again.
pub proof fn lemma_silenced_harmonic_stays_released(v: VoicingView, h: int, i: int)
    requires
        v.wf(),
        v.slots_distinct(),
        0 <= h < HARMONICS,
        0 <= i < v.held.len(),
    ensures
        forall|k: int|
            0 <= k < v.slots.len() && h < v.slots[k].len() ==> {
                let t = #[trigger] v.slots[k][h];
                &&& !v.after_harm(h, false).presses[t.0 as int][t.1 as int]
                &&& !v.after_harm(h, false).after_on(i).presses[t.0 as int][t.1 as int]
            },
{
    let w = v.after_harm(h, false);
    assert forall|k: int| 0 <= k < v.slots.len() && h < v.slots[k].len() implies {
        let t = #[trigger] v.slots[k][h];
        &&& !w.presses[t.0 as int][t.1 as int]
        &&& !w.after_on(i).presses[t.0 as int][t.1 as int]
    } by {
        let t = v.slots[k][h];
        let r = t.0 as int;
        let s = t.1 as int;
        assert(v.harmonic_slots(h)(r, s));
        if w.strikes(i, r, s) {
            let j = choose|j: int|
                0 <= j < w.slots[i].len() && j < HARMONICS && w.sounding[j] && (#[trigger] w.slots[i][j]).0
                    == r && w.slots[i][j].1 == s;
            assert(v.slots[i][j] == v.slots[k][h]);
        }
    }
}

/// After key `i` goes down, the root is the chord root of the held keys
/// themselves (every held key counts, octave doublings included), or
/// `NO_ROOT` when they have none.
pub proof fn lemma_on_root(v: VoicingView, i: int)
    requires
        0 <= i < v.held.len(),
    ensures
        ({
            let held = v.held.update(i, true);
            let root = v.after_on(i).root;
            ||| root < 12 && is_chord_root(held, root as int)
            ||| root == NO_ROOT && forall|k: int| !#[trigger] is_chord_root(held, k)
        }),
{
    let held = v.held.update(i, true);
    if exists|k: int| is_chord_root(held, k) {
        let k = choose|k: int| is_chord_root(held, k);
        assert(is_chord_root(held, k));
    }
}

/// Key `i` going down presses exactly the slots of its sounding harmonics
/// (among its first `HARMONICS`) and rings exactly their resonators with the
/// held decay; every other slot and resonator keeps its state, and the key
/// is then held.
pub proof fn lemma_on_touches_only_its_slots(v: VoicingView, i: int)
    requires
        v.wf(),
        0 <= i < v.held.len(),
    ensures
        v.after_on(i).slots == v.slots,
        v.after_on(i).sounding == v.sounding,
        v.after_on(i).held == v.held.update(i, true),
        v.after_on(i).presses.len() == v.presses.len(),
        forall|r: int, s: int|
            0 <= r < v.presses.len() && 0 <= s < v.presses[r].len() ==> #[trigger] v.after_on(i).presses[r][s]
                == (v.presses[r][s] || exists|j: int|
                0 <= j < v.slots[i].len() && j < HARMONICS && v.sounding[j] && (#[trigger] v.slots[i][j]).0
                    == r && v.slots[i][j].1 == s),
        forall|r: int|
            0 <= r < v.active.len() ==> #[trigger] v.after_on(i).active[r] == (v.active[r] || exists|j: int|
                0 <= j < v.slots[i].len() && j < HARMONICS && v.sounding[j] && (#[trigger] v.slots[i][j]).0
                    == r),
{
}

/// Key `i` going up releases exactly its own slots (every harmonic); other
/// slots keep their state, the key is then up and the root is kept.
pub proof fn lemma_off_releases_only_its_slots(v: VoicingView, i: int)
    requires
        v.wf(),
        0 <= i < v.held.len(),
    ensures
        v.after_off(i).slots == v.slots,
        v.after_off(i).sounding == v.sounding,
        v.after_off(i).root == v.root,
        v.after_off(i).held == v.held.update(i, false),
        v.after_off(i).presses.len() == v.presses.len(),
        forall|r: int, s: int|
            0 <= r < v.presses.len() && 0 <= s < v.presses[r].len() ==> #[trigger] v.after_off(i).presses[r][s]
                == (v.presses[r][s] && !exists|j: int|
                0 <= j < v.slots[i].len() && (#[trigger] v.slots[i][j]).0 == r && v.slots[i][j].1 == s),
        forall|r: int|
            0 <= r < v.active.len() ==> #[trigger] v.after_off(i).active[r] == if (exists|j: int|
                0 <= j < v.slots[i].len() && (#[trigger] v.slots[i][j]).0 == r) && !any_pressed(
                v.after_off(i).presses[r],
            ) {
                false
            } else {
                v.active[r]
            },
{
    let w = v.after_off(i);
    let hit = v.key_slots(i);
    assert forall|r: int| 0 <= r < v.active.len() implies #[trigger] w.active[r] == if (exists|j: int|
        0 <= j < v.slots[i].len() && (#[trigger] v.slots[i][j]).0 == r) && !any_pressed(w.presses[r]) {
        false
    } else {
        v.active[r]
    } by {
        if exists|j: int| 0 <= j < v.slots[i].len() && (#[trigger] v.slots[i][j]).0 == r {
            let j = choose|j: int| 0 <= j < v.slots[i].len() && (#[trigger] v.slots[i][j]).0 == r;
            let s = v.slots[i][j].1 as int;
            assert(hit(r, s));
        }
        if v.touched(hit, r) {
            let s = choose|s: int| 0 <= s < v.presses[r].len() && #[trigger] hit(r, s);
            let j = choose|j: int|
                0 <= j < v.slots[i].len() && (#[trigger] v.slots[i][j]).0 == r && v.slots[i][j].1 == s;
        }
    }
}

/// Setting a harmonic sounding changes nothing but that harmonic's flag: no
/// slot is pressed or released and no resonator's decay changes.
pub proof fn lemma_sounding_harmonic_changes_only_its_flag(v: VoicingView, h: int)
    ensures
        v.after_harm(h, true) == (VoicingView { sounding: v.sounding.update(h, true), ..v }),
{
}

/// Silencing harmonic `h` releases exactly the slot of harmonic `h` of every
/// key; other slots keep their state and the harmonic is then silent.
pub proof fn lemma_silencing_releases_only_its_slots(v: VoicingView, h: int)
    requires
        v.wf(),
        0 <= h < HARMONICS,
    ensures
        v.after_harm(h, false).slots == v.slots,
        v.after_harm(h, false).held == v.held,
        v.after_harm(h, false).root == v.root,
        v.after_harm(h, false).sounding == v.sounding.update(h, false),
        v.after_harm(h, false).presses.len() == v.presses.len(),
        forall|r: int, s: int|
            0 <= r < v.presses.len() && 0 <= s < v.presses[r].len() ==> #[trigger] v.after_harm(h, false).presses[r][s]
                == (v.presses[r][s] && !exists|k: int|
                0 <= k < v.slots.len() && h < v.slots[k].len() && (#[trigger] v.slots[k][h]).0 == r
                    && v.slots[k][h].1 == s),
{
}

/// Releasing slots keeps every resonator's decay in agreement with its
/// presses: a resonator rings with the held decay exactly when one of its
/// slots is pressed.
pub proof fn lemma_release_keeps_consistent(v: VoicingView, hit: spec_fn(int, int) -> bool)
    requires
        v.wf(),
    ensures
        v.release(hit).wf(),
        v.consistent() ==> v.release(hit).consistent(),
{
    let w = v.release(hit);
    if v.consistent() {
    assert forall|r: int| 0 <= r < w.presses.len() implies #[trigger] w.active[r] == any_pressed(
        w.presses[r],
    ) by {
        assert(v.active[r] == any_pressed(v.presses[r]));
        if any_pressed(w.presses[r]) {
            let s = choose|s: int| 0 <= s < w.presses[r].len() && #[trigger] w.presses[r][s];
            assert(v.presses[r][s]);
        }
        if !v.released_mask(hit)[r] && !any_pressed(w.presses[r]) {
            assert(!v.touched(hit, r));
            assert(w.presses[r] =~= v.presses[r]);
        }
    }
    }
}

/// Whether no slot of the row is pressed.
fn all_free(row: &Vec<bool>) -> (b: bool)
    ensures
        b == !any_pressed(row@),
{
    let n = row.len();
    for s in 0..n
        invariant
            n == row@.len(),
            forall|ss: int| 0 <= ss < s ==> !(#[trigger] row@[ss]),
    {
        if row[s] {
            return false;
        }
    }
    true
}

} // verus!
