use reson::excitation::{Countdown, Excitation};
use reson::layout::{k2r, slot_counts};
use reson::voicing::{Voicing, HARMONICS, NO_ROOT};

#[test]
fn test_k2r() {
    let rv = k2r(13, &[0]);
    let want: Vec<Vec<(usize, usize)>> = (0..13).map(|i| vec![(i, 0)]).collect();
    assert_eq!(rv, want);

    let rv = k2r(13, &[0, 12]);
    let mut want: Vec<Vec<(usize, usize)>> = (0..13).map(|i| vec![(i, 0), (12 + i, 0)]).collect();
    want[0][1] = (12, 1);
    assert_eq!(rv, want);
}

#[test]
fn k2r_slots_are_distinct_and_fit_their_resonators() {
    let cfg = [0, 12, 19, 24, 28, 31, 36, 38];
    let nk = 40;
    let rv = k2r(nk, &cfg);
    let counts = slot_counts(nk, &cfg);
    assert_eq!(counts.len(), nk + 38);
    let mut seen = std::collections::HashSet::new();
    for row in &rv {
        assert_eq!(row.len(), cfg.len());
        for &(r, s) in row {
            assert!(s < counts[r]);
            assert!(seen.insert((r, s)));
        }
    }
    assert_eq!(seen.len(), counts.iter().sum::<usize>());
}

#[test]
fn slot_counts_small() {
    assert_eq!(slot_counts(3, &[0, 1]), vec![1, 2, 2, 1]);
}

fn test_voicing() -> Voicing {
    Voicing::from_parts(
        vec![vec![(0, 0), (1, 1)], vec![(1, 0)]],
        vec![vec![false], vec![false, false]],
        vec![false; 2],
        vec![false, false],
        vec![true; 8],
        0,
    )
    .unwrap()
}

fn presses(v: &Voicing) -> Vec<Vec<bool>> {
    (0..v.resonator_count())
        .map(|r| (0..v.slot_count(r)).map(|s| v.is_pressed(r, s)).collect())
        .collect()
}

fn active(v: &Voicing) -> Vec<bool> {
    (0..v.resonator_count()).map(|r| v.is_active(r)).collect()
}

fn held(v: &Voicing) -> Vec<bool> {
    (0..v.key_count()).map(|i| v.is_held(i)).collect()
}

#[test]
fn test_rsn() {
    let mut rsn = test_voicing();

    rsn.on(0);
    assert_eq!(presses(&rsn), vec![vec![true], vec![false, true]]);
    assert_eq!(held(&rsn), vec![true, false]);
    assert_eq!(active(&rsn), vec![true, true]);
    assert_eq!(rsn.root(), 0);

    rsn.on(1);
    assert_eq!(presses(&rsn), vec![vec![true], vec![true, true]]);
    assert_eq!(held(&rsn), vec![true, true]);
    assert_eq!(active(&rsn), vec![true, true]);
    assert_eq!(rsn.root(), NO_ROOT);

    let released = rsn.off(0);
    assert_eq!(released, vec![true, false]);
    assert_eq!(presses(&rsn), vec![vec![false], vec![true, false]]);
    assert_eq!(held(&rsn), vec![false, true]);
    assert_eq!(active(&rsn), vec![false, true]);
    assert_eq!(rsn.root(), NO_ROOT);

    let released = rsn.off(1);
    assert_eq!(released, vec![false, true]);
    assert_eq!(presses(&rsn), vec![vec![false], vec![false, false]]);
    assert_eq!(held(&rsn), vec![false, false]);
    assert_eq!(active(&rsn), vec![false, false]);
}

#[test]
fn test_rsn_harm() {
    let mut rsn = test_voicing();

    rsn.on(0);
    assert_eq!(presses(&rsn), vec![vec![true], vec![false, true]]);

    let released = rsn.harm(1, false);
    assert_eq!(released, vec![false, true]);
    assert_eq!(presses(&rsn), vec![vec![true], vec![false, false]]);
    assert_eq!(held(&rsn), vec![true, false]);
    assert_eq!(active(&rsn), vec![true, false]);
    let sounding: Vec<bool> = (0..HARMONICS).map(|h| rsn.is_sounding(h)).collect();
    assert_eq!(sounding, vec![true, false, true, true, true, true, true, true]);

    rsn.on(0);
    assert_eq!(presses(&rsn), vec![vec![true], vec![false, false]]);
    assert_eq!(held(&rsn), vec![true, false]);
    assert_eq!(active(&rsn), vec![true, false]);

    let released = rsn.harm(1, true);
    assert_eq!(released, vec![false, false]);
    assert!(rsn.is_sounding(1));
}

#[test]
fn off_undoes_on() {
    let mut rsn = Voicing::new(40, &[0, 12, 19, 24, 28, 31, 36, 38]);
    rsn.on(3);
    rsn.on(7);
    let before_p = presses(&rsn);
    let before_a = active(&rsn);
    rsn.on(10);
    assert!(presses(&rsn) != before_p);
    rsn.off(10);
    assert_eq!(presses(&rsn), before_p);
    assert_eq!(active(&rsn), before_a);
    assert_eq!(held(&rsn)[10], false);
}

#[test]
fn new_voicing_is_idle() {
    let cfg = [0, 12, 19, 24, 28, 31, 36, 38];
    let v = Voicing::new(40, &cfg);
    assert_eq!(v.key_count(), 40);
    assert_eq!(v.resonator_count(), 78);
    assert_eq!(v.root(), NO_ROOT);
    assert!(active(&v).iter().all(|&a| !a));
    assert!(presses(&v).iter().all(|row| row.iter().all(|&p| !p)));
    assert_eq!(v.slot_count(40), 7);
    assert_eq!(v.slot_count(0), 1);
    assert!((0..HARMONICS).all(|h| v.is_sounding(h)));
}

#[test]
fn voicing_root_follows_chord() {
    let mut v = Voicing::new(40, &[0, 12]);
    v.on(0);
    v.on(4);
    v.on(7);
    assert_eq!(v.root(), 0);
}

#[test]
fn from_parts_rejects_bad_slot() {
    assert!(Voicing::from_parts(vec![vec![(0, 1)]], vec![vec![false]], vec![false], vec![false], vec![true; 8], 0)
        .is_none());
    assert!(Voicing::from_parts(vec![vec![(0, 0)]], vec![vec![false]], vec![false], vec![false], vec![true; 7], 0)
        .is_none());
    assert!(Voicing::from_parts(vec![vec![(0, 0)]], vec![vec![false]], vec![false], vec![false], vec![true; 8], 13)
        .is_none());
}

#[test]
fn test_exc1() {
    let mut c = Countdown::with_remaining(2, 2).unwrap();
    assert_eq!(c.next(), Some(1));
    assert_eq!((c.remaining(), c.len()), (1, 2));
    assert_eq!(c.next(), Some(0));
    assert_eq!((c.remaining(), c.len()), (0, 2));
    assert_eq!(c.next(), None);
    assert_eq!((c.remaining(), c.len()), (0, 2));
}

#[test]
fn countdown_restart_and_bounds() {
    let mut c = Countdown::new(3);
    assert_eq!(c.next(), None);
    c.restart();
    assert_eq!(c.remaining(), 3);
    assert!(Countdown::with_remaining(4, 3).is_none());
}

fn test_excitation() -> Excitation {
    Excitation::from_parts(
        vec![vec![(0, 0), (1, 1)], vec![(1, 0)]],
        vec![vec![Countdown::new(1)], vec![Countdown::new(1), Countdown::new(1)]],
    )
    .unwrap()
}

#[test]
fn test_exc() {
    let mut exc = test_excitation();
    exc.on(0);
    assert_eq!(exc.counter(0, 0), (1, 1));
    assert_eq!(exc.counter(1, 0), (0, 1));
    assert_eq!(exc.counter(1, 1), (1, 1));

    // Row 0 plays table [1.0], row 1 plays tables [1.0] and [0.5].
    let tables = vec![vec![vec![1.0f32]], vec![vec![1.0f32], vec![0.5f32]]];
    let mut out = vec![0.0f32, 1.0];
    for r in 0..2 {
        let mut c = 0.0f32;
        for (s, k) in exc.tick_row(r).into_iter().enumerate() {
            c += match k {
                Some(k) => tables[r][s][k],
                None => 0.0,
            };
        }
        out[r] += c;
    }
    assert_eq!(out, vec![1.0, 1.5]);
    assert_eq!(exc.counter(0, 0), (0, 1));
    assert_eq!(exc.counter(1, 0), (0, 1));
    assert_eq!(exc.counter(1, 1), (0, 1));
}

#[test]
fn test_exc_harm() {
    let exc = test_excitation();
    assert_eq!(exc.harmonic_slots(0), vec![(0, 0), (1, 0)]);
}

#[test]
fn excitation_new_layout() {
    let mut exc = Excitation::new(3, &[0, 1], &[4, 5, 6, 7]);
    assert_eq!(exc.resonator_count(), 4);
    assert_eq!(exc.slot_count(1), 2);
    assert_eq!(exc.counter(2, 1), (0, 6));
    exc.on(1);
    assert_eq!(exc.counter(1, 0), (5, 5));
    assert_eq!(exc.counter(2, 1), (6, 6));
    assert_eq!(exc.tick_row(2), vec![None, Some(5)]);
}

#[test]
fn excitation_from_parts_rejects_bad_slot() {
    assert!(Excitation::from_parts(vec![vec![(1, 0)]], vec![vec![Countdown::new(1)]]).is_none());
}

#[test]
fn silenced_harmonic_stays_released() {
    let cfg = [0, 12, 19, 24, 28, 31, 36, 38];
    let mut v = Voicing::new(40, &cfg);
    v.on(5);
    let released = v.harm(3, false);
    assert!(released.iter().any(|&r| r));
    v.on(9);
    v.on(5);
    let slots = reson::layout::k2r(40, &cfg);
    for row in &slots {
        let (r, s) = row[3];
        assert!(!v.is_pressed(r, s));
    }
    let (r, s) = slots[9][2];
    assert!(v.is_pressed(r, s));
}

#[test]
fn burst_lasts_its_table() {
    let mut exc = Excitation::new(3, &[0, 1], &[4, 5, 6, 7]);
    exc.on(1);
    // Key 1, harmonic 1 owns slot (2, 1), whose table has 6 samples.
    let mut played = Vec::new();
    for _ in 0..9 {
        played.push(exc.tick_row(2)[1]);
    }
    assert_eq!(played, vec![Some(5), Some(4), Some(3), Some(2), Some(1), Some(0), None, None, None]);
    assert_eq!(exc.counter(2, 1), (0, 6));
}
