use reson::chord::{chord_root, chord_root2};
use reson::gcd::gcd2;
use reson::tuning::tune_plan;

#[test]
fn test_gcd2() {
    assert_eq!(gcd2(6, 3), 3);
    assert_eq!(gcd2(3, 6), 3);
    assert_eq!(gcd2(12, 4), 4);
    assert_eq!(gcd2(4, 12), 4);
    assert_eq!(gcd2(7, 4), 1);
    assert_eq!(gcd2(4, 7), 1);
    assert_eq!(gcd2(8, 8), 8);
    assert_eq!(gcd2(1, 8), 1);
    assert_eq!(gcd2(8, 1), 1);
}

#[test]
fn gcd2_with_zero_second() {
    assert_eq!(gcd2(9, 0), 9);
}

#[test]
fn gcd2_commutes_and_divides() {
    for a in 1u64..40 {
        for b in 1u64..40 {
            let g = gcd2(a, b);
            assert_eq!(g, gcd2(b, a));
            assert_eq!(a % g, 0);
            assert_eq!(b % g, 0);
            for d in 1..=a.min(b) {
                if a % d == 0 && b % d == 0 {
                    assert_eq!(g % d, 0);
                }
            }
        }
    }
}

#[test]
fn gcd2_large() {
    assert_eq!(gcd2(1071, 462), 21);
    assert_eq!(gcd2(u64::MAX, u64::MAX - 1), 1);
}

#[test]
fn test_chord_root() {
    assert_eq!(
        Some(0),
        chord_root(&[true, false, false, false, true, false, false, true, false, false, false, false])
    );
    assert_eq!(
        Some(5),
        chord_root(&[true, false, false, false, false, true, false, false, false, true, false, false])
    );
    assert_eq!(
        Some(4),
        chord_root(&[false, false, false, false, true, false, false, true, false, false, false, true])
    );
    assert_eq!(
        Some(7),
        chord_root(&[false, false, true, false, true, false, false, true, false, false, false, true])
    );
}

#[test]
fn chord_root_of_nothing_is_none() {
    assert_eq!(chord_root(&[]), None);
    assert_eq!(chord_root(&[false; 30]), None);
}

#[test]
fn chord_root_of_a_tie_is_none() {
    // Pitch classes 0 and 1 each get 5 votes.
    assert_eq!(chord_root(&[true, true]), None);
}

#[test]
fn chord_root_counts_pitch_classes_across_octaves() {
    let mut keys = [false; 40];
    keys[12 + 7] = true; // G
    keys[24 + 11] = true; // B
    keys[2] = true; // D
    assert_eq!(chord_root(&keys), Some(7));
}

#[test]
fn test_chord_root2() {
    let rows = chord_root2(
        &[true, false, false, false, true, false, false, true, false, false, false, false],
        &[160, 170, 180, 192, 200, 216, 225, 240, 250, 270, 288, 300],
    );
    assert_eq!(rows.len(), 12);
    assert_eq!(rows[0], vec![160, 200, 240]);
    assert_eq!(rows[1], vec![192, 225, 300]);
    assert_eq!(rows[5], vec![180, 240, 300]);
}

#[test]
fn chord_root2_without_keys_gives_empty_rows() {
    let rows = chord_root2(&[], &[1, 2, 3]);
    assert_eq!(rows, vec![Vec::<u32>::new(), vec![], vec![]]);
}

#[test]
fn chord_root2_wraps_short_patterns() {
    let rows = chord_root2(&[true, false], &[1, 2, 3, 4]);
    assert_eq!(rows, vec![vec![1, 3], vec![2, 4], vec![1, 3], vec![2, 4]]);
}

fn angles(count: usize, n: isize, f: f32, t: &[f32]) -> Vec<f32> {
    let (base, steps) = tune_plan(count, n, t.len());
    let f0 = f * (2 as f32).powf(base as f32);
    steps.iter().map(|&(oct, j)| f0 * (2 as f32).powi(oct as i32) * t[j]).collect()
}

#[test]
fn test_tune() {
    let t = [1.0, 1.5];
    assert_eq!(tune_plan(4, 0, 2), (0, vec![(0, 0), (0, 1), (1, 0), (1, 1)]));
    assert_eq!(angles(4, 0, 2.0, &t), vec![2.0, 3.0, 4.0, 6.0]);
    assert_eq!(tune_plan(4, 1, 2), (-1, vec![(0, 1), (1, 0), (1, 1), (2, 0)]));
    assert_eq!(angles(4, 1, 2.0, &t), vec![1.5, 2.0, 3.0, 4.0]);
    assert_eq!(tune_plan(4, 2, 2), (-1, vec![(0, 0), (0, 1), (1, 0), (1, 1)]));
    assert_eq!(angles(4, 2, 2.0, &t), vec![1.0, 1.5, 2.0, 3.0]);
    assert_eq!(tune_plan(4, 3, 2), (-2, vec![(0, 1), (1, 0), (1, 1), (2, 0)]));
    assert_eq!(angles(4, 3, 2.0, &t), vec![0.75, 1.0, 1.5, 2.0]);
}

#[test]
fn tune_plan_with_negative_offset() {
    // 33 steps above the start of a 12-entry table: 2 octaves and 9 steps up.
    let (base, steps) = tune_plan(5, -33, 12);
    assert_eq!(base, 2);
    assert_eq!(steps, vec![(0, 9), (0, 10), (0, 11), (1, 0), (1, 1)]);
}

#[test]
fn tune_plan_empty_bank() {
    assert_eq!(tune_plan(0, 5, 3), (-2, vec![]));
}

#[test]
fn transposing_a_chord_transposes_its_root() {
    let chords: Vec<Vec<bool>> = vec![
        vec![true, false, false, false, true, false, false, true],
        vec![false, false, true, false, true, false, false, true, false, false, false, true],
        vec![true, true],
        vec![],
    ];
    for keys in &chords {
        let root = chord_root(keys);
        for k in 0..30 {
            let mut q = vec![false; k];
            q.extend_from_slice(keys);
            assert_eq!(chord_root(&q), root.map(|r| (r + k) % 12));
        }
    }
}
