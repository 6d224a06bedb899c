use station_stats::report::mean_in_tenths;
use station_stats::stats::TempStats;

fn stats(values: &[i16]) -> TempStats {
    let mut s = TempStats::new(values[0]);
    for v in &values[1..] {
        s.update(*v);
    }
    s
}

#[test]
fn new_holds_one_observation() {
    let s = TempStats::new(-32);
    assert_eq!(s, TempStats { min: -32, max: -32, sum: -32, count: 1 });
}

#[test]
fn update_tracks_min_max_sum_and_count() {
    let s = stats(&[50, -10, 90]);
    assert_eq!(s, TempStats { min: -10, max: 90, sum: 130, count: 3 });
}

#[test]
fn merge_joins_two_accumulators() {
    let mut a = stats(&[50, 90]);
    let b = stats(&[-32, 10]);
    a.merge(&b);
    assert_eq!(a, TempStats { min: -32, max: 90, sum: 118, count: 4 });
}

#[test]
fn merge_is_commutative_on_examples() {
    let a = stats(&[5, 7, -100]);
    let b = stats(&[300, 2]);
    let mut ab = a;
    ab.merge(&b);
    let mut ba = b;
    ba.merge(&a);
    assert_eq!(ab, ba);
}

#[test]
fn merge_is_associative_on_examples() {
    let a = stats(&[5, 7]);
    let b = stats(&[-999]);
    let c = stats(&[999, 0, 1]);
    let mut left = a;
    left.merge(&b);
    left.merge(&c);
    let mut bc = b;
    bc.merge(&c);
    let mut right = a;
    right.merge(&bc);
    assert_eq!(left, right);
    assert_eq!(left, TempStats { min: -999, max: 999, sum: 13, count: 6 });
}

#[test]
fn extreme_values_are_kept_exactly() {
    let s = stats(&[i16::MIN, i16::MAX, i16::MIN]);
    assert_eq!(s, TempStats { min: -32768, max: 32767, sum: -32769, count: 3 });
    assert_eq!(mean_in_tenths(&s), -10923);
}

#[test]
fn mean_is_rounded_to_tenths() {
    assert_eq!(mean_in_tenths(&stats(&[50, 90])), 70);
    assert_eq!(mean_in_tenths(&stats(&[50, -10])), 20);
    assert_eq!(mean_in_tenths(&stats(&[1, 2])), 2);
    assert_eq!(mean_in_tenths(&stats(&[-1, -2])), -2);
    assert_eq!(mean_in_tenths(&stats(&[1, 1, 2])), 1);
    assert_eq!(mean_in_tenths(&stats(&[-1, 0, 0])), 0);
}
