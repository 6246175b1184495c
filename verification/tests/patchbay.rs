use screech::{Patchbay, Sample, Signal};

fn s(x: f32) -> Sample {
    Sample::new(x.to_bits())
}

fn f(x: Sample) -> f32 {
    f32::from_bits(x.bits)
}

#[test]
fn new_patchbay_reads_silence_everywhere() {
    let mut patchbay: Patchbay<128> = Patchbay::new();
    let point = patchbay.point().unwrap();
    assert_eq!(f(patchbay.get(point.signal())), 0.0);
    assert_eq!(patchbay.get(point.signal()).bits, 0);
}

#[test]
fn set_then_get_returns_the_sample() {
    let mut patchbay: Patchbay<128> = Patchbay::new();
    let mut point = patchbay.point().unwrap();
    patchbay.set(&mut point, s(1.0));
    assert_eq!(f(patchbay.get(point.signal())), 1.0);
}

#[test]
fn signal_variants_read_point_fixed_and_silence() {
    let mut patchbay: Patchbay<128> = Patchbay::new();
    let mut point = patchbay.point().unwrap();
    patchbay.set(&mut point, s(0.4));

    let source = point.signal();
    let fixed = Signal::Fixed(s(0.6));
    let silence = Signal::Silence;

    assert_eq!(f(patchbay.get(source)), 0.4);
    assert_eq!(f(patchbay.get(fixed)), 0.6);
    assert_eq!(f(patchbay.get(silence)), 0.0);
}

#[test]
fn check_tracks_freshness_and_clear_marks_resets_it() {
    let mut patchbay: Patchbay<4> = Patchbay::new();
    let mut point = patchbay.point().unwrap();
    let sig = point.signal();

    assert!(!patchbay.check(sig));
    patchbay.set(&mut point, s(0.2));
    assert!(patchbay.check(sig));
    assert!(patchbay.check(Signal::Fixed(s(0.5))));
    assert!(patchbay.check(Signal::Silence));

    patchbay.clear_marks();
    assert!(!patchbay.check(sig));
    // The sample buffer is untouched: feedback reads last tick's value.
    assert_eq!(f(patchbay.get(sig)), 0.2);
    assert!(patchbay.check(Signal::Fixed(s(0.5))));
    assert!(patchbay.check(Signal::Silence));
}

#[test]
fn exhausted_pool_returns_none_and_live_points_keep_working() {
    let mut patchbay: Patchbay<2> = Patchbay::new();
    let mut a = patchbay.point().unwrap();
    let mut b = patchbay.point().unwrap();
    assert!(patchbay.point().is_none());

    patchbay.set(&mut a, s(0.1));
    patchbay.set(&mut b, s(0.9));
    assert_eq!(f(patchbay.get(a.signal())), 0.1);
    assert_eq!(f(patchbay.get(b.signal())), 0.9);
}

#[test]
fn zero_capacity_patchbay_never_allocates() {
    let mut patchbay: Patchbay<0> = Patchbay::new();
    assert!(patchbay.point().is_none());
    assert!(patchbay.point().is_none());
}

#[test]
fn balanced_allocate_release_never_shrinks_the_pool() {
    let mut patchbay: Patchbay<2> = Patchbay::new();
    let keep = patchbay.point().unwrap();
    for _ in 0..100 {
        let p = patchbay.point().unwrap();
        patchbay.release(p);
    }
    // After any number of balanced pairs a point is still available.
    assert!(patchbay.point().is_some());
    assert_eq!(patchbay.get(keep.signal()).bits, 0);
}
