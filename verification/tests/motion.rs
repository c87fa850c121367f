use poche::components::TravelTime;
use poche::motion::{advance, eased_progress, FULL, SETTLED, SETTLING_TIME};

#[test]
fn eased_progress_is_the_square_root() {
    assert_eq!(eased_progress(0), 0);
    assert_eq!(eased_progress(1), 1_000);
    assert_eq!(eased_progress(2), 1_414);
    assert_eq!(eased_progress(10_000), 100_000);
    assert_eq!(eased_progress(250_000), 500_000);
    assert_eq!(eased_progress(640_000), 800_000);
    assert_eq!(eased_progress(1_000_000), 1_000_000);
}

#[test]
fn eased_progress_holds_at_the_full_travel() {
    assert_eq!(eased_progress(1_000_001), FULL);
    assert_eq!(eased_progress(5_000_000), FULL);
    assert_eq!(eased_progress(u64::MAX), FULL);
}

#[test]
fn eased_progress_never_falls() {
    let mut last = 0;
    let mut elapsed = 0;
    while elapsed <= 1_100_000 {
        let progress = eased_progress(elapsed);
        assert!(progress >= last);
        assert!(progress <= FULL);
        last = progress;
        elapsed += 997;
    }
}

#[test]
fn settling_starts_at_the_settling_time() {
    assert_eq!(SETTLED, 990_000);
    assert_eq!(SETTLING_TIME, 980_100);
    assert_eq!(eased_progress(980_100), 990_000);
    assert_eq!(eased_progress(980_099), 989_999);
    let before = advance(Some(TravelTime { start_time: 1_000 }), 1_000 + 980_099);
    assert!(!before.settled);
    let at = advance(Some(TravelTime { start_time: 1_000 }), 1_000 + 980_100);
    assert!(at.settled);
    assert_eq!(at.progress, 990_000);
    assert_eq!(at.start_time, 1_000);
}

#[test]
fn a_travel_starts_at_the_first_tick() {
    let motion = advance(None, 77);
    assert_eq!(motion.start_time, 77);
    assert_eq!(motion.progress, 0);
    assert!(!motion.settled);
}

#[test]
fn a_start_ahead_of_now_counts_as_no_time_passed() {
    let motion = advance(Some(TravelTime { start_time: 500 }), 100);
    assert_eq!(motion.start_time, 500);
    assert_eq!(motion.progress, 0);
    assert!(!motion.settled);
}

#[test]
fn fixed_ticks_settle_within_a_bounded_number() {
    let tick = 16_667;
    let start = 123_456;
    let mut now = start;
    let mut ticks = 0;
    let mut last = 0;
    loop {
        let motion = advance(Some(TravelTime { start_time: start }), now);
        assert!(motion.progress >= last);
        last = motion.progress;
        if motion.settled {
            break;
        }
        now += tick;
        ticks += 1;
        assert!(ticks <= 59);
    }
    assert_eq!(ticks, 59);
}
