use newton::scheduler::{adjust_steps, measured_rate, AdaptiveScheduler, PhysicsConfig, SEED_STEPS_PER_FRAME};

const MS: u64 = 1_000_000;

fn config(max: Option<u32>) -> PhysicsConfig {
    PhysicsConfig { target_updates_per_s: 60, min_spu: 10, max_spu: max }
}

#[test]
fn first_frame_is_not_adjusted_and_second_is() {
    let c = config(Some(1000));
    let mut s = AdaptiveScheduler::new(0);
    let f1 = s.next_frame(5 * MS, &c);
    assert_eq!(f1.dt_nanos, 5 * MS);
    assert_eq!(f1.steps_per_frame, SEED_STEPS_PER_FRAME);
    let f2 = s.next_frame(10 * MS, &c);
    assert_eq!(f2.dt_nanos, 5 * MS);
    assert_eq!(f2.steps_per_frame, 145);
}

#[test]
fn fast_loop_rises_to_max() {
    let c = config(Some(1000));
    let mut s = AdaptiveScheduler::new(0);
    let mut now = 0;
    let mut last = 0;
    for _ in 0..20 {
        now += 5 * MS;
        let f = s.next_frame(now, &c);
        assert!(f.steps_per_frame >= last || f.steps_per_frame == 1000);
        last = f.steps_per_frame;
    }
    assert_eq!(last, 1000);
}

#[test]
fn slow_loop_falls_to_min() {
    let c = config(Some(1000));
    let mut s = AdaptiveScheduler::new(0);
    s.next_frame(1, &c);
    let mut now = 1;
    for _ in 0..3 {
        now += 5 * MS;
        s.next_frame(now, &c);
    }
    assert!(s.steps_per_frame > 10);
    for _ in 0..100 {
        now += 100 * MS;
        s.next_frame(now, &c);
    }
    assert_eq!(s.steps_per_frame, 10);
}

#[test]
fn without_max_the_count_keeps_rising() {
    let c = config(None);
    let mut s = AdaptiveScheduler::new(0);
    let mut now = 0;
    for _ in 0..10 {
        now += MS;
        s.next_frame(now, &c);
    }
    assert_eq!(s.steps_per_frame, 5 + 9 * (1000 - 60));
}

#[test]
fn clock_going_back_counts_as_empty_frame() {
    let c = config(Some(1000));
    let mut s = AdaptiveScheduler { prev_time: 50 * MS, steps_per_frame: 500, first_frame: false };
    let f = s.next_frame(40 * MS, &c);
    assert_eq!(f.dt_nanos, 0);
    assert_eq!(f.steps_per_frame, 440);
    assert_eq!(s.prev_time, 40 * MS);
}

#[test]
fn rate_and_adjustment_formulas() {
    assert_eq!(measured_rate(0), 0);
    assert_eq!(measured_rate(1), 1_000_000_000);
    assert_eq!(measured_rate(16_666_667), 59);
    assert_eq!(measured_rate(3_000_000_000), 0);
    let c = config(Some(1000));
    assert_eq!(adjust_steps(5, 200, &c), 145);
    assert_eq!(adjust_steps(5, 0, &c), 10);
    assert_eq!(adjust_steps(990, 200, &c), 1000);
    assert_eq!(adjust_steps(u32::MAX, u32::MAX, &config(None)), u32::MAX);
}
