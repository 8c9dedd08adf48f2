use wluma::clamp_raw;
use wluma::controller::{Controller, CycleAction};
use wluma::profile::Profile;
use wluma::quantize::{quantize, Reading, Scale, StateKey};

fn lux_reading(value: u64) -> Reading {
    Reading { value, max: 1000, scale: Scale::Logarithmic }
}

fn key_for_lux(value: u64) -> StateKey {
    quantize(&vec![lux_reading(value)], &vec![10])
}

#[test]
fn clamp_never_off_never_over() {
    assert_eq!(clamp_raw(0, 10), 1);
    assert_eq!(clamp_raw(200, 10), 10);
    assert_eq!(clamp_raw(5, 10), 5);
    assert_eq!(clamp_raw(1, 1), 1);
}

#[test]
fn lux_extremes_map_to_first_and_top_bucket() {
    let bottom = key_for_lux(0);
    assert_eq!(bottom.buckets, vec![0]);
    let top = key_for_lux(1000);
    assert_eq!(top.buckets, vec![9]);
    let beyond = key_for_lux(5000);
    assert_eq!(beyond.buckets, vec![9]);
}

#[test]
fn lux_middle_bucket_exact() {
    // 10 * ln(6) / ln(1001) is just over 2.59, so lux 5 lands in bucket 2
    let key = key_for_lux(5);
    assert_eq!(key.buckets, vec![2]);
}

#[test]
fn linear_buckets_equal_width() {
    let mk = |value| Reading { value, max: 1000, scale: Scale::Linear };
    assert_eq!(quantize(&vec![mk(0)], &vec![4]).buckets, vec![0]);
    assert_eq!(quantize(&vec![mk(500)], &vec![4]).buckets, vec![2]);
    assert_eq!(quantize(&vec![mk(999)], &vec![4]).buckets, vec![3]);
    assert_eq!(quantize(&vec![mk(1000)], &vec![4]).buckets, vec![3]);
}

#[test]
fn quantizer_is_deterministic_and_monotone_in_lux() {
    let a = key_for_lux(123);
    let b = key_for_lux(123);
    assert_eq!(a.buckets, b.buckets);
    let mut previous = 0u32;
    for lux in 0..=1000u64 {
        let bucket = key_for_lux(lux).buckets[0];
        assert!(bucket >= previous, "lux {} lowered the bucket", lux);
        previous = bucket;
    }
}

#[test]
fn predict_on_empty_profile_is_none_and_first_update_seeds_exactly() {
    let mut profile = Profile::new(vec![10]);
    let key = key_for_lux(5);
    assert_eq!(profile.predict(&key), None);
    profile.update(&key, 40);
    assert_eq!(profile.predict(&key), Some(40));
}

#[test]
fn predict_falls_back_to_nearest_key() {
    let mut profile = Profile::new(vec![10]);
    profile.update(&StateKey { buckets: vec![2] }, 11_000);
    assert_eq!(profile.predict(&StateKey { buckets: vec![3] }), Some(11_000));
    profile.update(&StateKey { buckets: vec![8] }, 90_000);
    assert_eq!(profile.predict(&StateKey { buckets: vec![7] }), Some(90_000));
}

#[test]
fn predict_tie_prefers_dimmer_key() {
    let mut profile = Profile::new(vec![10]);
    profile.update(&StateKey { buckets: vec![5] }, 70_000);
    profile.update(&StateKey { buckets: vec![1] }, 20_000);
    // buckets 1 and 5 are both at distance 2 from bucket 3
    assert_eq!(profile.predict(&StateKey { buckets: vec![3] }), Some(20_000));
}

#[test]
fn update_converges_monotonically_then_stabilizes() {
    let mut profile = Profile::new(vec![10]);
    let key = key_for_lux(5);
    profile.update(&key, 0);
    let target = 10_000u64;
    let mut last_gap = target;
    let mut calls = 0u64;
    loop {
        let changed = profile.update(&key, target);
        let value = profile.entries[0].value;
        let gap = if value >= target { value - target } else { target - value };
        assert!(gap <= last_gap, "gap grew from {} to {}", last_gap, gap);
        if !changed {
            break;
        }
        last_gap = gap;
        calls += 1;
        assert!(calls < 100, "no convergence after {} calls", calls);
    }
    let value = profile.entries[0].value;
    let gap = if value >= target { value - target } else { target - value };
    assert!(gap <= 5, "stabilized {} away from the observation", gap);
    // further identical updates are no-ops
    assert!(!profile.update(&key, target));
    assert_eq!(profile.entries[0].value, value);
}

#[test]
fn tuned_profiles_reject_stalling_parameters() {
    assert!(Profile::with_params(vec![10], 0, 1000, 5).is_none());
    assert!(Profile::with_params(vec![10], 1001, 1000, 5).is_none());
    assert!(Profile::with_params(vec![10], 200, 1000, 1).is_none());
    assert!(Profile::with_params(vec![10], 200, 1000, 5).is_some());
}

#[test]
fn controller_rejects_unusable_parameters() {
    let profile = Profile::new(vec![10]);
    assert!(Controller::new(profile, 0, 1, 2, 3).is_none());
    let profile = Profile::new(vec![10]);
    assert!(Controller::new(profile, 100, 0, 2, 3).is_none());
    let profile = Profile::new(vec![10]);
    assert!(Controller::new(profile, 100, 200, 2, 3).is_none());
    let profile = Profile::new(vec![10]);
    assert!(Controller::new(profile, 100, 50, 2, 3).is_some());
}

#[test]
fn first_cycle_applies_the_default() {
    let profile = Profile::new(vec![10]);
    let mut ctl = Controller::new(profile, 100, 50, 2, 3).unwrap();
    let action = ctl.cycle(Some(vec![lux_reading(5)]), Some(50));
    assert_eq!(action, CycleAction::Applied(50));
}

#[test]
fn failed_poll_skips_the_cycle() {
    let profile = Profile::new(vec![10]);
    let mut ctl = Controller::new(profile, 100, 50, 2, 3).unwrap();
    assert_eq!(ctl.cycle(None, Some(50)), CycleAction::Skipped);
    assert_eq!(ctl.cycle(Some(vec![lux_reading(5)]), None), CycleAction::Skipped);
    assert_eq!(ctl.profile.len(), 0);
    // the skipped cycles left no state behind: the next full cycle is a first cycle
    assert_eq!(ctl.cycle(Some(vec![lux_reading(5)]), Some(50)), CycleAction::Applied(50));
}

#[test]
fn override_is_attributed_once_to_the_previous_key() {
    let profile = Profile::new(vec![10]);
    let mut ctl = Controller::new(profile, 100, 50, 2, 3).unwrap();
    // cycle 1: dim room, nothing learned, default applied
    assert_eq!(ctl.cycle(Some(vec![lux_reading(5)]), Some(50)), CycleAction::Applied(50));
    let previous_key = key_for_lux(5);
    // the user turns the device up to 80 before cycle 2; the room brightened too
    let action = ctl.cycle(Some(vec![lux_reading(700)]), Some(80));
    // the correction lands under cycle 1's key, not the current one
    assert_eq!(ctl.profile.len(), 1);
    assert_eq!(ctl.profile.entries[0].key.buckets, previous_key.buckets);
    assert_eq!(ctl.profile.entries[0].value, 80_000);
    // the only learned entry predicts 80, matching what the user set: no write
    assert_eq!(action, CycleAction::Held);
    // cycle 3: device still reads 80; the correction is not attributed again
    ctl.cycle(Some(vec![lux_reading(700)]), Some(80));
    assert_eq!(ctl.profile.len(), 1);
    assert_eq!(ctl.profile.entries[0].value, 80_000);
    assert_eq!(ctl.profile.entries[0].weight, 1);
}

#[test]
fn small_prediction_changes_are_held_back() {
    let mut profile = Profile::new(vec![10]);
    // the profile already knows this state wants raw 52
    profile.update(&key_for_lux(5), 52_000);
    let mut ctl = Controller::new(profile, 100, 50, 2, 3).unwrap();
    // first cycle always writes
    assert_eq!(ctl.cycle(Some(vec![lux_reading(5)]), Some(52)), CycleAction::Applied(52));
    // teach a nearby state a value within the hysteresis band of 52
    ctl.profile.update(&key_for_lux(1000), 53_000);
    let action = ctl.cycle(Some(vec![lux_reading(1000)]), Some(52));
    assert_eq!(action, CycleAction::Held);
}

#[test]
fn large_prediction_changes_are_applied_within_range() {
    let mut profile = Profile::new(vec![10]);
    profile.update(&key_for_lux(5), 20_000);
    profile.update(&key_for_lux(1000), 90_000);
    let mut ctl = Controller::new(profile, 100, 50, 2, 3).unwrap();
    assert_eq!(ctl.cycle(Some(vec![lux_reading(5)]), Some(20)), CycleAction::Applied(20));
    let action = ctl.cycle(Some(vec![lux_reading(1000)]), Some(20));
    assert_eq!(action, CycleAction::Applied(90));
    match action {
        CycleAction::Applied(v) => assert!(1 <= v && v <= 100),
        _ => unreachable!(),
    }
}

#[test]
fn prediction_rounds_to_nearest_raw_unit() {
    let mut profile = Profile::new(vec![10]);
    profile.update(&key_for_lux(5), 41_499);
    let mut ctl = Controller::new(profile, 100, 50, 2, 3).unwrap();
    assert_eq!(ctl.cycle(Some(vec![lux_reading(5)]), Some(50)), CycleAction::Applied(41));
    let mut profile = Profile::new(vec![10]);
    profile.update(&key_for_lux(5), 41_500);
    let mut ctl = Controller::new(profile, 100, 50, 2, 3).unwrap();
    assert_eq!(ctl.cycle(Some(vec![lux_reading(5)]), Some(50)), CycleAction::Applied(42));
}
