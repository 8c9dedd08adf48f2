use wluma::codec::{decode, encode, FORMAT_VERSION};
use wluma::config::{
    Als, BacklightOutput, Capturer, Config, DdcUtilOutput, Display, Keyboards, Output,
    OutputByType, Processor, ScreenContents,
};
use wluma::profile::Profile;
use wluma::quantize::StateKey;

fn sample_profile() -> Profile {
    let mut profile = Profile::new(vec![10, 4]);
    profile.update(&StateKey { buckets: vec![2, 1] }, 40_000);
    profile.update(&StateKey { buckets: vec![9, 3] }, 90_000);
    profile.update(&StateKey { buckets: vec![0, 0] }, 5_000);
    // a second observation on an existing key advances value and weight
    profile.update(&StateKey { buckets: vec![2, 1] }, 50_000);
    profile
}

#[test]
fn round_trip_restores_the_same_mapping() {
    let profile = sample_profile();
    let words = encode(&profile);
    let restored = decode(&words, &profile.bucket_counts, profile.alpha_num, profile.alpha_den, profile.epsilon)
        .expect("a freshly encoded profile must decode");
    assert_eq!(restored.bucket_counts, profile.bucket_counts);
    assert_eq!(restored.entries.len(), profile.entries.len());
    for (a, b) in restored.entries.iter().zip(profile.entries.iter()) {
        assert_eq!(a.key.buckets, b.key.buckets);
        assert_eq!(a.value, b.value);
        assert_eq!(a.weight, b.weight);
    }
}

#[test]
fn empty_profile_round_trips() {
    let profile = Profile::new(vec![10]);
    let words = encode(&profile);
    let restored = decode(&words, &vec![10], 200, 1000, 5).unwrap();
    assert_eq!(restored.entries.len(), 0);
    assert_eq!(restored.bucket_counts, vec![10]);
}

#[test]
fn version_mismatch_is_treated_as_absent() {
    let profile = sample_profile();
    let mut words = encode(&profile);
    words[0] = FORMAT_VERSION + 1;
    assert!(decode(&words, &profile.bucket_counts, 200, 1000, 5).is_none());
}

#[test]
fn bucket_count_mismatch_is_treated_as_absent() {
    let profile = sample_profile();
    let words = encode(&profile);
    assert!(decode(&words, &vec![10, 5], 200, 1000, 5).is_none());
    assert!(decode(&words, &vec![10], 200, 1000, 5).is_none());
}

#[test]
fn truncated_snapshot_is_treated_as_absent() {
    let profile = sample_profile();
    let mut words = encode(&profile);
    words.pop();
    assert!(decode(&words, &profile.bucket_counts, 200, 1000, 5).is_none());
    assert!(decode(&Vec::new(), &profile.bucket_counts, 200, 1000, 5).is_none());
}

#[test]
fn oversized_bucket_word_is_treated_as_absent() {
    // header: version, one signal, ten buckets; then one record whose bucket
    // index does not fit a 32-bit value
    let words = vec![FORMAT_VERSION, 1, 10, 0x1_0000_0000u64, 5_000, 1];
    assert!(decode(&words, &vec![10], 200, 1000, 5).is_none());
}

#[test]
fn duplicate_keys_are_treated_as_absent() {
    let words = vec![FORMAT_VERSION, 1, 10, 3, 5_000, 1, 3, 7_000, 2];
    assert!(decode(&words, &vec![10], 200, 1000, 5).is_none());
}

#[test]
fn trailing_garbage_is_treated_as_absent() {
    let profile = sample_profile();
    let mut words = encode(&profile);
    words.push(7);
    assert!(decode(&words, &profile.bucket_counts, 200, 1000, 5).is_none());
}

fn sample_config() -> Config {
    Config {
        display: Display::Wayland,
        screen_contents: ScreenContents { capturer: Capturer::Wlroots, processor: Processor::Vulkan },
        als: Als::Iio { path: String::from("/sys/bus/iio/devices/iio:device0") },
        output_by_type: OutputByType::default(),
        keyboard: Keyboards::default(),
        output: vec![
            (
                String::from("panel"),
                Output::Backlight(BacklightOutput {
                    path: String::from("/sys/class/backlight/intel_backlight"),
                    use_contents: true,
                }),
            ),
            (
                String::from("monitor"),
                Output::DdcUtil(DdcUtilOutput { display: 1, use_contents: false }),
            ),
        ],
    }
}

#[test]
fn output_contents_flag_follows_the_named_device() {
    let config = sample_config();
    assert!(config.use_output_contents("panel"));
    assert!(!config.use_output_contents("monitor"));
    assert!(!config.use_output_contents("unknown"));
    assert!(!config.use_output_contents(""));
}

#[test]
fn flattening_keeps_names_and_kinds() {
    let by_type = OutputByType {
        backlight: vec![(
            String::from("panel"),
            BacklightOutput { path: String::from("/sys/class/backlight/b"), use_contents: true },
        )],
        ddcutil: vec![
            (String::from("left"), DdcUtilOutput { display: 1, use_contents: false }),
            (String::from("right"), DdcUtilOutput { display: 2, use_contents: true }),
        ],
    };
    let flat = wluma::config::flatten_outputs(by_type);
    assert_eq!(flat.len(), 3);
    assert_eq!(flat[0].0, "panel");
    assert!(matches!(&flat[0].1, Output::Backlight(b) if b.use_contents));
    assert_eq!(flat[1].0, "left");
    assert!(matches!(&flat[1].1, Output::DdcUtil(d) if d.display == 1));
    assert_eq!(flat[2].0, "right");
    assert!(matches!(&flat[2].1, Output::DdcUtil(d) if d.use_contents));
}

#[test]
fn als_variants_carry_their_parameters() {
    let config = sample_config();
    match &config.als {
        Als::Iio { path } => assert_eq!(path, "/sys/bus/iio/devices/iio:device0"),
        _ => unreachable!(),
    }
    let timed = Als::Time { hour_to_lux: vec![(String::from("8"), 300), (String::from("20"), 20)] };
    match timed {
        Als::Time { hour_to_lux } => {
            assert_eq!(hour_to_lux.len(), 2);
            assert_eq!(hour_to_lux[0], (String::from("8"), 300));
        },
        _ => unreachable!(),
    }
}
