use opendaw::playback::{preferred_buffer_frames, LatencyMode};

#[test]
fn latency_labels_are_the_typed_names() {
    assert_eq!(LatencyMode::Low.label(), "low");
    assert_eq!(LatencyMode::Balanced.label(), "balanced");
    assert_eq!(LatencyMode::Safe.label(), "safe");
}

#[test]
fn latency_name_round_trip() {
    for mode in [LatencyMode::Low, LatencyMode::Balanced, LatencyMode::Safe] {
        assert_eq!(LatencyMode::parse(mode.label()), Ok(mode));
    }
}

#[test]
fn latency_parse_rejects_unknown_names() {
    assert_eq!(
        LatencyMode::parse("fast"),
        Err("invalid latency mode `fast`; use low, balanced, or safe".to_string())
    );
    assert_eq!(
        LatencyMode::parse("Low"),
        Err("invalid latency mode `Low`; use low, balanced, or safe".to_string())
    );
    assert!(LatencyMode::parse("").is_err());
}

#[test]
fn latency_default_is_balanced() {
    assert_eq!(LatencyMode::default_mode(), LatencyMode::Balanced);
}

#[test]
fn latency_buffer_targets_grow_with_safety() {
    assert_eq!(LatencyMode::Low.target_buffer_frames(), 128);
    assert_eq!(LatencyMode::Balanced.target_buffer_frames(), 256);
    assert_eq!(LatencyMode::Safe.target_buffer_frames(), 512);
}

#[test]
fn preferred_buffer_stays_within_device_range() {
    assert_eq!(preferred_buffer_frames(LatencyMode::Balanced, 64, 4096), 256);
    assert_eq!(preferred_buffer_frames(LatencyMode::Low, 256, 4096), 256);
    assert_eq!(preferred_buffer_frames(LatencyMode::Safe, 64, 300), 300);
    assert_eq!(preferred_buffer_frames(LatencyMode::Low, 16, 32), 32);
}
