use opendaw::project::{
    check_project_version, default_source_kind, index_out_of_range, instrument_choice, instrument_label,
    is_embedded_midi_track, is_renderable, keyboard_route_view, no_renderable_message, not_midi_track, project_sample_rate,
    project_track_plan, project_track_source_kind, recording_start_check, saved_instrument, saves_file_path,
    shell_instrument_choice, track_midi_soundfont, track_source_kind, track_type_label, InstrumentChoice,
    KeyboardRoute, MidiInstrument, ProjectTrackPlan, SourceKind, PROJECT_VERSION, RECORDED_MIDI_PATH,
};

#[test]
fn track_kind_names() {
    assert_eq!(track_type_label(SourceKind::Audio), "audio");
    assert_eq!(track_type_label(SourceKind::Midi), "midi");
    assert_eq!(track_type_label(SourceKind::MidiLive), "midi-live");
    assert_eq!(track_source_kind(SourceKind::MidiLive), "midi_live");
    assert_eq!(default_source_kind(), "audio");
}

#[test]
fn recorded_tracks_are_embedded() {
    assert!(is_embedded_midi_track(SourceKind::Midi, RECORDED_MIDI_PATH));
    assert!(!is_embedded_midi_track(SourceKind::Midi, "song.mid"));
    assert!(!is_embedded_midi_track(SourceKind::Audio, RECORDED_MIDI_PATH));
    assert_eq!(project_track_source_kind(SourceKind::Midi, RECORDED_MIDI_PATH), "midi_embedded");
    assert_eq!(project_track_source_kind(SourceKind::Midi, "song.mid"), "midi");
    assert!(!saves_file_path(SourceKind::Midi, RECORDED_MIDI_PATH));
    assert!(!saves_file_path(SourceKind::MidiLive, "<live-midi>"));
    assert!(saves_file_path(SourceKind::Audio, "a.wav"));
}

#[test]
fn saved_track_kinds_round_trip() {
    let cases = [
        (SourceKind::Audio, "a.wav", ProjectTrackPlan::FromFile),
        (SourceKind::Midi, "s.mid", ProjectTrackPlan::FromFile),
        (SourceKind::Midi, RECORDED_MIDI_PATH, ProjectTrackPlan::Embedded),
        (SourceKind::MidiLive, "<live-midi>", ProjectTrackPlan::Live),
    ];
    for (kind, path, plan) in cases {
        assert_eq!(project_track_plan(project_track_source_kind(kind, path), true), Ok(plan));
    }
}

#[test]
fn project_track_plan_errors() {
    assert_eq!(
        project_track_plan("midi_embedded", false),
        Err("embedded MIDI track is missing note data".to_string())
    );
    assert_eq!(
        project_track_plan("video", true),
        Err("unsupported track source kind `video`".to_string())
    );
}

#[test]
fn project_version_is_checked() {
    assert_eq!(check_project_version(PROJECT_VERSION), Ok(()));
    assert_eq!(check_project_version(2), Err("unsupported project version 2".to_string()));
}

#[test]
fn instruments_round_trip_through_saving() {
    let sf = MidiInstrument::SoundFont("piano.sf2".to_string());
    let saved = track_midi_soundfont(SourceKind::Midi, &sf);
    assert_eq!(saved, Some("piano.sf2".to_string()));
    assert!(matches!(saved_instrument(saved), MidiInstrument::SoundFont(p) if p == "piano.sf2"));
    assert_eq!(track_midi_soundfont(SourceKind::Audio, &sf), None);
    assert!(matches!(saved_instrument(None), MidiInstrument::Basic));
    assert_eq!(instrument_label(SourceKind::Audio, &sf), "audio");
    assert_eq!(instrument_label(SourceKind::MidiLive, &sf), "soundfont");
    assert_eq!(instrument_label(SourceKind::Midi, &MidiInstrument::Basic), "basic");
}

#[test]
fn instrument_requests() {
    assert!(matches!(instrument_choice("basic", None), Ok(InstrumentChoice::Basic)));
    assert!(matches!(
        instrument_choice("soundfont", Some("p.sf2".to_string())),
        Ok(InstrumentChoice::SoundFontAt(p)) if p == "p.sf2"
    ));
    assert!(matches!(instrument_choice("soundfont", None), Err(e) if e == "soundfont path is required"));
    assert!(matches!(instrument_choice("organ", None), Err(e) if e == "unsupported instrument kind `organ`"));
    assert!(matches!(shell_instrument_choice("basic"), InstrumentChoice::Basic));
    assert!(matches!(shell_instrument_choice("x.sf2"), InstrumentChoice::SoundFontAt(p) if p == "x.sf2"));
}

#[test]
fn track_messages() {
    assert_eq!(index_out_of_range(7), "track index 7 out of range");
    assert_eq!(not_midi_track(0), "track [0] is not a MIDI track");
    assert_eq!(no_renderable_message(false), "no renderable tracks loaded");
    assert_eq!(
        no_renderable_message(true),
        "no renderable tracks loaded; `midi-live` tracks are realtime-only and are not included in `play`/`mix`"
    );
}

#[test]
fn project_sample_rate_is_the_first_audio_rate() {
    assert_eq!(project_sample_rate(&vec![None, Some(48_000), Some(22_050)]), 48_000);
    assert_eq!(project_sample_rate(&vec![None, None]), 44_100);
    assert_eq!(project_sample_rate(&vec![]), 44_100);
}

#[test]
fn keyboard_route_follows_removed_tracks() {
    let tracks = vec!["a", "b", "c", "d"];
    let mut route = KeyboardRoute { track: Some(2) };
    route.track_removed(0);
    assert_eq!(route.track, Some(1));
    let mut shortened = tracks.clone();
    shortened.remove(0);
    assert_eq!(shortened[1], tracks[2]);
    route.track_removed(3);
    assert_eq!(route.track, Some(1));
    route.track_removed(1);
    assert_eq!(route.track, None);
    route.track_removed(0);
    assert_eq!(route.track, None);
}

#[test]
fn keyboard_route_shown_to_the_user() {
    let names = vec!["Piano".to_string(), "Bass".to_string()];
    let r = keyboard_route_view(Some("USB Keys"), Some(1), Some(0), &names).expect("a route");
    assert_eq!(r.port_index, 0);
    assert_eq!(r.port_name, "USB Keys");
    assert_eq!(r.track_index, 1);
    assert_eq!(r.track_name, "Bass");
    let missing = keyboard_route_view(Some("USB Keys"), Some(5), Some(2), &names).expect("a route");
    assert_eq!(missing.track_name, "<missing>");
    assert!(keyboard_route_view(None, Some(1), Some(0), &names).is_none());
    assert!(keyboard_route_view(Some("USB Keys"), None, Some(0), &names).is_none());
    assert!(keyboard_route_view(Some("USB Keys"), Some(1), None, &names).is_none());
}

#[test]
fn recording_start_conditions() {
    let ok = recording_start_check(false, Some(1), true, 1, Some(SourceKind::MidiLive));
    assert_eq!(ok, Ok(()));
    assert_eq!(
        recording_start_check(true, Some(1), true, 1, Some(SourceKind::MidiLive)),
        Err("recording is already running".to_string())
    );
    let needs_keyboard = Err("recording requires the keyboard to be connected to the target track".to_string());
    assert_eq!(recording_start_check(false, Some(0), true, 1, Some(SourceKind::MidiLive)), needs_keyboard);
    assert_eq!(recording_start_check(false, Some(1), false, 1, Some(SourceKind::MidiLive)), needs_keyboard);
    assert_eq!(recording_start_check(false, None, true, 1, Some(SourceKind::MidiLive)), needs_keyboard);
    assert_eq!(
        recording_start_check(false, Some(3), true, 3, None),
        Err("track index 3 out of range".to_string())
    );
    assert_eq!(
        recording_start_check(false, Some(1), true, 1, Some(SourceKind::Midi)),
        Err("recording currently only supports `midi-live` tracks".to_string())
    );
    assert_eq!(
        recording_start_check(false, Some(1), true, 1, Some(SourceKind::Audio)),
        Err("track [1] is not a MIDI track".to_string())
    );
}

#[test]
fn live_tracks_are_not_rendered() {
    assert!(is_renderable(SourceKind::Audio));
    assert!(is_renderable(SourceKind::Midi));
    assert!(!is_renderable(SourceKind::MidiLive));
}
