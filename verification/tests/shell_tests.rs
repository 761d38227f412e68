use opendaw::shell::{parse_command, parse_index, toggle_value, NumberArg, ShellCommand, ToggleField};

fn parse(line: &str) -> ShellCommand {
    match parse_command(line, None) {
        Ok(c) => c,
        Err(e) => panic!("`{line}` was refused: {e}"),
    }
}

fn refusal(line: &str) -> String {
    match parse_command(line, None) {
        Ok(c) => panic!("`{line}` was accepted: {c:?}"),
        Err(e) => e,
    }
}

#[test]
fn simple_commands() {
    assert!(matches!(parse("help"), ShellCommand::Help));
    assert!(matches!(parse("  list  "), ShellCommand::List));
    assert!(matches!(parse("play"), ShellCommand::Play));
    assert!(matches!(parse("pause"), ShellCommand::Pause));
    assert!(matches!(parse("resume"), ShellCommand::Resume));
    assert!(matches!(parse("stop"), ShellCommand::Stop));
    assert!(matches!(parse("clear"), ShellCommand::Clear));
    assert!(matches!(parse("quit"), ShellCommand::Exit));
    assert!(matches!(parse("exit"), ShellCommand::Exit));
}

#[test]
fn load_takes_a_path_and_an_optional_gain() {
    assert!(matches!(parse("load a.wav 0.8"), ShellCommand::Load { path, gain: Some(g) } if path == "a.wav" && g == "0.8"));
    assert!(matches!(parse("load\tsong.mid"), ShellCommand::Load { path, gain: None } if path == "song.mid"));
    assert_eq!(refusal("load"), "usage: load <path.wav|path.mid> [gain]");
}

#[test]
fn midi_live_name_is_the_rest_of_the_line() {
    assert!(matches!(parse("midi-live Grand Piano"), ShellCommand::MidiLive { name } if name == "Grand Piano"));
    assert!(matches!(parse("midi-live"), ShellCommand::MidiLive { name } if name == "live_midi"));
}

#[test]
fn track_commands_read_their_index() {
    assert!(matches!(parse("gain 1 0.7"), ShellCommand::TrackNumber { index: 1, arg: NumberArg::Gain, value } if value == "0.7"));
    assert!(matches!(parse("offset 0 2.5"), ShellCommand::TrackNumber { index: 0, arg: NumberArg::OffsetSeconds, .. }));
    assert!(matches!(parse("speed 2 1.15"), ShellCommand::TrackNumber { index: 2, arg: NumberArg::SpeedRatio, .. }));
    assert!(matches!(parse("pitch 1 -12"), ShellCommand::TrackNumber { index: 1, arg: NumberArg::PitchSemitones, value } if value == "-12"));
    assert!(matches!(parse("notes 0 5"), ShellCommand::TrackNumber { index: 0, arg: NumberArg::NotesAtSeconds, .. }));
    assert!(matches!(parse("remove 3"), ShellCommand::Remove { index: 3 }));
    assert_eq!(refusal("gain x 1"), "invalid track index `x`");
    assert_eq!(refusal("gain 1"), "usage: gain <track_index> <gain>");
    assert_eq!(refusal("remove"), "usage: remove <track_index>");
}

#[test]
fn toggles_default_to_toggle() {
    assert!(matches!(parse("mute 1"), ShellCommand::Toggle { index: 1, field: ToggleField::Mute, action } if action == "toggle"));
    assert!(matches!(parse("solo 0 on"), ShellCommand::Toggle { index: 0, field: ToggleField::Solo, action } if action == "on"));
    assert_eq!(refusal("mute"), "usage: mute <track_index> [on|off|toggle]");
}

#[test]
fn rename_keeps_spaces_in_the_name() {
    assert!(matches!(parse("rename 1 Lead Vocal"), ShellCommand::Rename { index: 1, name } if name == "Lead Vocal"));
    assert_eq!(refusal("rename 1"), "usage: rename <track_index> <new_name>");
}

#[test]
fn soundfont_command() {
    assert!(matches!(parse("soundfont 0 basic"), ShellCommand::SetSoundfont { index: 0, value } if value == "basic"));
    assert_eq!(refusal("soundfont 0"), "usage: soundfont <track_index> <path.sf2|basic>");
}

#[test]
fn keyboard_commands() {
    assert!(matches!(parse("keyboard list"), ShellCommand::KeyboardList));
    assert!(matches!(parse("keyboard connect 2 0"), ShellCommand::KeyboardConnect { port_index: 2, track_index: 0 }));
    assert!(matches!(parse("keyboard disconnect"), ShellCommand::KeyboardDisconnect));
    assert!(matches!(parse("keyboard status"), ShellCommand::KeyboardStatus));
    assert!(matches!(parse("keyboard monitor 1"), ShellCommand::MonitorStart { port_index: 1 }));
    assert!(matches!(parse("keyboard monitor stop"), ShellCommand::MonitorStop));
    assert!(matches!(parse("keyboard monitor status"), ShellCommand::MonitorStatus));
    assert_eq!(refusal("keyboard"), "usage: keyboard <list|connect|disconnect|status|monitor> ...");
    assert_eq!(refusal("keyboard connect 1"), "usage: keyboard connect <port_index> <track_index>");
    assert_eq!(refusal("keyboard monitor x"), "invalid track index `x`");
    assert_eq!(
        refusal("keyboard play"),
        "unknown keyboard action `play`; use list, connect, disconnect, status, or monitor"
    );
}

#[test]
fn record_commands() {
    assert!(matches!(parse("record start 2"), ShellCommand::RecordStart { track_index: 2 }));
    assert!(matches!(parse_command("record start", Some(4)), Ok(ShellCommand::RecordStart { track_index: 4 })));
    assert!(matches!(parse("record stop"), ShellCommand::RecordStop));
    assert!(matches!(parse("record status"), ShellCommand::RecordStatus));
    assert_eq!(refusal("record start"), "usage: record start <track_index>");
    assert_eq!(refusal("record"), "usage: record <start|stop|status> ...");
    assert_eq!(refusal("record pause"), "unknown record action `pause`; use start, stop, or status");
}

#[test]
fn file_commands() {
    assert!(matches!(parse("mix out.wav"), ShellCommand::Mix { output } if output == "out.wav"));
    assert!(matches!(parse("save p.json"), ShellCommand::Save { path } if path == "p.json"));
    assert!(matches!(parse("open p.json"), ShellCommand::Open { path } if path == "p.json"));
    assert!(matches!(parse("latency low"), ShellCommand::Latency { mode } if mode == "low"));
    assert_eq!(refusal("mix"), "usage: mix <output.wav>");
    assert_eq!(refusal("latency"), "usage: latency <low|balanced|safe>");
}

#[test]
fn empty_and_unknown_lines() {
    assert_eq!(refusal(""), "empty command");
    assert_eq!(refusal("   "), "empty command");
    assert_eq!(refusal("dance"), "unknown command `dance`; type `help`");
}

#[test]
fn indices_parse_like_usize() {
    assert_eq!(parse_index("3"), Ok(3));
    assert_eq!(parse_index("+3"), Ok(3));
    assert_eq!(parse_index("007"), Ok(7));
    assert_eq!(parse_index("-1"), Err("invalid track index `-1`".to_string()));
    assert_eq!(parse_index(""), Err("invalid track index ``".to_string()));
    assert_eq!(parse_index("99999999999999999999999"), Err("invalid track index `99999999999999999999999`".to_string()));
}

#[test]
fn toggle_actions() {
    assert_eq!(toggle_value("toggle", false), Ok(true));
    assert_eq!(toggle_value("toggle", toggle_value("toggle", true).unwrap()), Ok(true));
    assert_eq!(toggle_value("on", false), Ok(true));
    assert_eq!(toggle_value("on", true), Ok(true));
    assert_eq!(toggle_value("off", true), Ok(false));
    assert_eq!(toggle_value("flip", true), Err("invalid toggle action `flip`; use on, off, or toggle".to_string()));
}

#[test]
fn switch_names_and_number_messages() {
    assert_eq!(ToggleField::Mute.label(), "mute");
    assert_eq!(ToggleField::Solo.label(), "solo");
    assert_eq!(NumberArg::Gain.error_message(), "invalid gain");
    assert_eq!(NumberArg::OffsetSeconds.error_message(), "invalid offset seconds");
    assert_eq!(NumberArg::SpeedRatio.error_message(), "invalid speed ratio");
    assert_eq!(NumberArg::PitchSemitones.error_message(), "invalid semitone value");
    assert_eq!(NumberArg::NotesAtSeconds.error_message(), "invalid seconds");
}
