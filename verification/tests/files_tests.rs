use opendaw::files::{
    is_midi_extension, is_midi_path, name_le_exec, soundfont_entries, soundfont_entry, soundfont_entry_from_parts,
    sort_by_name, trim_path_end, UiSoundFontEntry,
};

fn chars(s: &str) -> Vec<char> {
    s.chars().collect()
}

fn entry(name: &str, path: &str) -> UiSoundFontEntry {
    UiSoundFontEntry { name: name.to_string(), path: path.to_string() }
}

#[test]
fn midi_paths_are_recognised_by_extension() {
    assert!(is_midi_path("song.mid"));
    assert!(is_midi_path("dir/song.MIDI"));
    assert!(is_midi_path("a.b.Mid"));
    assert!(!is_midi_path("song.wav"));
    assert!(!is_midi_path("mid"));
    assert!(!is_midi_path(".mid"));
    assert!(!is_midi_path("song.midi.wav"));
    assert!(!is_midi_path(""));
}

#[test]
fn midi_paths_with_directories_are_judged_by_their_file_name() {
    assert!(is_midi_path("a/B.MIDI"));
    assert!(is_midi_path("/home/user/songs/take.mid"));
    assert!(is_midi_path("./x.Mid"));
    assert!(!is_midi_path("dir/song.wav"));
    assert!(!is_midi_path("songs.mid/readme"));
    assert!(!is_midi_path("dir.mid/.mid"));
}

#[test]
fn midi_extensions_ignore_case() {
    assert!(is_midi_extension("mid"));
    assert!(is_midi_extension("MiD"));
    assert!(is_midi_extension("MIDI"));
    assert!(!is_midi_extension("midx"));
    assert!(!is_midi_extension(""));
}

#[test]
fn soundfont_entry_takes_the_file_stem() {
    let e = soundfont_entry("fonts/Piano.SF2").expect("an sf2 file");
    assert_eq!(e.name, "Piano");
    assert_eq!(e.path, "fonts/Piano.SF2");
    assert!(soundfont_entry("fonts/piano.sf3").is_none());
    assert!(soundfont_entry("sf2").is_none());
}

#[test]
fn soundfont_entries_are_sorted_by_name() {
    let paths = vec![
        "b/Zeta.sf2".to_string(),
        "a/readme.txt".to_string(),
        "c/alpha.sf2".to_string(),
        "d/Beta.SF2".to_string(),
    ];
    let entries = soundfont_entries(&paths);
    let names: Vec<&str> = entries.iter().map(|e| e.name.as_str()).collect();
    assert_eq!(names, vec!["Beta", "Zeta", "alpha"]);
    assert_eq!(entries[0].path, "d/Beta.SF2");
}

#[test]
fn sorting_by_name_keeps_equal_names_in_order() {
    let sorted = sort_by_name(&vec![
        entry("pad", "x/pad.sf2"),
        entry("bass", "b.sf2"),
        entry("pad", "y/pad.sf2"),
    ]);
    let paths: Vec<&str> = sorted.iter().map(|e| e.path.as_str()).collect();
    assert_eq!(paths, vec!["b.sf2", "x/pad.sf2", "y/pad.sf2"]);
}

#[test]
fn name_order_is_string_order() {
    assert!(name_le_exec(&chars("abc"), &chars("abd")));
    assert!(!name_le_exec(&chars("abd"), &chars("abc")));
    assert!(name_le_exec(&chars("ab"), &chars("abc")));
    assert!(!name_le_exec(&chars("abc"), &chars("ab")));
    assert!(name_le_exec(&chars(""), &chars("")));
    assert!(name_le_exec(&chars("Zeta"), &chars("alpha")));
    assert_eq!(name_le_exec(&chars("é"), &chars("z")), "é" <= "z");
}

#[test]
fn duplicate_copies_an_entry() {
    let e = entry("pad", "x/pad.sf2");
    let d = e.duplicate();
    assert_eq!(d.name, e.name);
    assert_eq!(d.path, e.path);
}

#[test]
fn soundfont_entry_from_its_parts() {
    let e = soundfont_entry_from_parts("x/Organ.Sf2", Some("Sf2".to_string()), Some("Organ".to_string()))
        .expect("an sf2 file");
    assert_eq!(e.name, "Organ");
    assert_eq!(e.path, "x/Organ.Sf2");
    assert!(soundfont_entry_from_parts("x/a.sf3", Some("sf3".to_string()), Some("a".to_string())).is_none());
    assert!(soundfont_entry_from_parts("x", None, Some("x".to_string())).is_none());
    assert!(soundfont_entry_from_parts(".sf2", Some("sf2".to_string()), None).is_none());
}

#[test]
fn plain_file_names_give_their_entries() {
    let e = soundfont_entry("Piano.SF2").expect("an sf2 file");
    assert_eq!(e.name, "Piano");
    assert_eq!(e.path, "Piano.SF2");
    assert!(soundfont_entry("Piano.sf3").is_none());
    assert!(soundfont_entry(".sf2").is_none());
    let entries = soundfont_entries(&vec!["b.sf2".to_string(), "a.sf2".to_string(), "notes.txt".to_string()]);
    let names: Vec<&str> = entries.iter().map(|e| e.name.as_str()).collect();
    assert_eq!(names, vec!["a", "b"]);
}

#[test]
fn trailing_separators_and_dots_do_not_count() {
    assert_eq!(trim_path_end("song.mid/"), "song.mid");
    assert_eq!(trim_path_end("dir/song.mid/./"), "dir/song.mid");
    assert_eq!(trim_path_end("dir/song.mid//."), "dir/song.mid");
    assert_eq!(trim_path_end("dir/.."), "dir/..");
    assert_eq!(trim_path_end("dir\\x/."), "dir\\x/.");
    assert_eq!(trim_path_end("/"), "");
    assert!(is_midi_path("song.mid/"));
    assert!(is_midi_path("dir/song.mid/."));
    assert!(!is_midi_path("song.mid/.."));
    let e = soundfont_entry("fonts/Piano.sf2/").expect("an sf2 file");
    assert_eq!(e.name, "Piano");
    assert_eq!(e.path, "fonts/Piano.sf2/");
}
