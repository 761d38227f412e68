use opendaw::project::{duplicate_track_name, track_name, track_name_for_path, track_name_from_stem, track_path};
use opendaw::text::trim_text;

#[test]
fn trimming_drops_unicode_whitespace() {
    assert_eq!(trim_text("  Piano \t"), "Piano");
    assert_eq!(trim_text("\u{3000}Lead Vocal\n"), "Lead Vocal");
    assert_eq!(trim_text("   "), "");
    assert_eq!(trim_text(""), "");
    assert_eq!(trim_text("a b"), "a b");
    for s in ["  x  y  ", "\u{a0}z", "q\u{2009}", "\r\n"] {
        assert_eq!(trim_text(s), s.trim());
    }
}

#[test]
fn track_names_must_not_be_blank() {
    assert_eq!(track_name("  Piano  "), Ok("Piano".to_string()));
    assert_eq!(track_name(" \t "), Err("track name cannot be empty".to_string()));
    assert_eq!(track_name(""), Err("track name cannot be empty".to_string()));
}

#[test]
fn track_paths_must_not_be_blank() {
    assert_eq!(track_path(" songs/a.wav "), Ok("songs/a.wav".to_string()));
    assert_eq!(track_path("  "), Err("track path is empty".to_string()));
}

#[test]
fn copies_are_named_after_their_track() {
    assert_eq!(duplicate_track_name("Piano"), "Piano Copy");
    assert_eq!(duplicate_track_name(""), " Copy");
}

#[test]
fn loaded_tracks_are_named_after_their_file() {
    assert_eq!(track_name_for_path("dir/kick.wav"), "kick");
    assert_eq!(track_name_for_path("song.mid"), "song");
    assert_eq!(track_name_for_path(""), "track");
    assert_eq!(track_name_for_path("a.dir/b/snare.take2.wav"), "snare.take2");
    assert_eq!(track_name_for_path("/abs/.hidden"), ".hidden");
    assert_eq!(track_name_for_path("dir/kick.wav/"), "kick");
    assert_eq!(track_name_for_path("dir/kick.wav/."), "kick");
}

#[test]
fn track_names_from_stems() {
    assert_eq!(track_name_from_stem(Some("kick".to_string())), "kick");
    assert_eq!(track_name_from_stem(None), "track");
}
