use vstd::prelude::*;
use crate::text::{opt_text, chars_of, concat_str, push_decimal, decimal, vec_eq_str, spec_trim, trim_text};
use crate::files::{is_piece_of, path_file_stem, is_separated_path, last_part, name_stem, path_end_trimmed, trim_path_end, lemma_trimmed_is_prefix};
use crate::text::occurs_at;

verus! {

/// Path shown for tracks whose MIDI notes live in the project rather than in a file.
pub const RECORDED_MIDI_PATH: &'static str = "<recorded-midi>";

/// Path shown for live keyboard tracks.
pub const LIVE_MIDI_PATH: &'static str = "<live-midi>";

/// Where a track's sound comes from.
#[derive(Debug, Clone, Copy, PartialEq, Eq, Structural)]
pub enum SourceKind {
    Audio,
    Midi,
    MidiLive,
}

/// How a MIDI track is voiced: the built-in synthesizer, or a SoundFont file.
#[derive(Debug, Clone)]
pub enum MidiInstrument {
    Basic,
    SoundFont(String),
}

pub enum InstrumentView {
    Basic,
    SoundFont(Seq<char>),
}

impl View for MidiInstrument {
    type V = InstrumentView;

    open spec fn view(&self) -> InstrumentView {
        match self {
            MidiInstrument::Basic => InstrumentView::Basic,
            MidiInstrument::SoundFont(p) => InstrumentView::SoundFont(p@),
        }
    }
}

pub open spec fn spec_track_type_label(kind: SourceKind) -> Seq<char> {
    match kind {
        SourceKind::Audio => "audio"@,
        SourceKind::Midi => "midi"@,
        SourceKind::MidiLive => "midi-live"@,
    }
}

/// The track type shown in listings.
pub fn track_type_label(kind: SourceKind) -> (r: &'static str)
    ensures
        r@ == spec_track_type_label(kind),
{
    match kind {
        SourceKind::Audio => "audio",
        SourceKind::Midi => "midi",
        SourceKind::MidiLive => "midi-live",
    }
}

pub open spec fn spec_track_source_kind(kind: SourceKind) -> Seq<char> {
    match kind {
        SourceKind::Audio => "audio"@,
        SourceKind::Midi => "midi"@,
        SourceKind::MidiLive => "midi_live"@,
    }
}

/// The source kind written to project files.
pub fn track_source_kind(kind: SourceKind) -> (r: &'static str)
    ensures
        r@ == spec_track_source_kind(kind),
{
    match kind {
        SourceKind::Audio => "audio",
        SourceKind::Midi => "midi",
        SourceKind::MidiLive => "midi_live",
    }
}

/// The source kind a project file entry has when it names none.
pub fn default_source_kind() -> (r: String)
    ensures
        r@ == "audio"@,
{
    String::from_str("audio")
}

/// A MIDI track whose notes were recorded or edited in the application: it has no file of
/// its own and its notes are saved inside the project.
pub open spec fn spec_is_embedded_midi(kind: SourceKind, path: Seq<char>) -> bool {
    kind == SourceKind::Midi && path == RECORDED_MIDI_PATH@
}

pub fn is_embedded_midi_track(kind: SourceKind, path: &str) -> (r: bool)
    ensures
        r == spec_is_embedded_midi(kind, path@),
{
    match kind {
        SourceKind::Midi => {
            let v = chars_of(path);
            vec_eq_str(&v, RECORDED_MIDI_PATH)
        },
        _ => false,
    }
}

pub open spec fn spec_project_track_source_kind(kind: SourceKind, path: Seq<char>) -> Seq<char> {
    if spec_is_embedded_midi(kind, path) { "midi_embedded"@ } else { spec_track_source_kind(kind) }
}

/// The source kind saved for a track.
pub fn project_track_source_kind(kind: SourceKind, path: &str) -> (r: &'static str)
    ensures
        r@ == spec_project_track_source_kind(kind, path@),
{
    if is_embedded_midi_track(kind, path) { "midi_embedded" } else { track_source_kind(kind) }
}

/// Whether a project entry records the track's file path (live and embedded tracks have none).
pub open spec fn spec_saves_file_path(kind: SourceKind, path: Seq<char>) -> bool {
    kind != SourceKind::MidiLive && !spec_is_embedded_midi(kind, path)
}

pub fn saves_file_path(kind: SourceKind, path: &str) -> (r: bool)
    ensures
        r == spec_saves_file_path(kind, path@),
{
    match kind {
        SourceKind::MidiLive => false,
        _ => !is_embedded_midi_track(kind, path),
    }
}

pub open spec fn spec_instrument_label(kind: SourceKind, instrument: InstrumentView) -> Seq<char> {
    match kind {
        SourceKind::Audio => "audio"@,
        _ => match instrument {
            InstrumentView::Basic => "basic"@,
            InstrumentView::SoundFont(_) => "soundfont"@,
        },
    }
}

/// The instrument shown for a track; audio tracks have none.
pub fn instrument_label(kind: SourceKind, instrument: &MidiInstrument) -> (r: &'static str)
    ensures
        r@ == spec_instrument_label(kind, instrument@),
{
    match kind {
        SourceKind::Audio => "audio",
        _ => match instrument {
            MidiInstrument::Basic => "basic",
            MidiInstrument::SoundFont(_) => "soundfont",
        },
    }
}

/// The SoundFont saved for a track: that of a MIDI track playing through one.
pub open spec fn spec_track_midi_soundfont(kind: SourceKind, instrument: InstrumentView) -> Option<Seq<char>> {
    match kind {
        SourceKind::Audio => None,
        _ => match instrument {
            InstrumentView::Basic => None,
            InstrumentView::SoundFont(p) => Some(p),
        },
    }
}

/// The SoundFont a MIDI track plays through, if any.
pub fn track_midi_soundfont(kind: SourceKind, instrument: &MidiInstrument) -> (r: Option<String>)
    ensures
        opt_text(r) == spec_track_midi_soundfont(kind, instrument@),
{
    match kind {
        SourceKind::Audio => None,
        _ => match instrument {
            MidiInstrument::Basic => None,
            MidiInstrument::SoundFont(p) => Some(p.clone()),
        },
    }
}

/// The instrument a saved SoundFont path stands for.
pub open spec fn spec_saved_instrument(saved: Option<Seq<char>>) -> InstrumentView {
    match saved {
        Some(p) => InstrumentView::SoundFont(p),
        None => InstrumentView::Basic,
    }
}

/// The instrument a saved SoundFont path stands for: that SoundFont, or the built-in
/// synthesizer when none was saved.
pub fn saved_instrument(midi_soundfont: Option<String>) -> (r: MidiInstrument)
    ensures
        r@ == spec_saved_instrument(opt_text(midi_soundfont)),
{
    match midi_soundfont {
        Some(p) => MidiInstrument::SoundFont(p),
        None => MidiInstrument::Basic,
    }
}

/// How a project file entry is restored.
#[derive(Debug, Clone, Copy, PartialEq, Eq, Structural)]
pub enum ProjectTrackPlan {
    /// A live keyboard track.
    Live,
    /// A MIDI track rebuilt from the notes saved in the project.
    Embedded,
    /// An audio or MIDI file loaded from the saved path.
    FromFile,
}

pub open spec fn spec_project_track_plan(source_kind: Seq<char>, has_embedded_notes: bool) -> Result<ProjectTrackPlan, Seq<char>> {
    if source_kind == "midi_live"@ {
        Ok(ProjectTrackPlan::Live)
    } else if source_kind == "midi_embedded"@ {
        if has_embedded_notes {
            Ok(ProjectTrackPlan::Embedded)
        } else {
            Err("embedded MIDI track is missing note data"@)
        }
    } else if source_kind == "midi"@ || source_kind == "audio"@ {
        Ok(ProjectTrackPlan::FromFile)
    } else {
        Err("unsupported track source kind `"@ + source_kind + "`"@)
    }
}

/// Decides how to restore a saved track from its source kind.
pub fn project_track_plan(source_kind: &str, has_embedded_notes: bool) -> (r: Result<ProjectTrackPlan, String>)
    ensures
        match r {
            Ok(p) => spec_project_track_plan(source_kind@, has_embedded_notes) == Ok::<ProjectTrackPlan, Seq<char>>(p),
            Err(e) => spec_project_track_plan(source_kind@, has_embedded_notes) == Err::<ProjectTrackPlan, Seq<char>>(e@),
        },
{
    let v = chars_of(source_kind);
    if vec_eq_str(&v, "midi_live") {
        Ok(ProjectTrackPlan::Live)
    } else if vec_eq_str(&v, "midi_embedded") {
        if has_embedded_notes {
            Ok(ProjectTrackPlan::Embedded)
        } else {
            Err(String::from_str("embedded MIDI track is missing note data"))
        }
    } else if vec_eq_str(&v, "midi") || vec_eq_str(&v, "audio") {
        Ok(ProjectTrackPlan::FromFile)
    } else {
        let mut msg = concat_str("unsupported track source kind `", source_kind);
        msg.append("`");
        Err(msg)
    }
}

/// Projects this library writes and reads carry this version.
pub const PROJECT_VERSION: u32 = 1;

pub open spec fn spec_check_project_version(version: u32) -> Result<(), Seq<char>> {
    if version == PROJECT_VERSION {
        Ok(())
    } else {
        Err("unsupported project version "@ + decimal(version as nat))
    }
}

pub fn check_project_version(version: u32) -> (r: Result<(), String>)
    ensures
        match r {
            Ok(()) => spec_check_project_version(version) == Ok::<(), Seq<char>>(()),
            Err(e) => spec_check_project_version(version) == Err::<(), Seq<char>>(e@),
        },
{
    if version == PROJECT_VERSION {
        Ok(())
    } else {
        let mut msg = String::from_str("unsupported project version ");
        push_decimal(&mut msg, version as u64);
        Err(msg)
    }
}

/// A request to change a MIDI track's instrument.
#[derive(Debug, Clone)]
pub enum InstrumentChoice {
    Basic,
    /// A SoundFont at this path; the caller checks that the file exists.
    SoundFontAt(String),
}

pub open spec fn spec_instrument_choice(kind: Seq<char>, soundfont_path: Option<Seq<char>>) -> Result<Option<Seq<char>>, Seq<char>> {
    if kind == "basic"@ {
        Ok(None)
    } else if kind == "soundfont"@ {
        match soundfont_path {
            Some(p) => Ok(Some(p)),
            None => Err("soundfont path is required"@),
        }
    } else {
        Err("unsupported instrument kind `"@ + kind + "`"@)
    }
}

/// Reads an instrument request: "basic", or "soundfont" with a path.
pub fn instrument_choice(kind: &str, soundfont_path: Option<String>) -> (r: Result<InstrumentChoice, String>)
    ensures
        match r {
            Ok(InstrumentChoice::Basic) => spec_instrument_choice(kind@, opt_text(soundfont_path)) == Ok::<Option<Seq<char>>, Seq<char>>(None),
            Ok(InstrumentChoice::SoundFontAt(p)) => spec_instrument_choice(kind@, opt_text(soundfont_path)) == Ok::<Option<Seq<char>>, Seq<char>>(Some(p@)),
            Err(e) => spec_instrument_choice(kind@, opt_text(soundfont_path)) == Err::<Option<Seq<char>>, Seq<char>>(e@),
        },
{
    let v = chars_of(kind);
    if vec_eq_str(&v, "basic") {
        Ok(InstrumentChoice::Basic)
    } else if vec_eq_str(&v, "soundfont") {
        match soundfont_path {
            Some(p) => Ok(InstrumentChoice::SoundFontAt(p)),
            None => Err(String::from_str("soundfont path is required")),
        }
    } else {
        let mut msg = concat_str("unsupported instrument kind `", kind);
        msg.append("`");
        Err(msg)
    }
}

/// The shell's `soundfont` argument: "basic" selects the built-in synthesizer, anything else
/// is a SoundFont path (which the caller checks).
pub fn shell_instrument_choice(value: &str) -> (r: InstrumentChoice)
    ensures
        value@ == "basic"@ ==> r matches InstrumentChoice::Basic,
        value@ != "basic"@ ==> (r matches InstrumentChoice::SoundFontAt(p) && p@ == value@),
{
    let v = chars_of(value);
    if vec_eq_str(&v, "basic") {
        InstrumentChoice::Basic
    } else {
        InstrumentChoice::SoundFontAt(String::from_str(value))
    }
}

// ---------------------------------------------------------------------------------------------
// Messages about tracks

pub open spec fn index_out_of_range_message(index: usize) -> Seq<char> {
    "track index "@ + decimal(index as nat) + " out of range"@
}

pub fn index_out_of_range(index: usize) -> (r: String)
    ensures
        r@ == index_out_of_range_message(index),
{
    let mut msg = String::from_str("track index ");
    push_decimal(&mut msg, index as u64);
    msg.append(" out of range");
    msg
}

pub open spec fn not_midi_message(index: usize) -> Seq<char> {
    "track ["@ + decimal(index as nat) + "] is not a MIDI track"@
}

pub fn not_midi_track(index: usize) -> (r: String)
    ensures
        r@ == not_midi_message(index),
{
    let mut msg = String::from_str("track [");
    push_decimal(&mut msg, index as u64);
    msg.append("] is not a MIDI track");
    msg
}

/// The sample rate of a project: that of its first audio track, else 44100 Hz.
pub open spec fn spec_project_sample_rate(audio_rates: Seq<Option<u32>>) -> u32
    decreases audio_rates.len(),
{
    if audio_rates.len() == 0 {
        44_100
    } else {
        match audio_rates[0] {
            Some(r) => r,
            None => spec_project_sample_rate(audio_rates.drop_first()),
        }
    }
}

/// `audio_rates[i]` is the sample rate of track `i` if it is an audio track.
pub fn project_sample_rate(audio_rates: &Vec<Option<u32>>) -> (r: u32)
    ensures
        r == spec_project_sample_rate(audio_rates@),
{
    let n = audio_rates.len();
    for i in 0..n
        invariant
            n == audio_rates.len(),
            forall|k: int| 0 <= k < i ==> #[trigger] audio_rates@[k] is None,
    {
        if let Some(rate) = audio_rates[i] {
            proof {
                lemma_project_sample_rate(audio_rates@, i as int);
            }
            return rate;
        }
    }
    proof {
        lemma_project_sample_rate(audio_rates@, n as int);
    }
    44_100
}

proof fn lemma_project_sample_rate(s: Seq<Option<u32>>, i: int)
    requires
        0 <= i <= s.len(),
        forall|k: int| 0 <= k < i ==> #[trigger] s[k] is None,
    ensures
        spec_project_sample_rate(s) == if i < s.len() { spec_project_sample_rate(s.skip(i)) } else { 44_100 },
    decreases i,
{
    if i > 0 {
        let t = s.drop_first();
        assert forall|k: int| 0 <= k < i - 1 implies #[trigger] t[k] is None by {
            assert(t[k] == s[k + 1]);
        }
        assert(s[0] is None);
        lemma_project_sample_rate(t, i - 1);
        if i < s.len() {
            assert(t.skip(i - 1) =~= s.skip(i));
        }
    } else if s.len() > 0 {
        assert(s.skip(0) =~= s);
    }
}

// ---------------------------------------------------------------------------------------------
// Track names

/// A track name as typed: surrounding whitespace is dropped and nothing may remain empty.
pub open spec fn spec_track_name(raw: Seq<char>) -> Result<Seq<char>, Seq<char>> {
    if spec_trim(raw).len() == 0 {
        Err("track name cannot be empty"@)
    } else {
        Ok(spec_trim(raw))
    }
}

/// Reads a track name typed by the user.
pub fn track_name(raw: &str) -> (r: Result<String, String>)
    ensures
        match r {
            Ok(n) => spec_track_name(raw@) == Ok::<Seq<char>, Seq<char>>(n@),
            Err(e) => spec_track_name(raw@) == Err::<Seq<char>, Seq<char>>(e@),
        },
{
    let trimmed = trim_text(raw);
    if trimmed.unicode_len() == 0 {
        Err(String::from_str("track name cannot be empty"))
    } else {
        Ok(trimmed)
    }
}

/// A track path as typed: surrounding whitespace is dropped and nothing may remain empty.
pub open spec fn spec_track_path(raw: Seq<char>) -> Result<Seq<char>, Seq<char>> {
    if spec_trim(raw).len() == 0 {
        Err("track path is empty"@)
    } else {
        Ok(spec_trim(raw))
    }
}

/// Reads a track path typed by the user.
pub fn track_path(raw: &str) -> (r: Result<String, String>)
    ensures
        match r {
            Ok(p) => spec_track_path(raw@) == Ok::<Seq<char>, Seq<char>>(p@),
            Err(e) => spec_track_path(raw@) == Err::<Seq<char>, Seq<char>>(e@),
        },
{
    let trimmed = trim_text(raw);
    if trimmed.unicode_len() == 0 {
        Err(String::from_str("track path is empty"))
    } else {
        Ok(trimmed)
    }
}

/// The name of a copy of a track.
pub fn duplicate_track_name(name: &str) -> (r: String)
    ensures
        r@ == name@ + " Copy"@,
{
    concat_str(name, " Copy")
}

/// The name a loaded file's track gets from the file's stem: the stem, or `track` when the
/// file has none.
pub open spec fn spec_track_name_from_stem(stem: Option<Seq<char>>) -> Seq<char> {
    match stem {
        Some(s) => s,
        None => "track"@,
    }
}

/// The name a loaded file's track gets from the file's stem, if it has one.
pub fn track_name_from_stem(stem: Option<String>) -> (r: String)
    ensures
        r@ == spec_track_name_from_stem(opt_text(stem)),
{
    match stem {
        Some(s) => s,
        None => String::from_str("track"),
    }
}

/// The name a loaded file's track gets: the file stem, or `track` when the path has none.
/// For a path whose trimmed form (see `files::path_end_trimmed`) is separated, the stem is that
/// of the text after the last `/`.
pub fn track_name_for_path(path: &str) -> (r: String)
    ensures
        r@ == "track"@ || is_piece_of(path@, r@),
        is_separated_path(path_end_trimmed(path@)) ==> r@ == name_stem(last_part(path_end_trimmed(path@))),
{
    let trimmed = trim_path_end(path);
    let stem = path_file_stem(trimmed.as_str());
    proof {
        lemma_trimmed_is_prefix(path@);
        if stem is Some {
            let st = stem->0@;
            let k = trimmed@.len() as int;
            let i = choose|i: int| occurs_at(trimmed@, st, i);
            assert(path@.take(k).subrange(i, i + st.len()) =~= path@.subrange(i, i + st.len()));
            assert(occurs_at(path@, st, i));
        }
    }
    track_name_from_stem(stem)
}

// ---------------------------------------------------------------------------------------------
// Keyboard routing

/// The keyboard route shown to the user.
#[derive(Debug, Clone)]
pub struct UiKeyboardRoute {
    pub port_index: usize,
    pub port_name: String,
    pub track_index: usize,
    pub track_name: String,
}

/// The name shown for the routed track: its name, or `<missing>` when there is no such track.
pub open spec fn spec_route_track_name(track_names: Seq<String>, track: usize) -> Seq<char> {
    if track < track_names.len() {
        track_names[track as int]@
    } else {
        "<missing>"@
    }
}

/// The keyboard route to show: there is one when a keyboard session is open on a port named
/// `port_name`, a track is routed and the port's index is known.
pub fn keyboard_route_view(
    port_name: Option<&str>,
    track_index: Option<usize>,
    port_index: Option<usize>,
    track_names: &Vec<String>,
) -> (r: Option<UiKeyboardRoute>)
    ensures
        match (port_name, track_index, port_index) {
            (Some(name), Some(t), Some(p)) => r matches Some(v) && v.port_index == p && v.port_name@ == name@
                && v.track_index == t && v.track_name@ == spec_route_track_name(track_names@, t),
            _ => r is None,
        },
{
    match (port_name, track_index, port_index) {
        (Some(name), Some(t), Some(p)) => {
            let track_name = if t < track_names.len() {
                track_names[t].clone()
            } else {
                String::from_str("<missing>")
            };
            Some(UiKeyboardRoute {
                port_index: p,
                port_name: String::from_str(name),
                track_index: t,
                track_name,
            })
        },
        _ => None,
    }
}

/// Which track the keyboard plays, kept pointing at the same track as tracks are removed.
#[derive(Debug, Clone, Copy, PartialEq, Eq, Structural)]
pub struct KeyboardRoute {
    pub track: Option<usize>,
}

pub open spec fn spec_route_after_remove(route: Option<usize>, removed: usize) -> Option<usize> {
    match route {
        Some(t) => if t == removed {
            None
        } else if removed < t {
            Some((t - 1) as usize)
        } else {
            Some(t)
        },
        None => None,
    }
}

impl KeyboardRoute {
    /// Updates the route when track `removed` is deleted: the route is dropped if it played
    /// that track, and follows its track down one place if that track came after it.
    pub fn track_removed(&mut self, removed: usize)
        ensures
            final(self).track == spec_route_after_remove(old(self).track, removed),
    {
        match self.track {
            Some(t) => {
                if t == removed {
                    self.track = None;
                } else if removed < t {
                    self.track = Some(t - 1);
                }
            },
            None => {},
        }
    }
}

/// Why a recording cannot start.
pub open spec fn spec_recording_start_check(
    recording_active: bool,
    keyboard_track: Option<usize>,
    keyboard_connected: bool,
    target: usize,
    target_kind: Option<SourceKind>,
) -> Result<(), Seq<char>> {
    if recording_active {
        Err("recording is already running"@)
    } else if keyboard_track != Some(target) || !keyboard_connected {
        Err("recording requires the keyboard to be connected to the target track"@)
    } else {
        match target_kind {
            None => Err(index_out_of_range_message(target)),
            Some(SourceKind::MidiLive) => Ok(()),
            Some(SourceKind::Midi) => Err("recording currently only supports `midi-live` tracks"@),
            Some(SourceKind::Audio) => Err(not_midi_message(target)),
        }
    }
}

/// Checks that a recording may start on `target` (`target_kind` is `None` when there is no
/// such track): no recording is running, the keyboard plays that track, and it is a live
/// MIDI track.
pub fn recording_start_check(
    recording_active: bool,
    keyboard_track: Option<usize>,
    keyboard_connected: bool,
    target: usize,
    target_kind: Option<SourceKind>,
) -> (r: Result<(), String>)
    ensures
        match r {
            Ok(()) => spec_recording_start_check(recording_active, keyboard_track, keyboard_connected, target, target_kind) == Ok::<(), Seq<char>>(()),
            Err(e) => spec_recording_start_check(recording_active, keyboard_track, keyboard_connected, target, target_kind) == Err::<(), Seq<char>>(e@),
        },
{
    if recording_active {
        return Err(String::from_str("recording is already running"));
    }
    let routed = match keyboard_track {
        Some(t) => t == target,
        None => false,
    };
    if !routed || !keyboard_connected {
        return Err(String::from_str("recording requires the keyboard to be connected to the target track"));
    }
    match target_kind {
        None => Err(index_out_of_range(target)),
        Some(SourceKind::MidiLive) => Ok(()),
        Some(SourceKind::Midi) => Err(String::from_str("recording currently only supports `midi-live` tracks")),
        Some(SourceKind::Audio) => Err(not_midi_track(target)),
    }
}

/// Whether a track takes part in playback and mixing: live tracks are played from the
/// keyboard only.
pub fn is_renderable(kind: SourceKind) -> (r: bool)
    ensures
        r == (kind != SourceKind::MidiLive),
{
    match kind {
        SourceKind::MidiLive => false,
        _ => true,
    }
}

/// The message when nothing can be played or mixed: live tracks are mentioned when present,
/// as they never take part in playback or mixing.
pub fn no_renderable_message(has_live_tracks: bool) -> (r: &'static str)
    ensures
        has_live_tracks ==> r@ == "no renderable tracks loaded; `midi-live` tracks are realtime-only and are not included in `play`/`mix`"@,
        !has_live_tracks ==> r@ == "no renderable tracks loaded"@,
{
    if has_live_tracks {
        "no renderable tracks loaded; `midi-live` tracks are realtime-only and are not included in `play`/`mix`"
    } else {
        "no renderable tracks loaded"
    }
}

/// Removing a track keeps the keyboard on the track it played: the route is dropped when that
/// very track is removed, and otherwise names the same track in the shortened list.
pub proof fn law_route_follows_its_track<T>(tracks: Seq<T>, routed: usize, removed: usize)
    requires
        routed < tracks.len(),
        removed < tracks.len(),
    ensures
        match spec_route_after_remove(Some(routed), removed) {
            Some(t) => routed != removed && t < tracks.remove(removed as int).len()
                && tracks.remove(removed as int)[t as int] == tracks[routed as int],
            None => routed == removed,
        },
{
}

/// A saved project is read back as it was written: the source kind saved for a track leads
/// back to the same kind of track (a live track, an embedded MIDI track when its notes were
/// saved, or a file track exactly when the track's path is saved).
pub proof fn law_saved_track_kind_round_trip(kind: SourceKind, path: Seq<char>, has_embedded_notes: bool)
    ensures
        spec_project_track_plan(spec_project_track_source_kind(kind, path), has_embedded_notes) == (
            if kind == SourceKind::MidiLive {
                Ok::<ProjectTrackPlan, Seq<char>>(ProjectTrackPlan::Live)
            } else if spec_is_embedded_midi(kind, path) {
                if has_embedded_notes {
                    Ok(ProjectTrackPlan::Embedded)
                } else {
                    Err("embedded MIDI track is missing note data"@)
                }
            } else {
                Ok(ProjectTrackPlan::FromFile)
            }
        ),
        spec_saves_file_path(kind, path) <==> (kind != SourceKind::MidiLive && !spec_is_embedded_midi(kind, path)),
{
    reveal_strlit("midi_live");
    reveal_strlit("midi_embedded");
    reveal_strlit("midi");
    reveal_strlit("audio");
    assert("midi_embedded"@.len() != "midi_live"@.len());
    assert("midi"@.len() != "midi_live"@.len());
    assert("audio"@.len() != "midi_live"@.len());
    assert("midi"@.len() != "midi_embedded"@.len());
    assert("audio"@.len() != "midi_embedded"@.len());
}

/// A MIDI track's instrument survives saving and reopening: the SoundFont path saved for it
/// gives back the same instrument.
pub proof fn law_saved_instrument_round_trip(kind: SourceKind, instrument: InstrumentView)
    requires
        kind != SourceKind::Audio,
    ensures
        spec_saved_instrument(spec_track_midi_soundfont(kind, instrument)) == instrument,
{
}

} // verus!
