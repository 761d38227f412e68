use vstd::prelude::*;
use crate::text::{
    opt_text, chars_of, concat_str, find_space, first_space, parse_usize, spec_parse_usize,
    split_words, string_from_chars, string_from_range, vec_eq_str, words,
};

verus! {

/// The two per-track switches a shell command can flip.
#[derive(Debug, Clone, Copy, PartialEq, Eq, Structural)]
pub enum ToggleField {
    Mute,
    Solo,
}

/// The kinds of numeric argument a track command takes; the number itself is read by the
/// caller.
#[derive(Debug, Clone, Copy, PartialEq, Eq, Structural)]
pub enum NumberArg {
    Gain,
    OffsetSeconds,
    SpeedRatio,
    PitchSemitones,
    NotesAtSeconds,
}

/// A parsed shell command. Numbers other than indices are kept as typed.
#[derive(Debug)]
pub enum ShellCommand {
    Help,
    Load { path: String, gain: Option<String> },
    MidiLive { name: String },
    SetSoundfont { index: usize, value: String },
    KeyboardList,
    KeyboardConnect { port_index: usize, track_index: usize },
    KeyboardDisconnect,
    KeyboardStatus,
    MonitorStart { port_index: usize },
    MonitorStop,
    MonitorStatus,
    RecordStart { track_index: usize },
    RecordStop,
    RecordStatus,
    List,
    TrackNumber { index: usize, arg: NumberArg, value: String },
    Toggle { index: usize, field: ToggleField, action: String },
    Rename { index: usize, name: String },
    Remove { index: usize },
    Clear,
    Mix { output: String },
    Play,
    Pause,
    Resume,
    Stop,
    Latency { mode: String },
    Save { path: String },
    Open { path: String },
    Exit,
}

/// `ShellCommand` with its texts as character sequences.
pub enum CommandView {
    Help,
    Load { path: Seq<char>, gain: Option<Seq<char>> },
    MidiLive { name: Seq<char> },
    SetSoundfont { index: usize, value: Seq<char> },
    KeyboardList,
    KeyboardConnect { port_index: usize, track_index: usize },
    KeyboardDisconnect,
    KeyboardStatus,
    MonitorStart { port_index: usize },
    MonitorStop,
    MonitorStatus,
    RecordStart { track_index: usize },
    RecordStop,
    RecordStatus,
    List,
    TrackNumber { index: usize, arg: NumberArg, value: Seq<char> },
    Toggle { index: usize, field: ToggleField, action: Seq<char> },
    Rename { index: usize, name: Seq<char> },
    Remove { index: usize },
    Clear,
    Mix { output: Seq<char> },
    Play,
    Pause,
    Resume,
    Stop,
    Latency { mode: Seq<char> },
    Save { path: Seq<char> },
    Open { path: Seq<char> },
    Exit,
}

impl View for ShellCommand {
    type V = CommandView;

    open spec fn view(&self) -> CommandView {
        match self {
            ShellCommand::Help => CommandView::Help,
            ShellCommand::Load { path, gain } => CommandView::Load { path: path@, gain: opt_text(*gain) },
            ShellCommand::MidiLive { name } => CommandView::MidiLive { name: name@ },
            ShellCommand::SetSoundfont { index, value } => CommandView::SetSoundfont { index: *index, value: value@ },
            ShellCommand::KeyboardList => CommandView::KeyboardList,
            ShellCommand::KeyboardConnect { port_index, track_index } =>
                CommandView::KeyboardConnect { port_index: *port_index, track_index: *track_index },
            ShellCommand::KeyboardDisconnect => CommandView::KeyboardDisconnect,
            ShellCommand::KeyboardStatus => CommandView::KeyboardStatus,
            ShellCommand::MonitorStart { port_index } => CommandView::MonitorStart { port_index: *port_index },
            ShellCommand::MonitorStop => CommandView::MonitorStop,
            ShellCommand::MonitorStatus => CommandView::MonitorStatus,
            ShellCommand::RecordStart { track_index } => CommandView::RecordStart { track_index: *track_index },
            ShellCommand::RecordStop => CommandView::RecordStop,
            ShellCommand::RecordStatus => CommandView::RecordStatus,
            ShellCommand::List => CommandView::List,
            ShellCommand::TrackNumber { index, arg, value } =>
                CommandView::TrackNumber { index: *index, arg: *arg, value: value@ },
            ShellCommand::Toggle { index, field, action } =>
                CommandView::Toggle { index: *index, field: *field, action: action@ },
            ShellCommand::Rename { index, name } => CommandView::Rename { index: *index, name: name@ },
            ShellCommand::Remove { index } => CommandView::Remove { index: *index },
            ShellCommand::Clear => CommandView::Clear,
            ShellCommand::Mix { output } => CommandView::Mix { output: output@ },
            ShellCommand::Play => CommandView::Play,
            ShellCommand::Pause => CommandView::Pause,
            ShellCommand::Resume => CommandView::Resume,
            ShellCommand::Stop => CommandView::Stop,
            ShellCommand::Latency { mode } => CommandView::Latency { mode: mode@ },
            ShellCommand::Save { path } => CommandView::Save { path: path@ },
            ShellCommand::Open { path } => CommandView::Open { path: path@ },
            ShellCommand::Exit => CommandView::Exit,
        }
    }
}

// ---------------------------------------------------------------------------------------------
// The grammar

pub open spec fn word_at(t: Seq<Seq<char>>, i: int) -> Option<Seq<char>> {
    if 0 <= i < t.len() { Some(t[i]) } else { None }
}

pub open spec fn invalid_index_message(raw: Seq<char>) -> Seq<char> {
    "invalid track index `"@ + raw + "`"@
}

/// A required index argument: missing gives the usage text, unreadable gives the
/// invalid-index message.
pub open spec fn index_arg(w: Option<Seq<char>>, usage: Seq<char>) -> Result<usize, Seq<char>> {
    match w {
        None => Err(usage),
        Some(raw) => match spec_parse_usize(raw) {
            Some(i) => Ok(i),
            None => Err(invalid_index_message(raw)),
        },
    }
}

pub open spec fn number_usage(arg: NumberArg) -> Seq<char> {
    match arg {
        NumberArg::Gain => "usage: gain <track_index> <gain>"@,
        NumberArg::OffsetSeconds => "usage: offset <track_index> <seconds>"@,
        NumberArg::SpeedRatio => "usage: speed <track_index> <ratio>"@,
        NumberArg::PitchSemitones => "usage: pitch <track_index> <semitones>"@,
        NumberArg::NotesAtSeconds => "usage: notes <track_index> <seconds>"@,
    }
}

/// The message given when a numeric argument cannot be read as a number.
pub open spec fn number_error(arg: NumberArg) -> Seq<char> {
    match arg {
        NumberArg::Gain => "invalid gain"@,
        NumberArg::OffsetSeconds => "invalid offset seconds"@,
        NumberArg::SpeedRatio => "invalid speed ratio"@,
        NumberArg::PitchSemitones => "invalid semitone value"@,
        NumberArg::NotesAtSeconds => "invalid seconds"@,
    }
}

pub open spec fn number_command(t: Seq<Seq<char>>, arg: NumberArg) -> Result<CommandView, Seq<char>> {
    match index_arg(word_at(t, 1), number_usage(arg)) {
        Err(e) => Err(e),
        Ok(index) => match word_at(t, 2) {
            None => Err(number_usage(arg)),
            Some(value) => Ok(CommandView::TrackNumber { index, arg, value }),
        },
    }
}

pub open spec fn toggle_usage(field: ToggleField) -> Seq<char> {
    match field {
        ToggleField::Mute => "usage: mute <track_index> [on|off|toggle]"@,
        ToggleField::Solo => "usage: solo <track_index> [on|off|toggle]"@,
    }
}

pub open spec fn toggle_command(t: Seq<Seq<char>>, field: ToggleField) -> Result<CommandView, Seq<char>> {
    match index_arg(word_at(t, 1), toggle_usage(field)) {
        Err(e) => Err(e),
        Ok(index) => Ok(CommandView::Toggle {
            index,
            field,
            action: match word_at(t, 2) { Some(a) => a, None => "toggle"@ },
        }),
    }
}

/// A command whose only argument is a required word.
pub open spec fn word_command(t: Seq<Seq<char>>, usage: Seq<char>, make: spec_fn(Seq<char>) -> CommandView) -> Result<CommandView, Seq<char>> {
    match word_at(t, 1) {
        None => Err(usage),
        Some(w) => Ok(make(w)),
    }
}

pub open spec fn keyboard_command(t: Seq<Seq<char>>) -> Result<CommandView, Seq<char>> {
    match word_at(t, 1) {
        None => Err("usage: keyboard <list|connect|disconnect|status|monitor> ..."@),
        Some(action) => if action == "list"@ {
            Ok(CommandView::KeyboardList)
        } else if action == "connect"@ {
            match index_arg(word_at(t, 2), "usage: keyboard connect <port_index> <track_index>"@) {
                Err(e) => Err(e),
                Ok(port_index) => match index_arg(word_at(t, 3), "usage: keyboard connect <port_index> <track_index>"@) {
                    Err(e) => Err(e),
                    Ok(track_index) => Ok(CommandView::KeyboardConnect { port_index, track_index }),
                },
            }
        } else if action == "disconnect"@ {
            Ok(CommandView::KeyboardDisconnect)
        } else if action == "status"@ {
            Ok(CommandView::KeyboardStatus)
        } else if action == "monitor"@ {
            match word_at(t, 2) {
                None => Err("usage: keyboard monitor <port_index|stop|status>"@),
                Some(v) => if v == "stop"@ {
                    Ok(CommandView::MonitorStop)
                } else if v == "status"@ {
                    Ok(CommandView::MonitorStatus)
                } else {
                    match index_arg(Some(v), Seq::empty()) {
                        Err(e) => Err(e),
                        Ok(port_index) => Ok(CommandView::MonitorStart { port_index }),
                    }
                },
            }
        } else {
            Err("unknown keyboard action `"@ + action + "`; use list, connect, disconnect, status, or monitor"@)
        },
    }
}

pub open spec fn record_command(t: Seq<Seq<char>>, keyboard_track: Option<usize>) -> Result<CommandView, Seq<char>> {
    match word_at(t, 1) {
        None => Err("usage: record <start|stop|status> ..."@),
        Some(action) => if action == "start"@ {
            match word_at(t, 2) {
                Some(raw) => match index_arg(Some(raw), Seq::empty()) {
                    Err(e) => Err(e),
                    Ok(track_index) => Ok(CommandView::RecordStart { track_index }),
                },
                None => match keyboard_track {
                    Some(track_index) => Ok(CommandView::RecordStart { track_index }),
                    None => Err("usage: record start <track_index>"@),
                },
            }
        } else if action == "stop"@ {
            Ok(CommandView::RecordStop)
        } else if action == "status"@ {
            Ok(CommandView::RecordStatus)
        } else {
            Err("unknown record action `"@ + action + "`; use start, stop, or status"@)
        },
    }
}

/// Text after the first space of the line, if the line has one (`splitn(2, ' ')`).
pub open spec fn after_first_space(line: Seq<char>) -> Option<Seq<char>> {
    match first_space(line) {
        Some(i) => Some(line.skip(i + 1)),
        None => None,
    }
}

pub open spec fn midi_live_command(line: Seq<char>) -> Result<CommandView, Seq<char>> {
    Ok(CommandView::MidiLive {
        name: match after_first_space(line) { Some(rest) => rest, None => "live_midi"@ },
    })
}

/// `rename <index> <name>`: the line is split at its first two spaces, so the name keeps
/// any spaces it contains.
pub open spec fn rename_command(line: Seq<char>) -> Result<CommandView, Seq<char>> {
    let usage = "usage: rename <track_index> <new_name>"@;
    match after_first_space(line) {
        None => Err(usage),
        Some(rest) => {
            let (index_text, name) = match first_space(rest) {
                Some(j) => (rest.take(j), Some(rest.skip(j + 1))),
                None => (rest, None),
            };
            match index_arg(Some(index_text), usage) {
                Err(e) => Err(e),
                Ok(index) => match name {
                    None => Err(usage),
                    Some(name) => Ok(CommandView::Rename { index, name }),
                },
            }
        },
    }
}

/// What a shell line asks for. `keyboard_track` is the track the keyboard is routed to,
/// which `record start` uses when it names no track.
pub open spec fn spec_parse_command(line: Seq<char>, keyboard_track: Option<usize>) -> Result<CommandView, Seq<char>> {
    let t = words(line);
    if t.len() == 0 {
        Err("empty command"@)
    } else {
        let c = t[0];
        if c == "help"@ {
            Ok(CommandView::Help)
        } else if c == "load"@ {
            match word_at(t, 1) {
                None => Err("usage: load <path.wav|path.mid> [gain]"@),
                Some(path) => Ok(CommandView::Load { path, gain: word_at(t, 2) }),
            }
        } else if c == "midi-live"@ {
            midi_live_command(line)
        } else if c == "soundfont"@ {
            match index_arg(word_at(t, 1), "usage: soundfont <track_index> <path.sf2|basic>"@) {
                Err(e) => Err(e),
                Ok(index) => match word_at(t, 2) {
                    None => Err("usage: soundfont <track_index> <path.sf2|basic>"@),
                    Some(value) => Ok(CommandView::SetSoundfont { index, value }),
                },
            }
        } else if c == "keyboard"@ {
            keyboard_command(t)
        } else if c == "record"@ {
            record_command(t, keyboard_track)
        } else if c == "list"@ {
            Ok(CommandView::List)
        } else if c == "gain"@ {
            number_command(t, NumberArg::Gain)
        } else if c == "mute"@ {
            toggle_command(t, ToggleField::Mute)
        } else if c == "solo"@ {
            toggle_command(t, ToggleField::Solo)
        } else if c == "rename"@ {
            rename_command(line)
        } else if c == "offset"@ {
            number_command(t, NumberArg::OffsetSeconds)
        } else if c == "speed"@ {
            number_command(t, NumberArg::SpeedRatio)
        } else if c == "pitch"@ {
            number_command(t, NumberArg::PitchSemitones)
        } else if c == "notes"@ {
            number_command(t, NumberArg::NotesAtSeconds)
        } else if c == "remove"@ {
            match index_arg(word_at(t, 1), "usage: remove <track_index>"@) {
                Err(e) => Err(e),
                Ok(index) => Ok(CommandView::Remove { index }),
            }
        } else if c == "clear"@ {
            Ok(CommandView::Clear)
        } else if c == "mix"@ {
            word_command(t, "usage: mix <output.wav>"@, |w: Seq<char>| CommandView::Mix { output: w })
        } else if c == "play"@ {
            Ok(CommandView::Play)
        } else if c == "pause"@ {
            Ok(CommandView::Pause)
        } else if c == "resume"@ {
            Ok(CommandView::Resume)
        } else if c == "stop"@ {
            Ok(CommandView::Stop)
        } else if c == "latency"@ {
            word_command(t, "usage: latency <low|balanced|safe>"@, |w: Seq<char>| CommandView::Latency { mode: w })
        } else if c == "save"@ {
            word_command(t, "usage: save <project.json>"@, |w: Seq<char>| CommandView::Save { path: w })
        } else if c == "open"@ {
            word_command(t, "usage: open <project.json>"@, |w: Seq<char>| CommandView::Open { path: w })
        } else if c == "quit"@ || c == "exit"@ {
            Ok(CommandView::Exit)
        } else {
            Err("unknown command `"@ + c + "`; type `help`"@)
        }
    }
}


// ---------------------------------------------------------------------------------------------
// The parser

pub open spec fn words_view(t: Seq<Vec<char>>) -> Seq<Seq<char>> {
    t.map_values(|w: Vec<char>| w@)
}

pub open spec fn command_result_view(r: Result<ShellCommand, String>) -> Result<CommandView, Seq<char>> {
    match r {
        Ok(c) => Ok(c@),
        Err(e) => Err(e@),
    }
}

pub open spec fn index_result_view(r: Result<usize, String>) -> Result<usize, Seq<char>> {
    match r {
        Ok(i) => Ok(i),
        Err(e) => Err(e@),
    }
}

fn word_string(t: &Vec<Vec<char>>, i: usize) -> (r: Option<String>)
    ensures
        opt_text(r) == word_at(words_view(t@), i as int),
{
    if i < t.len() {
        Some(string_from_chars(&t[i]))
    } else {
        None
    }
}

fn word_is(t: &Vec<Vec<char>>, i: usize, lit: &str) -> (r: bool)
    ensures
        r == (word_at(words_view(t@), i as int) == Some(lit@)),
{
    if i < t.len() {
        vec_eq_str(&t[i], lit)
    } else {
        false
    }
}

/// Reads a track or port index (`str::parse::<usize>`), with the shell's message on failure.
pub fn parse_index(raw: &str) -> (r: Result<usize, String>)
    ensures
        index_result_view(r) == index_arg(Some(raw@), Seq::empty()),
{
    let v = chars_of(raw);
    index_from_chars(&v)
}

fn index_from_chars(w: &Vec<char>) -> (r: Result<usize, String>)
    ensures
        index_result_view(r) == index_arg(Some(w@), Seq::empty()),
{
    proof {
        assert(w@.subrange(0, w@.len() as int) =~= w@);
    }
    match parse_usize(w, 0, w.len()) {
        Some(i) => Ok(i),
        None => {
            let mut msg = String::from_str("invalid track index `");
            let raw = string_from_chars(w);
            msg.append(raw.as_str());
            msg.append("`");
            Err(msg)
        },
    }
}

fn index_arg_exec(t: &Vec<Vec<char>>, i: usize, usage: &str) -> (r: Result<usize, String>)
    ensures
        index_result_view(r) == index_arg(word_at(words_view(t@), i as int), usage@),
{
    if i < t.len() {
        index_from_chars(&t[i])
    } else {
        Err(String::from_str(usage))
    }
}

fn number_command_exec(t: &Vec<Vec<char>>, arg: NumberArg, usage: &str) -> (r: Result<ShellCommand, String>)
    requires
        usage@ == number_usage(arg),
    ensures
        command_result_view(r) == number_command(words_view(t@), arg),
{
    let index = match index_arg_exec(t, 1, usage) {
        Ok(i) => i,
        Err(e) => return Err(e),
    };
    match word_string(t, 2) {
        None => Err(String::from_str(usage)),
        Some(value) => Ok(ShellCommand::TrackNumber { index, arg, value }),
    }
}

fn toggle_command_exec(t: &Vec<Vec<char>>, field: ToggleField, usage: &str) -> (r: Result<ShellCommand, String>)
    requires
        usage@ == toggle_usage(field),
    ensures
        command_result_view(r) == toggle_command(words_view(t@), field),
{
    let index = match index_arg_exec(t, 1, usage) {
        Ok(i) => i,
        Err(e) => return Err(e),
    };
    let action = match word_string(t, 2) {
        Some(a) => a,
        None => String::from_str("toggle"),
    };
    Ok(ShellCommand::Toggle { index, field, action })
}

fn keyboard_command_exec(t: &Vec<Vec<char>>) -> (r: Result<ShellCommand, String>)
    ensures
        command_result_view(r) == keyboard_command(words_view(t@)),
{
    if t.len() < 2 {
        return Err(String::from_str("usage: keyboard <list|connect|disconnect|status|monitor> ..."));
    }
    if word_is(t, 1, "list") {
        Ok(ShellCommand::KeyboardList)
    } else if word_is(t, 1, "connect") {
        let usage = "usage: keyboard connect <port_index> <track_index>";
        let port_index = match index_arg_exec(t, 2, usage) {
            Ok(i) => i,
            Err(e) => return Err(e),
        };
        let track_index = match index_arg_exec(t, 3, usage) {
            Ok(i) => i,
            Err(e) => return Err(e),
        };
        Ok(ShellCommand::KeyboardConnect { port_index, track_index })
    } else if word_is(t, 1, "disconnect") {
        Ok(ShellCommand::KeyboardDisconnect)
    } else if word_is(t, 1, "status") {
        Ok(ShellCommand::KeyboardStatus)
    } else if word_is(t, 1, "monitor") {
        if t.len() < 3 {
            Err(String::from_str("usage: keyboard monitor <port_index|stop|status>"))
        } else if word_is(t, 2, "stop") {
            Ok(ShellCommand::MonitorStop)
        } else if word_is(t, 2, "status") {
            Ok(ShellCommand::MonitorStatus)
        } else {
            match index_from_chars(&t[2]) {
                Ok(port_index) => Ok(ShellCommand::MonitorStart { port_index }),
                Err(e) => Err(e),
            }
        }
    } else {
        let mut msg = String::from_str("unknown keyboard action `");
        let action = string_from_chars(&t[1]);
        msg.append(action.as_str());
        msg.append("`; use list, connect, disconnect, status, or monitor");
        Err(msg)
    }
}

fn record_command_exec(t: &Vec<Vec<char>>, keyboard_track: Option<usize>) -> (r: Result<ShellCommand, String>)
    ensures
        command_result_view(r) == record_command(words_view(t@), keyboard_track),
{
    if t.len() < 2 {
        return Err(String::from_str("usage: record <start|stop|status> ..."));
    }
    if word_is(t, 1, "start") {
        if t.len() >= 3 {
            match index_from_chars(&t[2]) {
                Ok(track_index) => Ok(ShellCommand::RecordStart { track_index }),
                Err(e) => Err(e),
            }
        } else {
            match keyboard_track {
                Some(track_index) => Ok(ShellCommand::RecordStart { track_index }),
                None => Err(String::from_str("usage: record start <track_index>")),
            }
        }
    } else if word_is(t, 1, "stop") {
        Ok(ShellCommand::RecordStop)
    } else if word_is(t, 1, "status") {
        Ok(ShellCommand::RecordStatus)
    } else {
        let mut msg = String::from_str("unknown record action `");
        let action = string_from_chars(&t[1]);
        msg.append(action.as_str());
        msg.append("`; use start, stop, or status");
        Err(msg)
    }
}

fn rename_command_exec(line: &Vec<char>) -> (r: Result<ShellCommand, String>)
    ensures
        command_result_view(r) == rename_command(line@),
{
    let usage = "usage: rename <track_index> <new_name>";
    let first = match find_space(line, 0) {
        Some(i) => i,
        None => {
            proof { assert(line@.skip(0) =~= line@); }
            return Err(String::from_str(usage));
        },
    };
    proof { assert(line@.skip(0) =~= line@); }
    let rest_start = first + 1;
    let ghost rest = line@.skip(rest_start as int);
    let second = find_space(line, rest_start);
    let index_end = match second {
        Some(j) => j,
        None => line.len(),
    };
    let index_text = string_from_range(line, rest_start, index_end);
    proof {
        match first_space(rest) {
            Some(j) => {
                assert(second == Some((rest_start + j) as usize));
                assert(index_end == rest_start + j);
                assert(index_text@ == line@.subrange(rest_start as int, rest_start + j));
                assert(index_text@ =~= rest.take(j));
            },
            None => {
                assert(index_text@ =~= rest);
            },
        }
    }
    let index_chars = chars_of(index_text.as_str());
    let index = match parse_usize(&index_chars, 0, index_chars.len()) {
        Some(i) => i,
        None => {
            proof { assert(index_chars@.subrange(0, index_chars@.len() as int) =~= index_chars@); }
            let mut msg = String::from_str("invalid track index `");
            msg.append(index_text.as_str());
            msg.append("`");
            return Err(msg);
        },
    };
    proof { assert(index_chars@.subrange(0, index_chars@.len() as int) =~= index_chars@); }
    match second {
        None => Err(String::from_str(usage)),
        Some(j) => {
            let name = string_from_range(line, j + 1, line.len());
            proof {
                let jj = first_space(rest)->0;
                assert(name@ =~= rest.skip(jj + 1));
            }
            Ok(ShellCommand::Rename { index, name })
        },
    }
}

fn midi_live_command_exec(line: &Vec<char>) -> (r: Result<ShellCommand, String>)
    ensures
        command_result_view(r) == midi_live_command(line@),
{
    proof { assert(line@.skip(0) =~= line@); }
    match find_space(line, 0) {
        Some(i) => {
            let name = string_from_range(line, i + 1, line.len());
            proof {
                assert(first_space(line@) == Some(i as int));
                assert(name@ =~= line@.skip(i + 1));
                assert(after_first_space(line@) == Some(name@));
            }
            Ok(ShellCommand::MidiLive { name })
        },
        None => Ok(ShellCommand::MidiLive { name: String::from_str("live_midi") }),
    }
}

fn word_command_arg(t: &Vec<Vec<char>>, usage: &str) -> (r: Result<String, String>)
    ensures
        match r {
            Ok(w) => word_at(words_view(t@), 1) == Some(w@),
            Err(e) => word_at(words_view(t@), 1) is None && e@ == usage@,
        },
{
    match word_string(t, 1) {
        Some(w) => Ok(w),
        None => Err(String::from_str(usage)),
    }
}

/// Parses one shell line into a command (see `spec_parse_command`).
pub fn parse_command(line: &str, keyboard_track: Option<usize>) -> (r: Result<ShellCommand, String>)
    ensures
        command_result_view(r) == spec_parse_command(line@, keyboard_track),
{
    let chars = chars_of(line);
    let t = split_words(&chars);
    let ghost tv = words_view(t@);
    assert(tv == words(line@));
    if t.len() == 0 {
        return Err(String::from_str("empty command"));
    }
    if word_is(&t, 0, "help") {
        Ok(ShellCommand::Help)
    } else if word_is(&t, 0, "load") {
        match word_string(&t, 1) {
            None => Err(String::from_str("usage: load <path.wav|path.mid> [gain]")),
            Some(path) => Ok(ShellCommand::Load { path, gain: word_string(&t, 2) }),
        }
    } else if word_is(&t, 0, "midi-live") {
        midi_live_command_exec(&chars)
    } else if word_is(&t, 0, "soundfont") {
        let usage = "usage: soundfont <track_index> <path.sf2|basic>";
        let index = match index_arg_exec(&t, 1, usage) {
            Ok(i) => i,
            Err(e) => return Err(e),
        };
        match word_string(&t, 2) {
            None => Err(String::from_str(usage)),
            Some(value) => Ok(ShellCommand::SetSoundfont { index, value }),
        }
    } else if word_is(&t, 0, "keyboard") {
        keyboard_command_exec(&t)
    } else if word_is(&t, 0, "record") {
        record_command_exec(&t, keyboard_track)
    } else if word_is(&t, 0, "list") {
        Ok(ShellCommand::List)
    } else if word_is(&t, 0, "gain") {
        number_command_exec(&t, NumberArg::Gain, "usage: gain <track_index> <gain>")
    } else if word_is(&t, 0, "mute") {
        toggle_command_exec(&t, ToggleField::Mute, "usage: mute <track_index> [on|off|toggle]")
    } else if word_is(&t, 0, "solo") {
        toggle_command_exec(&t, ToggleField::Solo, "usage: solo <track_index> [on|off|toggle]")
    } else if word_is(&t, 0, "rename") {
        rename_command_exec(&chars)
    } else if word_is(&t, 0, "offset") {
        number_command_exec(&t, NumberArg::OffsetSeconds, "usage: offset <track_index> <seconds>")
    } else if word_is(&t, 0, "speed") {
        number_command_exec(&t, NumberArg::SpeedRatio, "usage: speed <track_index> <ratio>")
    } else if word_is(&t, 0, "pitch") {
        number_command_exec(&t, NumberArg::PitchSemitones, "usage: pitch <track_index> <semitones>")
    } else if word_is(&t, 0, "notes") {
        number_command_exec(&t, NumberArg::NotesAtSeconds, "usage: notes <track_index> <seconds>")
    } else if word_is(&t, 0, "remove") {
        match index_arg_exec(&t, 1, "usage: remove <track_index>") {
            Ok(index) => Ok(ShellCommand::Remove { index }),
            Err(e) => Err(e),
        }
    } else if word_is(&t, 0, "clear") {
        Ok(ShellCommand::Clear)
    } else if word_is(&t, 0, "mix") {
        match word_command_arg(&t, "usage: mix <output.wav>") {
            Ok(output) => Ok(ShellCommand::Mix { output }),
            Err(e) => Err(e),
        }
    } else if word_is(&t, 0, "play") {
        Ok(ShellCommand::Play)
    } else if word_is(&t, 0, "pause") {
        Ok(ShellCommand::Pause)
    } else if word_is(&t, 0, "resume") {
        Ok(ShellCommand::Resume)
    } else if word_is(&t, 0, "stop") {
        Ok(ShellCommand::Stop)
    } else if word_is(&t, 0, "latency") {
        match word_command_arg(&t, "usage: latency <low|balanced|safe>") {
            Ok(mode) => Ok(ShellCommand::Latency { mode }),
            Err(e) => Err(e),
        }
    } else if word_is(&t, 0, "save") {
        match word_command_arg(&t, "usage: save <project.json>") {
            Ok(path) => Ok(ShellCommand::Save { path }),
            Err(e) => Err(e),
        }
    } else if word_is(&t, 0, "open") {
        match word_command_arg(&t, "usage: open <project.json>") {
            Ok(path) => Ok(ShellCommand::Open { path }),
            Err(e) => Err(e),
        }
    } else if word_is(&t, 0, "quit") || word_is(&t, 0, "exit") {
        Ok(ShellCommand::Exit)
    } else {
        let mut msg = String::from_str("unknown command `");
        let c = string_from_chars(&t[0]);
        msg.append(c.as_str());
        msg.append("`; type `help`");
        Err(msg)
    }
}


// ---------------------------------------------------------------------------------------------
// Switches and numeric arguments

pub open spec fn spec_toggle_label(field: ToggleField) -> Seq<char> {
    match field {
        ToggleField::Mute => "mute"@,
        ToggleField::Solo => "solo"@,
    }
}

impl ToggleField {
    /// The switch's name as shown to users.
    pub fn label(self) -> (r: &'static str)
        ensures
            r@ == spec_toggle_label(self),
    {
        match self {
            ToggleField::Mute => "mute",
            ToggleField::Solo => "solo",
        }
    }
}

/// New state of a switch for a toggle action: "on", "off", or "toggle" (flips it).
pub open spec fn spec_toggle_value(action: Seq<char>, current: bool) -> Result<bool, Seq<char>> {
    if action == "toggle"@ {
        Ok(!current)
    } else if action == "on"@ {
        Ok(true)
    } else if action == "off"@ {
        Ok(false)
    } else {
        Err("invalid toggle action `"@ + action + "`; use on, off, or toggle"@)
    }
}

pub fn toggle_value(action: &str, current: bool) -> (r: Result<bool, String>)
    ensures
        match r {
            Ok(b) => spec_toggle_value(action@, current) == Ok::<bool, Seq<char>>(b),
            Err(e) => spec_toggle_value(action@, current) == Err::<bool, Seq<char>>(e@),
        },
{
    let v = chars_of(action);
    if vec_eq_str(&v, "toggle") {
        Ok(!current)
    } else if vec_eq_str(&v, "on") {
        Ok(true)
    } else if vec_eq_str(&v, "off") {
        Ok(false)
    } else {
        let mut msg = concat_str("invalid toggle action `", action);
        msg.append("`; use on, off, or toggle");
        Err(msg)
    }
}

impl NumberArg {
    /// The message for a numeric argument that is not a number.
    pub fn error_message(self) -> (r: &'static str)
        ensures
            r@ == number_error(self),
    {
        match self {
            NumberArg::Gain => "invalid gain",
            NumberArg::OffsetSeconds => "invalid offset seconds",
            NumberArg::SpeedRatio => "invalid speed ratio",
            NumberArg::PitchSemitones => "invalid semitone value",
            NumberArg::NotesAtSeconds => "invalid seconds",
        }
    }
}

/// `toggle` flips a switch, so toggling twice leaves it as it was; `on` and `off` set it
/// whatever it was.
pub proof fn law_toggle_actions(current: bool)
    ensures
        spec_toggle_value("toggle"@, current) == Ok::<bool, Seq<char>>(!current),
        spec_toggle_value("toggle"@, !current) == Ok::<bool, Seq<char>>(current),
        spec_toggle_value("on"@, current) == Ok::<bool, Seq<char>>(true),
        spec_toggle_value("off"@, current) == Ok::<bool, Seq<char>>(false),
{
    reveal_strlit("toggle");
    reveal_strlit("on");
    reveal_strlit("off");
    assert("on"@.len() != "toggle"@.len());
    assert("off"@.len() != "toggle"@.len());
    assert("off"@.len() != "on"@.len());
}

/// `record start` with a track index records on that track, whatever track the keyboard is
/// routed to; only when it names no track does it take the keyboard's track, and with no
/// keyboard routed it is refused.
pub proof fn law_record_start_takes_the_named_track(line: Seq<char>, keyboard_track: Option<usize>, index: usize)
    requires
        words(line).len() >= 2,
        words(line)[0] == "record"@,
        words(line)[1] == "start"@,
    ensures
        words(line).len() >= 3 && spec_parse_usize(words(line)[2]) == Some(index)
            ==> spec_parse_command(line, keyboard_track) == Ok::<CommandView, Seq<char>>(CommandView::RecordStart { track_index: index }),
        words(line).len() >= 3 && spec_parse_usize(words(line)[2]) is None
            ==> spec_parse_command(line, keyboard_track) is Err,
        words(line).len() == 2 && keyboard_track == Some(index)
            ==> spec_parse_command(line, keyboard_track) == Ok::<CommandView, Seq<char>>(CommandView::RecordStart { track_index: index }),
        words(line).len() == 2 && keyboard_track is None ==> spec_parse_command(line, keyboard_track) is Err,
{
    reveal_strlit("record");
    reveal_strlit("start");
    reveal_strlit("help");
    reveal_strlit("load");
    reveal_strlit("midi-live");
    reveal_strlit("soundfont");
    reveal_strlit("keyboard");
    assert("record"@.len() != "help"@.len());
    assert("record"@.len() != "load"@.len());
    assert("record"@ != "midi-live"@);
    assert("record"@ != "soundfont"@);
    assert("record"@ != "keyboard"@);
}

} // verus!
