use vstd::prelude::*;
use crate::notes::{MidiNote, max_u64};
use crate::smf::{
    CLIP_TICKS_PER_QUARTER, SmfTimingError, clip_timed_events, encode_clip_events, notes_from_smf,
    smf_parse, smf_write, spec_smf_parse, spec_smf_write, smf_unsorted_notes, smf_duration_us,
    with_deltas, SmfTiming, key_up_event,
};
use crate::sorting::{key_sorted, law_stable_sort_is_permutation, stable_sort_by_key, stable_sorted};
use crate::text::concat_str;
use crate::readback::{
    clip_in_tick_range, ends_within, keys_apart, lemma_written_events_fit, law_written_clip_notes_read_back, law_notes_one_after_another_read_back_in_order,
    lemma_grid_in_any_order, notes_on_tick_grid, one_after_another, read_back_model, within_tick_range,
};

verus! {

/// A MIDI clip: its notes sorted by start, its length, and the Standard MIDI File bytes
/// that a SoundFont renderer plays.
#[derive(Debug, Clone)]
pub struct MidiClip {
    pub duration_us: u64,
    pub notes: Vec<MidiNote>,
    pub smf_bytes: Vec<u8>,
}

/// The latest end among the notes (0 for none).
pub open spec fn max_end_us(notes: Seq<MidiNote>) -> u64
    decreases notes.len(),
{
    if notes.len() == 0 {
        0
    } else {
        max_u64(max_end_us(notes.drop_last()), notes.last().end_us)
    }
}

/// The file written for a clip of these sorted notes and this length.
pub open spec fn clip_file_bytes(notes: Seq<MidiNote>, duration_us: u64) -> Seq<u8> {
    spec_smf_write(with_deltas(stable_sorted(clip_timed_events(notes, duration_us))), CLIP_TICKS_PER_QUARTER)
}

/// The start of the message when a clip's file cannot be written; midly's reason follows.
pub open spec fn encode_failure_prefix() -> Seq<char> {
    "failed to encode recorded MIDI clip: "@
}

proof fn lemma_max_end_bounds(notes: Seq<MidiNote>)
    ensures
        ends_within(notes, max_end_us(notes)),
    decreases notes.len(),
{
    if notes.len() > 0 {
        let init = notes.drop_last();
        lemma_max_end_bounds(init);
        assert forall|i: int| 0 <= i < notes.len() implies #[trigger] notes[i].end_us <= max_end_us(notes) by {
            if i < init.len() {
                assert(init[i] == notes[i]);
            }
        }
    }
}

fn max_end_exec(notes: &Vec<MidiNote>) -> (r: u64)
    ensures
        r == max_end_us(notes@),
{
    let mut m: u64 = 0;
    let n = notes.len();
    for i in 0..n
        invariant
            n == notes.len(),
            m == max_end_us(notes@.take(i as int)),
    {
        proof {
            assert(notes@.take(i + 1).drop_last() =~= notes@.take(i as int));
        }
        if notes[i].end_us > m {
            m = notes[i].end_us;
        }
    }
    proof {
        assert(notes@.take(n as int) =~= notes@);
    }
    m
}

/// Most notes a clip is sure to be built from: their events, two per note plus the tempo and
/// the end, stay within `smf::MAX_WRITTEN_EVENTS`.
pub const MAX_CLIP_NOTES: usize = 49_999_999;

/// Builds a clip from notes: sorts them by start (stably), extends the length to cover the
/// last note end, and writes the clip's file. Read back (see `load_midi_clip`), the file gives
/// the clip's notes again, each moved to the tick grid, whenever notes of the same key do not
/// overlap; for notes that sound one after another they come back in the same order.
pub fn build_midi_clip_from_notes(notes: Vec<MidiNote>, duration_us: u64) -> (r: Result<MidiClip, String>)
    ensures
        r matches Ok(c) ==> {
            &&& c.notes@ == stable_sorted(notes@)
            &&& key_sorted(c.notes@)
            &&& c.duration_us == max_u64(duration_us, max_end_us(notes@))
            &&& c.smf_bytes@ == clip_file_bytes(c.notes@, c.duration_us)
        },
        notes@.len() < MAX_CLIP_NOTES ==> r is Ok,
        r matches Ok(c) ==> (clip_in_tick_range(notes@, c.duration_us)
            ==> spec_smf_parse(c.smf_bytes@) == Some(read_back_model(c.notes@, c.duration_us))),
        r matches Ok(c) ==> (one_after_another(notes@) && within_tick_range(c.duration_us) ==> {
            &&& c.notes@ == notes@
            &&& spec_smf_parse(c.smf_bytes@) == Some(read_back_model(notes@, c.duration_us))
            &&& stable_sorted(smf_unsorted_notes(read_back_model(notes@, c.duration_us), CLIP_TICKS_PER_QUARTER))
                == notes_on_tick_grid(notes@)
        }),
        r matches Ok(c) ==> (keys_apart(notes@) && within_tick_range(c.duration_us) ==> {
            &&& spec_smf_parse(c.smf_bytes@) == Some(read_back_model(c.notes@, c.duration_us))
            &&& stable_sorted(smf_unsorted_notes(read_back_model(c.notes@, c.duration_us), CLIP_TICKS_PER_QUARTER))
                .to_multiset() == notes_on_tick_grid(notes@).to_multiset()
        }),
        r matches Err(e) ==> e@.len() >= encode_failure_prefix().len()
            && e@.take(encode_failure_prefix().len() as int) == encode_failure_prefix(),
{
    let sorted = stable_sort_by_key(&notes);
    proof {
        law_stable_sort_is_permutation(sorted@, notes@);
        sorted@.to_multiset_ensures();
        notes@.to_multiset_ensures();
    }
    let latest = max_end_exec(&notes);
    let resolved = if duration_us >= latest { duration_us } else { latest };
    let events = encode_clip_events(&sorted, resolved);
    let mut bytes: Vec<u8> = Vec::new();
    let written = smf_write(&events, CLIP_TICKS_PER_QUARTER, &mut bytes);
    match written {
        Ok(()) => {
            proof {
                assert(bytes@ =~= clip_file_bytes(sorted@, resolved));
                if clip_in_tick_range(notes@, resolved) {
                    assert forall|n: MidiNote| #[trigger] sorted@.contains(n) implies key_up_event(n).tick < 0x1000_0000 by {
                        vstd::seq_lib::to_multiset_contains(sorted@, n);
                        vstd::seq_lib::to_multiset_contains(notes@, n);
                    }
                    lemma_written_events_fit(sorted@, resolved);
                }
                if keys_apart(notes@) && within_tick_range(resolved) {
                    lemma_max_end_bounds(notes@);
                    lemma_grid_in_any_order(sorted@, notes@, resolved);
                    law_written_clip_notes_read_back(sorted@, resolved);
                }
                if one_after_another(notes@) && within_tick_range(resolved) {
                    lemma_max_end_bounds(notes@);
                    assert(ends_within(notes@, resolved));
                    law_notes_one_after_another_read_back_in_order(notes@, resolved);
                }
            }
            Ok(MidiClip { duration_us: resolved, notes: sorted, smf_bytes: bytes })
        },
        Err(err) => {
            let mut msg = String::from_str("failed to encode recorded MIDI clip: ");
            msg.append(err.as_str());
            proof {
                assert(msg@.take(encode_failure_prefix().len() as int) =~= encode_failure_prefix());
            }
            Err(msg)
        },
    }
}

pub open spec fn timecode_message() -> Seq<char> {
    "SMPTE timecode MIDI is not supported yet"@
}

pub open spec fn zero_ticks_message() -> Seq<char> {
    "invalid MIDI timing: ticks per quarter is 0"@
}

/// Loads a clip from the bytes of a Standard MIDI File read from `path` (the path is used in
/// messages only). The clip's notes and length are those `notes_from_smf` extracts.
pub fn load_midi_clip(path: &str, bytes: Vec<u8>) -> (r: Result<MidiClip, String>)
    ensures
        spec_smf_parse(bytes@) is None <==> (r matches Err(e) && e@.len() >= 22
            && e@.take(22) == "failed to parse MIDI `"@),
        spec_smf_parse(bytes@) matches Some(m) ==> {
            &&& m.timing is Timecode <==> (r matches Err(e) && e@ == timecode_message())
            &&& m.timing == SmfTiming::Metrical(0) <==> (r matches Err(e) && e@ == zero_ticks_message())
            &&& r matches Ok(c) ==> m.timing matches SmfTiming::Metrical(tpq) && {
                &&& c.notes@ == stable_sorted(smf_unsorted_notes(m, tpq))
                &&& key_sorted(c.notes@)
                &&& c.duration_us == smf_duration_us(m, tpq)
                &&& c.smf_bytes@ == bytes@
            }
            &&& (m.timing matches SmfTiming::Metrical(tpq) && tpq > 0) ==> r is Ok
        },
{
    proof {
        reveal_strlit("failed to parse MIDI `");
        reveal_strlit("SMPTE timecode MIDI is not supported yet");
        reveal_strlit("invalid MIDI timing: ticks per quarter is 0");
        assert(timecode_message().take(22)[0] != "failed to parse MIDI `"@[0]);
        assert(zero_ticks_message().take(22)[0] != "failed to parse MIDI `"@[0]);
        assert(timecode_message() != zero_ticks_message());
    }
    let smf = match smf_parse(bytes.as_slice()) {
        Ok(d) => d,
        Err(err) => {
            let mut msg = concat_str("failed to parse MIDI `", path);
            msg.append("`: ");
            msg.append(err.as_str());
            proof {
                assert(msg@.take(22) =~= "failed to parse MIDI `"@);
            }
            return Err(msg);
        },
    };
    match notes_from_smf(&smf) {
        Ok((notes, duration_us)) => Ok(MidiClip { duration_us, notes, smf_bytes: bytes }),
        Err(SmfTimingError::Timecode) => Err(String::from_str("SMPTE timecode MIDI is not supported yet")),
        Err(SmfTimingError::ZeroTicksPerQuarter) => Err(String::from_str("invalid MIDI timing: ticks per quarter is 0")),
    }
}

/// Whether a note sounds at a time: from its start (inclusive) to its end (exclusive).
pub open spec fn sounds_at(n: MidiNote, time_us: u64) -> bool {
    n.start_us <= time_us && time_us < n.end_us
}

pub open spec fn sounding_filter(time_us: u64) -> spec_fn(MidiNote) -> bool {
    |n: MidiNote| sounds_at(n, time_us)
}

/// The notes that sound at a time in the clip's own timeline, in clip order.
pub fn notes_sounding_at(notes: &Vec<MidiNote>, time_us: u64) -> (r: Vec<MidiNote>)
    ensures
        r@ == notes@.filter(sounding_filter(time_us)),
{
    let mut r: Vec<MidiNote> = Vec::new();
    let n = notes.len();
    for i in 0..n
        invariant
            n == notes.len(),
            r@ == notes@.take(i as int).filter(sounding_filter(time_us)),
    {
        let note = notes[i];
        proof {
            assert(notes@.take(i + 1) =~= notes@.take(i as int).push(note));
            notes@.take(i as int).lemma_filter_push(note, sounding_filter(time_us));
        }
        if note.start_us <= time_us && time_us < note.end_us {
            r.push(note);
        }
    }
    proof {
        assert(notes@.take(n as int) =~= notes@);
    }
    r
}

} // verus!
