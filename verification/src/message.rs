use vstd::prelude::*;
use crate::text::{
    ascii_lower_seq, ascii_lower_vec, chars_of, contains_exec, contains_seq, decimal, push_decimal,
};

verus! {

/// Sample rate assumed for keyboard output when a device reports none.
pub const DEFAULT_SAMPLE_RATE: u32 = 44_100;

/// The default output sample rate for live keyboard synthesis.
pub fn default_sample_rate() -> (r: u32)
    ensures
        r == DEFAULT_SAMPLE_RATE,
{
    DEFAULT_SAMPLE_RATE
}

/// A MIDI input port as offered to users.
#[derive(Debug, Clone)]
pub struct MidiInputPortInfo {
    pub name: String,
    pub is_virtual_loopback: bool,
}

/// A port is a software loopback (not a physical keyboard) when its name mentions
/// "midi through" or "through port", in any ASCII letter case.
pub open spec fn spec_is_virtual_loopback(name: Seq<char>) -> bool {
    let lower = ascii_lower_seq(name);
    contains_seq(lower, "midi through"@) || contains_seq(lower, "through port"@)
}

pub fn is_virtual_loopback_port(name: &str) -> (r: bool)
    ensures
        r == spec_is_virtual_loopback(name@),
{
    let lower = ascii_lower_vec(&chars_of(name));
    let a = chars_of("midi through");
    let b = chars_of("through port");
    contains_exec(&lower, &a) || contains_exec(&lower, &b)
}

/// Describes a port for the user.
pub fn port_info(name: String) -> (r: MidiInputPortInfo)
    ensures
        r.name@ == name@,
        r.is_virtual_loopback == spec_is_virtual_loopback(name@),
{
    let is_virtual_loopback = is_virtual_loopback_port(name.as_str());
    MidiInputPortInfo { name, is_virtual_loopback }
}

/// What a note-playing receiver does with a raw channel message.
#[derive(Debug, Clone, Copy, PartialEq, Eq, Structural)]
pub enum NoteMessage {
    On { channel: u8, note: u8, velocity: u8 },
    Off { channel: u8, note: u8 },
    Ignored,
}

pub open spec fn byte_or_zero(m: Seq<u8>, i: int) -> u8 {
    if i < m.len() { m[i] } else { 0 }
}

/// Note-on (0x9n) with a velocity starts a note; note-off (0x8n) and note-on with velocity 0
/// end one; everything else, and an empty message, is ignored. Missing data bytes read as 0.
pub open spec fn spec_note_message(m: Seq<u8>) -> NoteMessage {
    if m.len() == 0 {
        NoteMessage::Ignored
    } else {
        let command = m[0] & 0xF0u8;
        let channel = m[0] & 0x0Fu8;
        let note = byte_or_zero(m, 1);
        let value = byte_or_zero(m, 2);
        if command == 0x90u8 && value > 0 {
            NoteMessage::On { channel, note, velocity: value }
        } else if command == 0x90u8 || command == 0x80u8 {
            NoteMessage::Off { channel, note }
        } else {
            NoteMessage::Ignored
        }
    }
}

fn byte_or_zero_exec(m: &[u8], i: usize) -> (r: u8)
    ensures
        r == byte_or_zero(m@, i as int),
{
    if i < m.len() { m[i] } else { 0 }
}

pub fn decode_note_message(m: &[u8]) -> (r: NoteMessage)
    ensures
        r == spec_note_message(m@),
{
    if m.len() == 0 {
        return NoteMessage::Ignored;
    }
    let command = m[0] & 0xF0;
    let channel = m[0] & 0x0F;
    let note = byte_or_zero_exec(m, 1);
    let value = byte_or_zero_exec(m, 2);
    if command == 0x90 && value > 0 {
        NoteMessage::On { channel, note, velocity: value }
    } else if command == 0x90 || command == 0x80 {
        NoteMessage::Off { channel, note }
    } else {
        NoteMessage::Ignored
    }
}

/// The four numbers a General MIDI synthesizer takes for a raw message: channel, command,
/// first and second data byte (missing bytes read as 0). `None` for an empty message.
pub open spec fn spec_synth_message(m: Seq<u8>) -> Option<(i32, i32, i32, i32)> {
    if m.len() == 0 {
        None
    } else {
        Some(((m[0] & 0x0Fu8) as i32, (m[0] & 0xF0u8) as i32, byte_or_zero(m, 1) as i32, byte_or_zero(m, 2) as i32))
    }
}

pub fn synth_message(m: &[u8]) -> (r: Option<(i32, i32, i32, i32)>)
    ensures
        r == spec_synth_message(m@),
{
    if m.len() == 0 {
        return None;
    }
    let status = m[0];
    Some(((status & 0x0F) as i32, (status & 0xF0) as i32, byte_or_zero_exec(m, 1) as i32, byte_or_zero_exec(m, 2) as i32))
}

/// Decimal notation of an integer, with a leading '-' when negative.
pub open spec fn signed_decimal(i: int) -> Seq<char> {
    if i < 0 { "-"@ + decimal((-i) as nat) } else { decimal(i as nat) }
}

/// The bytes of a message written as a list: "[1, 2, 3]".
pub open spec fn byte_list(m: Seq<u8>) -> Seq<char>
    decreases m.len(),
{
    if m.len() == 0 {
        Seq::empty()
    } else if m.len() == 1 {
        decimal(m[0] as nat)
    } else {
        byte_list(m.drop_last()) + ", "@ + decimal(m.last() as nat)
    }
}

/// 14-bit pitch-bend value of two data bytes, centred on zero.
pub open spec fn pitch_bend(d1: u8, d2: u8) -> int {
    (((d2 as u16) << 7u16) | (d1 as u16)) as int - 8192
}

/// One line describing a raw MIDI message for a monitor display.
pub open spec fn spec_describe_midi_message(m: Seq<u8>) -> Seq<char> {
    if m.len() == 0 {
        "empty"@
    } else {
        let ch = decimal(((m[0] & 0x0Fu8) + 1) as nat);
        let command = m[0] & 0xF0u8;
        let d1 = byte_or_zero(m, 1);
        let d2 = byte_or_zero(m, 2);
        if command == 0x80u8 {
            "note-off ch"@ + ch + " note="@ + decimal(d1 as nat) + " vel="@ + decimal(d2 as nat)
        } else if command == 0x90u8 && d2 == 0 {
            "note-off ch"@ + ch + " note="@ + decimal(d1 as nat) + " vel=0"@
        } else if command == 0x90u8 {
            "note-on ch"@ + ch + " note="@ + decimal(d1 as nat) + " vel="@ + decimal(d2 as nat)
        } else if command == 0xA0u8 {
            "poly-aftertouch ch"@ + ch + " note="@ + decimal(d1 as nat) + " value="@ + decimal(d2 as nat)
        } else if command == 0xB0u8 {
            "cc ch"@ + ch + " ctrl="@ + decimal(d1 as nat) + " value="@ + decimal(d2 as nat)
        } else if command == 0xC0u8 {
            "program-change ch"@ + ch + " value="@ + decimal(d1 as nat)
        } else if command == 0xD0u8 {
            "channel-aftertouch ch"@ + ch + " value="@ + decimal(d1 as nat)
        } else if command == 0xE0u8 {
            "pitch-bend ch"@ + ch + " value="@ + signed_decimal(pitch_bend(d1, d2))
        } else {
            "raw ["@ + byte_list(m) + "]"@
        }
    }
}

fn push_byte_list(s: &mut String, m: &[u8])
    ensures
        final(s)@ == old(s)@ + byte_list(m@),
{
    let n = m.len();
    let ghost start = s@;
    for i in 0..n
        invariant
            n == m@.len(),
            s@ == start + byte_list(m@.take(i as int)),
    {
        proof {
            assert(m@.take(i + 1).drop_last() =~= m@.take(i as int));
            assert(m@.take(i + 1).last() == m@[i as int]);
        }
        if i > 0 {
            s.append(", ");
        }
        push_decimal(s, m[i] as u64);
        proof {
            if i == 0 {
                assert(m@.take(1).len() == 1);
                assert(byte_list(m@.take(1)) == decimal(m@[0] as nat));
                assert(byte_list(m@.take(0)) =~= Seq::<char>::empty());
                assert(s@ =~= start + byte_list(m@.take(i + 1)));
            } else {
                assert(s@ =~= start + byte_list(m@.take(i + 1)));
            }
        }
    }
    proof {
        assert(m@.take(n as int) =~= m@);
    }
}

/// Describes a raw MIDI message, e.g. "note-on ch1 note=60 vel=100".
pub fn describe_midi_message(m: &[u8]) -> (r: String)
    ensures
        r@ == spec_describe_midi_message(m@),
{
    if m.len() == 0 {
        return String::from_str("empty");
    }
    let status = m[0];
    assert(status & 0x0F <= 15) by (bit_vector);
    let ch = ((status & 0x0F) as u64) + 1;
    let command = status & 0xF0;
    let d1 = byte_or_zero_exec(m, 1);
    let d2 = byte_or_zero_exec(m, 2);
    let mut s = String::new();
    if command == 0x80 {
        s.append("note-off ch"); push_decimal(&mut s, ch);
        s.append(" note="); push_decimal(&mut s, d1 as u64);
        s.append(" vel="); push_decimal(&mut s, d2 as u64);
    } else if command == 0x90 && d2 == 0 {
        s.append("note-off ch"); push_decimal(&mut s, ch);
        s.append(" note="); push_decimal(&mut s, d1 as u64);
        s.append(" vel=0");
    } else if command == 0x90 {
        s.append("note-on ch"); push_decimal(&mut s, ch);
        s.append(" note="); push_decimal(&mut s, d1 as u64);
        s.append(" vel="); push_decimal(&mut s, d2 as u64);
    } else if command == 0xA0 {
        s.append("poly-aftertouch ch"); push_decimal(&mut s, ch);
        s.append(" note="); push_decimal(&mut s, d1 as u64);
        s.append(" value="); push_decimal(&mut s, d2 as u64);
    } else if command == 0xB0 {
        s.append("cc ch"); push_decimal(&mut s, ch);
        s.append(" ctrl="); push_decimal(&mut s, d1 as u64);
        s.append(" value="); push_decimal(&mut s, d2 as u64);
    } else if command == 0xC0 {
        s.append("program-change ch"); push_decimal(&mut s, ch);
        s.append(" value="); push_decimal(&mut s, d1 as u64);
    } else if command == 0xD0 {
        s.append("channel-aftertouch ch"); push_decimal(&mut s, ch);
        s.append(" value="); push_decimal(&mut s, d1 as u64);
    } else if command == 0xE0 {
        s.append("pitch-bend ch"); push_decimal(&mut s, ch);
        s.append(" value=");
        let combined: u16 = ((d2 as u16) << 7u16) | (d1 as u16);
        if combined < 8192 {
            s.append("-");
            push_decimal(&mut s, (8192 - combined) as u64);
        } else {
            push_decimal(&mut s, (combined - 8192) as u64);
        }
    } else {
        s.append("raw [");
        push_byte_list(&mut s, m);
        s.append("]");
    }
    proof {
        assert(s@ =~= spec_describe_midi_message(m@));
    }
    s
}

/// A message handed to the synthesizer keeps its status byte: channel and command add up to
/// it, the channel is one of the 16 MIDI channels, the command a multiple of 16, and the two
/// numbers after them are the message's data bytes (0 where missing). Only an empty message
/// gives nothing.
pub proof fn law_synth_message_keeps_the_status(m: Seq<u8>)
    ensures
        spec_synth_message(m) is None <==> m.len() == 0,
        spec_synth_message(m) matches Some((channel, command, first, second)) ==> {
            &&& channel + command == m[0]
            &&& 0 <= channel < 16
            &&& 0 <= command < 256
            &&& command % 16 == 0
            &&& first == (if m.len() > 1 { m[1] as i32 } else { 0 })
            &&& second == (if m.len() > 2 { m[2] as i32 } else { 0 })
        },
{
    if m.len() > 0 {
        let x = m[0];
        assert((x & 0x0Fu8) + (x & 0xF0u8) == x && (x & 0x0Fu8) < 16 && (x & 0xF0u8) % 16 == 0) by (bit_vector);
    }
}

/// A note message keeps the channel of its status byte: a note-on (0x9n) with a velocity
/// starts key `m[1]` on channel `n` with that velocity, a note-off (0x8n) or a note-on with
/// velocity 0 ends key `m[1]` on channel `n`, and every other status is ignored. So a note-on
/// and the note-off of the same channel and key name the same note.
pub proof fn law_note_message_keeps_the_channel(m: Seq<u8>)
    requires
        m.len() >= 1,
    ensures
        ({
            let key = if m.len() > 1 { m[1] } else { 0u8 };
            let velocity = if m.len() > 2 { m[2] } else { 0u8 };
            &&& (0x90 <= m[0] < 0xA0 && velocity > 0) ==> spec_note_message(m) == (NoteMessage::On {
                channel: (m[0] % 16) as u8,
                note: key,
                velocity,
            })
            &&& (0x80 <= m[0] < 0x90 || (0x90 <= m[0] < 0xA0 && velocity == 0)) ==> spec_note_message(m)
                == (NoteMessage::Off { channel: (m[0] % 16) as u8, note: key })
            &&& !(0x80 <= m[0] < 0xA0) ==> spec_note_message(m) == NoteMessage::Ignored
        }),
{
    let x = m[0];
    assert((x & 0x0Fu8) == x % 16) by (bit_vector);
    assert((0x90 <= x < 0xA0) <==> (x & 0xF0u8) == 0x90u8) by (bit_vector);
    assert((0x80 <= x < 0x90) <==> (x & 0xF0u8) == 0x80u8) by (bit_vector);
}

} // verus!
