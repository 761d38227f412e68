# OpenDAW

A small digital audio workstation for the command line: an interactive track shell
(audio and MIDI tracks, live MIDI keyboards, recording, realtime playback, project files)
and a one-shot WAV mixer.

The crate is split in two.

- `src/` is a library verified with Verus. It holds the decisions of the program, each with
  a contract and, where several functions meet, laws proved as public proof functions:
  - `shell`: the command grammar of the track shell;
  - `smf`, `clip`: reading notes from Standard MIDI Files and writing clips back (the byte
    format itself is `midly`'s);
  - `readback`: what reading back a written clip gives: the clip's notes again, moved to
    the tick grid (within 521 us), whenever notes of the same key do not overlap;
  - `notes`, `recording`: pairing note-on and note-off messages into notes, and recording a
    keyboard;
  - `message`: decoding and describing raw MIDI messages, and naming input ports;
  - `mixer`: which tracks sound, the shape of a mix, and where each track lands in a block;
  - `render`: which notes the built-in synthesizer plays in each block;
  - `project`: track kinds, instruments, project-file entries and keyboard routing;
  - `playback`: latency modes and output buffer sizes;
  - `files`: recognising MIDI and SoundFont files, and sorting SoundFonts by name;
  - `sorting`, `text`: a stable sort and the text helpers the rest builds on.
- `app/` is the program around it: files, audio and MIDI devices, threads, the JSON project
  format, and the floating-point signal processing (resampling, time stretching, synthesis).
  It offers the interactive shell and the one-shot mixer. The desktop mode (a windowed
  editor driven by an engine object) is not part of this crate: its window toolkit and
  desktop runtime need build steps this crate does not have. The decisions that engine makes
  are the same ones the shell makes, and they live in `src/`.

Times inside the library are integer microseconds and positions are frame counts; the
program converts to and from seconds at its edge.
