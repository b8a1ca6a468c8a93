//! Transcoding between decoded MIDI note events and MML (Music Macro
//! Language) text, and back again into playable note events.
//!
//! The crate quantizes tick durations into 64th-note units, encodes one
//! MIDI track into a sequence of typed events (notes, rests, octave and
//! tempo changes, chord and tie markers), renders that sequence as MML
//! text, and parses MML text back into playable notes grouped into
//! chords.  All of that logic is verified; reading MIDI containers and
//! driving a synthesizer are left to the callers.

pub mod duration;
pub mod text;
pub mod events;
pub mod note;
pub mod parser;
pub mod player;
pub mod roundtrip;
pub mod track;
