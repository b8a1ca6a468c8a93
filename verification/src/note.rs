//! A transcribed MIDI note: its key, derived octave, quantized onset
//! and (once the matching note-off is seen) quantized duration.

use vstd::prelude::*;
use crate::duration::{
    quant_sat16,
    quant_sat64,
    ticks_to_units,
    ticks_to_units_wide,
    units_to_length_tokens,
    length_tokens_text,
    quant_units,
};

verus! {

/// The octave a MIDI key falls in: key 60 (middle C) is octave 4.
/// Keys below 12 saturate at octave 0.
pub open spec fn octave_of_key(key: u8) -> u8 {
    if key >= 12 {
        (key / 12 - 1) as u8
    } else {
        0
    }
}

/// The pitch letter of a MIDI key, from its position inside the octave.
pub open spec fn key_letter(key: u8) -> char {
    let r = key % 12;
    if r == 0 || r == 1 {
        'c'
    } else if r == 2 || r == 3 {
        'd'
    } else if r == 4 {
        'e'
    } else if r == 5 || r == 6 {
        'f'
    } else if r == 7 || r == 8 {
        'g'
    } else if r == 9 || r == 10 {
        'a'
    } else {
        'b'
    }
}

/// Whether the MIDI key is a sharp of its pitch letter.
pub open spec fn key_sharp(key: u8) -> bool {
    let r = key % 12;
    r == 1 || r == 3 || r == 6 || r == 8 || r == 10
}

/// A note transcribed from a MIDI note-on.  Until the matching
/// note-off is observed the duration fields stay zero (the note is
/// "open").
#[derive(Clone, Copy, Debug, PartialEq, Eq, Structural)]
pub struct Note {
    pub midi_key: u8,
    pub octave: u8,
    pub position_in_tick: u64,
    pub position_in_note_64: u64,
    pub duration_in_tick: u64,
    pub duration_in_note_64: u16,
}

/// The note that a note-on at `position_in_tick` creates: octave
/// derived from the key, onset quantized, duration still open.
pub open spec fn note_new(midi_key: u8, position_in_tick: u64, ppq: u16) -> Note {
    Note {
        midi_key,
        octave: octave_of_key(midi_key),
        position_in_tick,
        position_in_note_64: quant_sat64(position_in_tick, ppq),
        duration_in_tick: 0,
        duration_in_note_64: 0,
    }
}

/// The note after its note-off at `tick`: duration measured from its
/// onset and quantized (saturating; a note-off before the onset closes
/// with duration zero).
pub open spec fn close_note(n: Note, tick: u64, ppq: u16) -> Note {
    let dur = if tick >= n.position_in_tick {
        (tick - n.position_in_tick) as u64
    } else {
        0u64
    };
    Note {
        duration_in_tick: dur,
        duration_in_note_64: quant_sat16(dur, ppq),
        ..n
    }
}

impl Note {
    /// Create an open note from a note-on event.
    pub fn new(midi_key: u8, position_in_tick: u64, ppq: u16) -> (n: Note)
        requires
            ppq >= 1,
        ensures
            n == note_new(midi_key, position_in_tick, ppq),
    {
        let octave: u8 = if midi_key >= 12 {
            midi_key / 12 - 1
        } else {
            0
        };
        let position_in_note_64: u64 = ticks_to_units_wide(position_in_tick, ppq);
        Note {
            midi_key,
            octave,
            position_in_tick,
            position_in_note_64,
            duration_in_tick: 0,
            duration_in_note_64: 0,
        }
    }

    /// Close this note at `tick`: set its tick duration and its
    /// quantized duration.
    pub fn close(&self, tick: u64, ppq: u16) -> (n: Note)
        requires
            ppq >= 1,
        ensures
            n == close_note(*self, tick, ppq),
    {
        let dur: u64 = if tick >= self.position_in_tick {
            tick - self.position_in_tick
        } else {
            0
        };
        let wide: u64 = ticks_to_units_wide(dur, ppq);
        let units: u16 = if wide > u16::MAX as u64 {
            u16::MAX
        } else {
            wide as u16
        };
        Note {
            duration_in_tick: dur,
            duration_in_note_64: units,
            ..*self
        }
    }

    /// Quantize a tick duration to 64th-note units.
    pub fn tick_to_note_64(ticks: u32, ppq: u16) -> (u: u16)
        requires
            ppq >= 1,
            quant_units(ticks as nat, ppq as nat) <= u16::MAX,
        ensures
            u == quant_units(ticks as nat, ppq as nat),
    {
        ticks_to_units(ticks, ppq)
    }

    /// Render a unit count as MML length tokens.
    pub fn get_duration(units: u16) -> (s: String)
        ensures
            s@ == length_tokens_text(units as nat),
    {
        units_to_length_tokens(units)
    }

    /// The pitch letter of this note.
    pub fn letter(&self) -> (c: char)
        ensures
            c == key_letter(self.midi_key),
    {
        let r: u8 = self.midi_key % 12;
        if r == 0 || r == 1 {
            'c'
        } else if r == 2 || r == 3 {
            'd'
        } else if r == 4 {
            'e'
        } else if r == 5 || r == 6 {
            'f'
        } else if r == 7 || r == 8 {
            'g'
        } else if r == 9 || r == 10 {
            'a'
        } else {
            'b'
        }
    }

    /// Whether this note is a sharp.
    pub fn sharp(&self) -> (b: bool)
        ensures
            b == key_sharp(self.midi_key),
    {
        let r: u8 = self.midi_key % 12;
        r == 1 || r == 3 || r == 6 || r == 8 || r == 10
    }
}

} // verus!
