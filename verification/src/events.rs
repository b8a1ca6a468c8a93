//! The typed events an encoded track consists of, and their fixed
//! textual forms.  Rendering a track is a plain fold over this
//! vocabulary.

use vstd::prelude::*;
use vstd::string::StringExecFns;
use crate::duration::{
    decompose,
    decompose_units,
    prefixed_tokens_text,
    append_tokens,
    lemma_decompose_vec_canon,
};
use crate::note::{Note, key_letter, key_sharp};
use crate::text::{dec_seq, append_dec};

verus! {

/// One event of an encoded track, in playback/render order.
#[derive(Clone, Copy, Debug, PartialEq, Eq, Structural)]
pub enum TrackEvent {
    /// A transcribed note.
    SetNote(Note),
    /// A gap before the next note, in 64th-note units.
    SetRest(u16),
    /// A tempo change, in beats per minute.
    SetTempo(u32),
    /// An explicit octave for the next notes.
    SetOctave(u8),
    /// Octave up by one.
    IncreOctave,
    /// Octave down by one.
    DecreOctave,
    /// The next note starts together with the previous one.
    ConnectChord,
    /// The next note overlaps the previous one.
    ConnectNote,
}

/// The pitch prefix of a note token: its letter, and `+` when sharp.
pub open spec fn note_prefix(letter: char, sharp: bool) -> Seq<char> {
    if sharp {
        seq![letter, '+']
    } else {
        seq![letter]
    }
}

/// The text of a note: its duration tokens, each prefixed by the
/// pitch, tied with `&`.  A still-open note (zero units) renders as
/// nothing.
pub open spec fn note_body_text(key: u8, units: nat) -> Seq<char> {
    prefixed_tokens_text(note_prefix(key_letter(key), key_sharp(key)), decompose(units))
}

/// The fixed textual form of each track event.
pub open spec fn track_event_text(ev: TrackEvent) -> Seq<char> {
    match ev {
        TrackEvent::SetNote(n) => note_body_text(n.midi_key, n.duration_in_note_64 as nat),
        TrackEvent::SetRest(u) => prefixed_tokens_text(seq!['r'], decompose(u as nat)),
        TrackEvent::SetTempo(t) => seq!['t'] + dec_seq(t as nat),
        TrackEvent::SetOctave(o) => seq!['o'] + dec_seq(o as nat),
        TrackEvent::IncreOctave => seq!['>'],
        TrackEvent::DecreOctave => seq!['<'],
        TrackEvent::ConnectChord => seq![':'],
        TrackEvent::ConnectNote => seq!['&'],
    }
}

/// The pitch prefix of a note, as executable text.
fn note_prefix_str(n: &Note) -> (p: String)
    ensures
        p@ == note_prefix(key_letter(n.midi_key), key_sharp(n.midi_key)),
{
    proof {
        reveal_strlit("c");
        reveal_strlit("c+");
        reveal_strlit("d");
        reveal_strlit("d+");
        reveal_strlit("e");
        reveal_strlit("f");
        reveal_strlit("f+");
        reveal_strlit("g");
        reveal_strlit("g+");
        reveal_strlit("a");
        reveal_strlit("a+");
        reveal_strlit("b");
    }
    let r: u8 = n.midi_key % 12;
    let p: &str = if r == 0 {
        "c"
    } else if r == 1 {
        "c+"
    } else if r == 2 {
        "d"
    } else if r == 3 {
        "d+"
    } else if r == 4 {
        "e"
    } else if r == 5 {
        "f"
    } else if r == 6 {
        "f+"
    } else if r == 7 {
        "g"
    } else if r == 8 {
        "g+"
    } else if r == 9 {
        "a"
    } else if r == 10 {
        "a+"
    } else {
        "b"
    };
    proof {
        assert(p@ =~= note_prefix(key_letter(n.midi_key), key_sharp(n.midi_key)));
    }
    String::from_str(p)
}

impl TrackEvent {
    /// Render this event as its MML text.
    pub fn to_mml(&self) -> (s: String)
        ensures
            s@ == track_event_text(*self),
    {
        let mut s = String::new();
        match self {
            TrackEvent::SetNote(n) => {
                let toks = decompose_units(n.duration_in_note_64);
                proof {
                    lemma_decompose_vec_canon(toks@, n.duration_in_note_64 as nat);
                }
                let prefix = note_prefix_str(n);
                append_tokens(&mut s, prefix.as_str(), &toks);
            },
            TrackEvent::SetRest(u) => {
                let toks = decompose_units(*u);
                proof {
                    lemma_decompose_vec_canon(toks@, *u as nat);
                    reveal_strlit("r");
                    assert("r"@ =~= seq!['r']);
                }
                append_tokens(&mut s, "r", &toks);
            },
            TrackEvent::SetTempo(t) => {
                proof {
                    reveal_strlit("t");
                }
                s.append("t");
                append_dec(&mut s, *t as u64);
                proof {
                    assert(s@ =~= seq!['t'] + dec_seq(*t as nat));
                }
            },
            TrackEvent::SetOctave(o) => {
                proof {
                    reveal_strlit("o");
                }
                s.append("o");
                append_dec(&mut s, *o as u64);
                proof {
                    assert(s@ =~= seq!['o'] + dec_seq(*o as nat));
                }
            },
            TrackEvent::IncreOctave => {
                proof {
                    reveal_strlit(">");
                }
                s.append(">");
                proof {
                    assert(s@ =~= seq!['>']);
                }
            },
            TrackEvent::DecreOctave => {
                proof {
                    reveal_strlit("<");
                }
                s.append("<");
                proof {
                    assert(s@ =~= seq!['<']);
                }
            },
            TrackEvent::ConnectChord => {
                proof {
                    reveal_strlit(":");
                }
                s.append(":");
                proof {
                    assert(s@ =~= seq![':']);
                }
            },
            TrackEvent::ConnectNote => {
                proof {
                    reveal_strlit("&");
                }
                s.append("&");
                proof {
                    assert(s@ =~= seq!['&']);
                }
            },
        }
        s
    }
}

} // verus!
