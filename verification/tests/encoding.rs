use midi_mml::events::TrackEvent;
use midi_mml::parser::Parser;
use midi_mml::track::{MidiEvent, MidiEventKind, Track};

fn on(delta: u32, key: u8) -> MidiEvent {
    MidiEvent { delta, kind: MidiEventKind::NoteOn { key, velocity: 100 } }
}

fn off(delta: u32, key: u8) -> MidiEvent {
    MidiEvent { delta, kind: MidiEventKind::NoteOff { key } }
}

#[test]
fn one_note_track_renders() {
    // Middle C, one quarter note at ppq 480, starting at tick zero.
    let track = Track::new(&vec![on(0, 60), off(480, 60)], 480);
    let events = track.events();
    assert_eq!(events.len(), 2);
    assert!(matches!(events[0], TrackEvent::SetOctave(4)));
    match events[1] {
        TrackEvent::SetNote(n) => {
            assert_eq!(n.midi_key, 60);
            assert_eq!(n.octave, 4);
            assert_eq!(n.position_in_note_64, 0);
            assert_eq!(n.duration_in_note_64, 16);
        },
        other => panic!("expected a note, got {:?}", other),
    }
    assert_eq!(track.to_mml(), "o4c4");
}

#[test]
fn tempo_event_becomes_bpm() {
    // 500000 microseconds per quarter is 120 beats per minute.
    let track = Track::new(
        &vec![MidiEvent { delta: 0, kind: MidiEventKind::Tempo(500000) }, on(0, 60), off(480, 60)],
        480,
    );
    assert!(matches!(track.events()[0], TrackEvent::SetTempo(120)));
    assert_eq!(track.to_mml(), "t120o4c4");
}

#[test]
fn leading_gap_becomes_rest() {
    let track = Track::new(&vec![on(480, 60), off(480, 60)], 480);
    assert!(matches!(track.events()[0], TrackEvent::SetRest(16)));
    assert_eq!(track.to_mml(), "r4o4c4");
}

#[test]
fn aligned_notes_connect_as_chord_marker() {
    // The second note starts exactly where the first ended.
    let track = Track::new(&vec![on(0, 60), off(480, 60), on(0, 64), off(480, 64)], 480);
    let events = track.events();
    assert!(matches!(events[2], TrackEvent::ConnectChord));
    assert_eq!(track.to_mml(), "o4c4:o4e4");
}

#[test]
fn octave_step_up_never_emits_set_octave() {
    // C4 then C5: octave difference exactly +1.
    let track = Track::new(&vec![on(0, 60), off(480, 60), on(0, 72), off(480, 72)], 480);
    let events = track.events();
    assert!(matches!(events[3], TrackEvent::IncreOctave));
    for (i, ev) in events.iter().enumerate() {
        if i >= 2 {
            assert!(!matches!(ev, TrackEvent::SetOctave(_)));
        }
    }
    assert_eq!(track.to_mml(), "o4c4:>c4");
}

#[test]
fn octave_step_down_never_emits_set_octave() {
    let track = Track::new(&vec![on(0, 72), off(480, 72), on(0, 60), off(480, 60)], 480);
    assert!(matches!(track.events()[3], TrackEvent::DecreOctave));
    assert_eq!(track.to_mml(), "o5c4:<c4");
}

#[test]
fn octave_jump_emits_exactly_one_set_octave() {
    // C4 then C6: difference +2, so one explicit absolute octave.
    let track = Track::new(&vec![on(0, 60), off(480, 60), on(0, 84), off(480, 84)], 480);
    let events = track.events();
    let set_octaves: Vec<u8> = events
        .iter()
        .skip(2)
        .filter_map(|ev| match ev {
            TrackEvent::SetOctave(o) => Some(*o),
            _ => None,
        })
        .collect();
    assert_eq!(set_octaves, vec![6]);
}

#[test]
fn overlapping_notes_connect_as_tie_marker() {
    // Both the first note's onset and its duration round up (255
    // ticks is 8.5 units), so its quantized end (9 + 9) lies past the
    // second note's quantized onset (510 ticks is 17 units): the
    // second note overlaps and gets a note connection marker.
    let track = Track::new(&vec![on(255, 60), off(255, 60), on(0, 64), off(480, 64)], 480);
    assert!(matches!(track.events()[3], TrackEvent::ConnectNote));
}

#[test]
fn spurious_note_off_is_ignored() {
    let track = Track::new(&vec![off(0, 60), on(0, 60), off(480, 60), off(0, 61)], 480);
    assert_eq!(track.events().len(), 2);
}

#[test]
fn open_note_closes_at_end_of_track() {
    // A note-on with no matching note-off: closed at the final tick.
    let track = Track::new(&vec![on(0, 60), MidiEvent { delta: 480, kind: MidiEventKind::Other }], 480);
    match track.events()[1] {
        TrackEvent::SetNote(n) => assert_eq!(n.duration_in_note_64, 16),
        other => panic!("expected a note, got {:?}", other),
    }
}

#[test]
fn note_on_with_zero_velocity_is_note_off() {
    let track = Track::new(
        &vec![on(0, 60), MidiEvent { delta: 480, kind: MidiEventKind::NoteOn { key: 60, velocity: 0 } }],
        480,
    );
    match track.events()[1] {
        TrackEvent::SetNote(n) => assert_eq!(n.duration_in_note_64, 16),
        other => panic!("expected a note, got {:?}", other),
    }
}

#[test]
fn sharp_notes_render_with_plus() {
    let track = Track::new(&vec![on(0, 61), off(480, 61)], 480);
    assert_eq!(track.to_mml(), "o4c+4");
}

#[test]
fn tied_duration_renders_letter_per_segment() {
    // 20 units: a quarter tied to a sixteenth, letter repeated.
    let track = Track::new(&vec![on(0, 60), off(600, 60)], 480);
    assert_eq!(track.to_mml(), "o4c4&c16");
}

#[test]
fn encode_then_decode_round_trips() {
    // A small melody with a rest, a chord alignment and an octave
    // step: decoding the rendered text reproduces each note's pitch
    // letter, octave and quantized duration units.
    let track = Track::new(
        &vec![
            MidiEvent { delta: 0, kind: MidiEventKind::Tempo(500000) },
            on(480, 60),
            off(720, 60),
            on(0, 64),
            off(480, 64),
            on(240, 72),
            off(480, 72),
        ],
        480,
    );
    let mml = track.to_mml();
    let parsed = Parser::parse(mml).unwrap();
    let notes: Vec<_> = parsed.notes.iter().filter(|n| n.letter != 'r').collect();
    assert_eq!(notes.len(), 3);
    assert_eq!((notes[0].letter, notes[0].sharp, notes[0].octave, notes[0].duration_in_note_64),
               ('c', false, 4, 24));
    assert_eq!((notes[1].letter, notes[1].sharp, notes[1].octave, notes[1].duration_in_note_64),
               ('e', false, 4, 16));
    assert_eq!((notes[2].letter, notes[2].sharp, notes[2].octave, notes[2].duration_in_note_64),
               ('c', false, 5, 16));
    // The chord alignment carried over: the decoder marks the aligned
    // note as connected.
    assert!(notes[1].is_connected_to_prev_note);
    assert_eq!(notes[0].tempo, 120);
}
