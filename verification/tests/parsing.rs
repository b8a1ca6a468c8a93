use midi_mml::parser::{Parser, PlayCommand};

#[test]
fn chord_marker_groups_notes() {
    // A chord C-E-G, then a following lone C: one 3-note chord group,
    // then one single note.
    let p = Parser::parse(String::from(":c4:e4:g4 c4")).unwrap();
    assert_eq!(p.notes.len(), 4);
    assert!(p.notes[0].is_connected_to_prev_note);
    assert!(p.notes[1].is_connected_to_prev_note);
    assert!(p.notes[2].is_connected_to_prev_note);
    assert!(!p.notes[3].is_connected_to_prev_note);
    let cmds = p.play();
    assert_eq!(cmds.len(), 2);
    match &cmds[0] {
        PlayCommand::PlayChord(group) => {
            assert_eq!(group.len(), 3);
            assert_eq!(group[0].letter, 'c');
            assert_eq!(group[1].letter, 'e');
            assert_eq!(group[2].letter, 'g');
        },
        other => panic!("expected a chord, got {:?}", other),
    }
    match &cmds[1] {
        PlayCommand::PlayNote(n) => assert_eq!(n.letter, 'c'),
        other => panic!("expected a single note, got {:?}", other),
    }
}

#[test]
fn tie_chain_is_one_sustained_note() {
    // A quarter tied to an eighth of the same pitch is one note whose
    // duration is the sum: 16 + 8 = 24 units.
    let p = Parser::parse(String::from("c4&c8")).unwrap();
    assert_eq!(p.notes.len(), 1);
    assert_eq!(p.notes[0].letter, 'c');
    assert_eq!(p.notes[0].duration_in_note_64, 24);
    // At the default tempo of 120 bpm a quarter is 500 ms, so 24
    // units last 750 ms.
    assert_eq!(p.notes[0].duration_in_ms, 750);
}

#[test]
fn tie_marker_between_different_pitches_separates_notes() {
    let p = Parser::parse(String::from("c4&e4")).unwrap();
    assert_eq!(p.notes.len(), 2);
    assert_eq!(p.notes[0].letter, 'c');
    assert_eq!(p.notes[0].duration_in_note_64, 16);
    assert_eq!(p.notes[1].letter, 'e');
    assert_eq!(p.notes[1].duration_in_note_64, 16);
}

#[test]
fn commands_update_context() {
    let p = Parser::parse(String::from("t90o5v8c4>d4<e+2.")).unwrap();
    assert_eq!(p.notes.len(), 3);
    assert_eq!(p.notes[0].tempo, 90);
    assert_eq!(p.notes[0].octave, 5);
    assert_eq!(p.notes[0].velocity, 8);
    assert!(!p.notes[0].sharp);
    assert_eq!(p.notes[1].octave, 6);
    assert_eq!(p.notes[2].octave, 5);
    assert!(p.notes[2].sharp);
    // Dotted half at 90 bpm: 48 units, 48 * 3750 / 90 = 2000 ms.
    assert_eq!(p.notes[2].duration_in_note_64, 48);
    assert_eq!(p.notes[2].duration_in_ms, 2000);
}

#[test]
fn rests_parse_like_notes() {
    let p = Parser::parse(String::from("r4c4")).unwrap();
    assert_eq!(p.notes.len(), 2);
    assert_eq!(p.notes[0].letter, 'r');
    assert_eq!(p.notes[0].duration_in_note_64, 16);
    assert_eq!(p.notes[1].letter, 'c');
}

#[test]
fn uppercase_letters_normalize() {
    let p = Parser::parse(String::from("C4&C8")).unwrap();
    assert_eq!(p.notes.len(), 1);
    assert_eq!(p.notes[0].letter, 'c');
    assert_eq!(p.notes[0].duration_in_note_64, 24);
}

#[test]
fn unknown_character_is_an_error_at_its_offset() {
    let e = Parser::parse(String::from("c4x")).unwrap_err();
    assert_eq!(e.offset, 2);
}

#[test]
fn command_without_digits_is_an_error() {
    let e = Parser::parse(String::from("t")).unwrap_err();
    assert_eq!(e.offset, 0);
    let e = Parser::parse(String::from("c4o!")).unwrap_err();
    assert_eq!(e.offset, 2);
}

#[test]
fn zero_tempo_is_an_error() {
    let e = Parser::parse(String::from("t0c4")).unwrap_err();
    assert_eq!(e.offset, 0);
}

#[test]
fn octave_out_of_range_is_an_error() {
    let e = Parser::parse(String::from("o256")).unwrap_err();
    assert_eq!(e.offset, 0);
}

#[test]
fn note_without_length_is_an_error() {
    let e = Parser::parse(String::from("c")).unwrap_err();
    assert_eq!(e.offset, 1);
    let e = Parser::parse(String::from("c0")).unwrap_err();
    assert_eq!(e.offset, 1);
}

#[test]
fn dangling_tie_marker_is_an_error() {
    let e = Parser::parse(String::from("&c4")).unwrap_err();
    assert_eq!(e.offset, 0);
}

#[test]
fn whitespace_is_insignificant() {
    let p = Parser::parse(String::from("  c4\n d4\t")).unwrap();
    assert_eq!(p.notes.len(), 2);
    assert_eq!(p.notes[0].letter, 'c');
    assert_eq!(p.notes[1].letter, 'd');
}

#[test]
fn empty_text_parses_to_no_notes() {
    let p = Parser::parse(String::new()).unwrap();
    assert_eq!(p.notes.len(), 0);
    assert_eq!(p.play().len(), 0);
}

#[test]
fn player_plays_one_behind() {
    // Two lone notes: the first plays once its successor is known,
    // the pending second plays after the end of the stream.
    let p = Parser::parse(String::from("c4 d4")).unwrap();
    let cmds = p.play();
    assert_eq!(cmds.len(), 2);
    assert!(matches!(&cmds[0], PlayCommand::PlayNote(n) if n.letter == 'c'));
    assert!(matches!(&cmds[1], PlayCommand::PlayNote(n) if n.letter == 'd'));
}

#[test]
fn trailing_chord_group_is_flushed() {
    let p = Parser::parse(String::from("c4:e4")).unwrap();
    let cmds = p.play();
    assert_eq!(cmds.len(), 1);
    match &cmds[0] {
        PlayCommand::PlayChord(group) => {
            assert_eq!(group.len(), 2);
            assert_eq!(group[0].letter, 'c');
            assert_eq!(group[1].letter, 'e');
        },
        other => panic!("expected a chord, got {:?}", other),
    }
}
