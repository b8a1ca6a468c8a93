use midi_mml::duration::{decompose_units, ticks_to_units, units_to_length_tokens};
use midi_mml::note::Note;

#[test]
fn quarter_note_is_sixteen_units() {
    // ppq = 480 and a note lasting 480 ticks is one quarter note.
    assert_eq!(ticks_to_units(480, 480), 16);
    assert_eq!(Note::tick_to_note_64(480, 480), 16);
}

#[test]
fn quantization_rounds_to_nearest() {
    // 16 units per quarter: one unit is 30 ticks at ppq 480.
    assert_eq!(ticks_to_units(0, 480), 0);
    assert_eq!(ticks_to_units(14, 480), 0);
    assert_eq!(ticks_to_units(15, 480), 1);
    assert_eq!(ticks_to_units(479, 480), 16);
    assert_eq!(ticks_to_units(960, 480), 32);
    assert_eq!(ticks_to_units(240, 96), 40);
}

#[test]
fn single_canonical_lengths_render_exactly() {
    assert_eq!(units_to_length_tokens(64), "1");
    assert_eq!(units_to_length_tokens(32), "2");
    assert_eq!(units_to_length_tokens(16), "4");
    assert_eq!(units_to_length_tokens(8), "8");
    assert_eq!(units_to_length_tokens(4), "16");
    assert_eq!(units_to_length_tokens(2), "32");
    assert_eq!(units_to_length_tokens(1), "64");
}

#[test]
fn single_dotted_lengths_render_exactly() {
    assert_eq!(units_to_length_tokens(48), "2.");
    assert_eq!(units_to_length_tokens(24), "4.");
    assert_eq!(units_to_length_tokens(12), "8.");
    assert_eq!(units_to_length_tokens(6), "16.");
    assert_eq!(units_to_length_tokens(3), "32.");
}

#[test]
fn zero_units_render_as_empty_token() {
    assert_eq!(units_to_length_tokens(0), "");
}

#[test]
fn compound_lengths_are_tied_greedily() {
    assert_eq!(units_to_length_tokens(20), "4&16");
    assert_eq!(units_to_length_tokens(65), "1&64");
    assert_eq!(units_to_length_tokens(97), "1.&64");
    assert_eq!(units_to_length_tokens(5), "16&64");
}

#[test]
fn every_unit_count_decomposes_exactly() {
    // The greedy decomposition must sum back to its input for every
    // reachable unit count up to a whole-note tie of several bars.
    for units in 0u16..=1024 {
        let toks = decompose_units(units);
        let sum: u32 = toks
            .iter()
            .map(|t| if t.1 { t.0 as u32 + t.0 as u32 / 2 } else { t.0 as u32 })
            .sum();
        assert_eq!(sum, units as u32);
    }
}

#[test]
fn get_duration_matches_free_function() {
    assert_eq!(Note::get_duration(24), "4.");
    assert_eq!(Note::get_duration(20), "4&16");
}
