//! Round-trip laws: the length-token text the renderer emits for a
//! note is scanned back by the decoder into exactly the unit count it
//! was rendered from.  Together with the exactness of the greedy
//! decomposition this is the quantization stability of the encoding:
//! pitch letter and quantized duration survive a render/parse cycle.

use vstd::prelude::*;
use crate::duration::{
    decompose,
    is_canon,
    length_digits,
    lemma_decompose_canon,
    lemma_decompose_sum,
    prefixed_tokens_text,
    sum_units,
    token_text,
    token_units,
    tokens_text_more,
};
use crate::events::{note_body_text, note_prefix, track_event_text, TrackEvent};
use crate::note::{key_letter, key_sharp};
use crate::parser::{
    is_note_letter,
    is_ws,
    norm_letter,
    note_event_new,
    parse_chain,
    parse_segment,
    parse_spec,
    units_of_figure,
    Ctx,
    NoteEvent,
};
use crate::text::{
    dec_seq,
    digit_val,
    digits_val,
    is_digit_char,
    lemma_dec_seq_digits,
    lemma_dec_seq_val,
    lemma_digit_run_len_is,
};

verus! {

/// The digit text of a canonical length reads back as the length
/// figure whose value in units is the base itself.
proof fn lemma_length_digits_facts(base: nat)
    requires
        is_canon(base),
    ensures
        1 <= length_digits(base).len() <= 2,
        forall|k: int|
            0 <= k < length_digits(base).len() ==> is_digit_char(#[trigger] length_digits(base)[k]),
        digits_val(length_digits(base)) >= 1,
        64nat / digits_val(length_digits(base)) == base,
        (64nat / digits_val(length_digits(base))) / 2 == base / 2,
{
    if base == 64 {
        lemma_digits_val_one('1');
        assert(digits_val(length_digits(base)) == 1);
        assert(64nat / digits_val(length_digits(base)) == base);
        assert((64nat / digits_val(length_digits(base))) / 2 == base / 2);
    } else if base == 32 {
        lemma_digits_val_one('2');
        assert(digits_val(length_digits(base)) == 2);
        assert(64nat / digits_val(length_digits(base)) == base);
        assert((64nat / digits_val(length_digits(base))) / 2 == base / 2);
    } else if base == 16 {
        lemma_digits_val_one('4');
        assert(digits_val(length_digits(base)) == 4);
        assert(64nat / digits_val(length_digits(base)) == base);
        assert((64nat / digits_val(length_digits(base))) / 2 == base / 2);
    } else if base == 8 {
        lemma_digits_val_one('8');
        assert(digits_val(length_digits(base)) == 8);
        assert(64nat / digits_val(length_digits(base)) == base);
        assert((64nat / digits_val(length_digits(base))) / 2 == base / 2);
    } else if base == 4 {
        lemma_digits_val_two('1', '6');
        assert(digits_val(length_digits(base)) == 16);
        assert(64nat / digits_val(length_digits(base)) == base) by (nonlinear_arith)
            requires
                digits_val(length_digits(base)) == 16,
                base == 4,
        ;
        assert((64nat / digits_val(length_digits(base))) / 2 == base / 2);
    } else if base == 2 {
        lemma_digits_val_two('3', '2');
        assert(digits_val(length_digits(base)) == 32);
        assert(64nat / digits_val(length_digits(base)) == base) by (nonlinear_arith)
            requires
                digits_val(length_digits(base)) == 32,
                base == 2,
        ;
        assert((64nat / digits_val(length_digits(base))) / 2 == base / 2);
    } else {
        lemma_digits_val_two('6', '4');
        assert(digits_val(length_digits(base)) == 64);
        assert(64nat / digits_val(length_digits(base)) == base) by (nonlinear_arith)
            requires
                digits_val(length_digits(base)) == 64,
                base == 1,
        ;
        assert((64nat / digits_val(length_digits(base))) / 2 == base / 2);
    }
}

proof fn lemma_digits_val_one(c: char)
    requires
        is_digit_char(c),
    ensures
        digits_val(seq![c]) == digit_val(c),
{
    assert(seq![c].drop_last() =~= Seq::<char>::empty());
    assert(seq![c].last() == c);
    assert(digits_val(Seq::<char>::empty()) == 0);
    assert(digits_val(seq![c]) == digits_val(seq![c].drop_last()) * 10 + digit_val(seq![c].last()));
}

proof fn lemma_digits_val_two(c: char, d: char)
    requires
        is_digit_char(c),
        is_digit_char(d),
    ensures
        digits_val(seq![c, d]) == digit_val(c) * 10 + digit_val(d),
{
    assert(seq![c, d].drop_last() =~= seq![c]);
    lemma_digits_val_one(c);
    assert(seq![c, d].last() == d);
    assert(digits_val(seq![c, d]) == digits_val(seq![c, d].drop_last()) * 10 + digit_val(
        seq![c, d].last(),
    ));
}

/// Every character a pitch letter can be is no digit, no `+`, no `.`
/// and no `&`.
proof fn lemma_letter_is_no_other_char(letter: char)
    requires
        is_note_letter(letter),
    ensures
        !is_digit_char(letter),
        letter != '+',
        letter != '.',
        letter != '&',
{
}

/// One rendered token, standing at `i` with either the text's end or
/// a `&` after it, scans as one segment of exactly its unit count.
proof fn lemma_segment_scans_token(
    s: Seq<char>,
    i: int,
    letter: char,
    sharp: bool,
    base: nat,
    dotted: bool,
)
    requires
        is_canon(base),
        dotted ==> base >= 2,
        is_note_letter(letter),
        0 <= i,
        i + note_prefix(letter, sharp).len() + token_text(base, dotted).len() <= s.len(),
        s.subrange(
            i,
            i + note_prefix(letter, sharp).len() + token_text(base, dotted).len(),
        ) == note_prefix(letter, sharp) + token_text(base, dotted),
        i + note_prefix(letter, sharp).len() + token_text(base, dotted).len() < s.len() ==> s[i
            + note_prefix(letter, sharp).len() + token_text(base, dotted).len()] == '&',
    ensures
        parse_segment(s, i) == Ok::<(int, nat, bool), int>(
            (
                (note_prefix(letter, sharp).len() + token_text(base, dotted).len()) as int,
                token_units(base, dotted),
                sharp,
            ),
        ),
{
    let prefix = note_prefix(letter, sharp);
    let tt = token_text(base, dotted);
    let piece = prefix + tt;
    let l = piece.len() as int;
    lemma_letter_is_no_other_char(letter);
    lemma_length_digits_facts(base);
    let ds = length_digits(base);
    assert forall|k: int| 0 <= k < l implies s[i + k] == piece[k] by {
        assert(s.subrange(i, i + l)[k] == s[i + k]);
    }
    assert(s[i + 0] == piece[0]);
    assert(piece[0] == prefix[0]);
    assert(s[i] == letter);
    let j = i + prefix.len() as int;
    assert(s[i + 1] == piece[1]);
    if sharp {
        assert(piece[1] == prefix[1]);
        assert(s[i + 1] == '+');
    } else {
        assert(piece[1] == tt[0]);
        assert(tt[0] == ds[0]);
        assert(is_digit_char(s[i + 1]));
        assert(s[i + 1] != '+');
    }
    // The digit run is exactly the length digits.
    assert forall|k: int| j <= k < j + ds.len() implies is_digit_char(#[trigger] s[k]) by {
        assert(s[i + (k - i)] == piece[k - i]);
        assert(piece[k - i] == tt[k - j]);
        assert(tt[k - j] == ds[k - j]);
    }
    let j3 = j + ds.len() as int;
    if dotted {
        assert(s[i + (j3 - i)] == piece[j3 - i]);
        assert(piece[j3 - i] == tt[j3 - j]);
        assert(tt[j3 - j] == '.');
        assert(s[j3] == '.');
        assert(!is_digit_char('.'));
    } else {
        assert(j3 == i + l);
        if j3 < s.len() {
            assert(s[j3] == '&');
            assert(!is_digit_char('&'));
        }
    }
    lemma_digit_run_len_is(s, j, j3);
    assert(s.subrange(j, j3) =~= ds) by {
        assert forall|k: int| 0 <= k < ds.len() implies s.subrange(j, j3)[k] == ds[k] by {
            assert(s.subrange(j, j3)[k] == s[j + k]);
            assert(s[i + (j + k - i)] == piece[j + k - i]);
            assert(piece[j + k - i] == tt[k]);
            assert(tt[k] == ds[k]);
        }
    }
    let n = digits_val(ds);
    assert(units_of_figure(n, dotted) == token_units(base, dotted));
}

/// Scanning a rendered tie chain from its first letter consumes the
/// whole text and sums the tokens' units.
#[verifier::rlimit(60)]
proof fn lemma_chain_scans_tokens(
    s: Seq<char>,
    i: int,
    toks: Seq<(nat, bool)>,
    letter: char,
    sharp: bool,
)
    requires
        0 <= i <= s.len(),
        toks.len() >= 1,
        forall|k: int|
            0 <= k < toks.len() ==> is_canon(#[trigger] toks[k].0) && (toks[k].1 ==> toks[k].0
                >= 2),
        is_note_letter(letter),
        norm_letter(letter) == letter,
        s.subrange(i, s.len() as int) == tokens_text_more(note_prefix(letter, sharp), toks, true),
    ensures
        parse_chain(s, i, letter) == Ok::<(int, nat), int>((s.len() - i, sum_units(toks))),
    decreases toks.len(),
{
    let prefix = note_prefix(letter, sharp);
    let full = tokens_text_more(prefix, toks, true);
    let t0 = toks[0];
    let tt = token_text(t0.0, t0.1);
    let piece = prefix + tt;
    let l = piece.len() as int;
    let rest = toks.drop_first();
    assert(s.len() - i == full.len());
    assert forall|k: int| 0 <= k < full.len() implies s[i + k] == full[k] by {
        assert(s.subrange(i, s.len() as int)[k] == s[i + k]);
    }
    if rest.len() == 0 {
        assert(tokens_text_more(prefix, rest, false) =~= Seq::<char>::empty());
        assert(full == (if true {
            Seq::<char>::empty()
        } else {
            seq!['&']
        }) + prefix + tt + tokens_text_more(prefix, rest, false));
        assert(full =~= piece);
        assert(s.subrange(i, i + l) =~= piece);
        lemma_segment_scans_token(s, i, letter, sharp, t0.0, t0.1);
        assert(i + l == s.len());
        assert(sum_units(toks) == token_units(t0.0, t0.1) + sum_units(rest));
        assert(sum_units(rest) == 0);
    } else {
        // The text after the first token is `&` and the chain of the
        // remaining tokens.
        let tail_true = tokens_text_more(prefix, rest, true);
        let tail_false = tokens_text_more(prefix, rest, false);
        let common = prefix + token_text(rest[0].0, rest[0].1) + tokens_text_more(
            prefix,
            rest.drop_first(),
            false,
        );
        assert(tail_false == (if false {
            Seq::<char>::empty()
        } else {
            seq!['&']
        }) + prefix + token_text(rest[0].0, rest[0].1) + tokens_text_more(
            prefix,
            rest.drop_first(),
            false,
        ));
        assert(tail_true == (if true {
            Seq::<char>::empty()
        } else {
            seq!['&']
        }) + prefix + token_text(rest[0].0, rest[0].1) + tokens_text_more(
            prefix,
            rest.drop_first(),
            false,
        ));
        assert(tail_true =~= common);
        assert(tail_false =~= seq!['&'] + tail_true);
        assert(full == (if true {
            Seq::<char>::empty()
        } else {
            seq!['&']
        }) + prefix + tt + tail_false);
        assert(full =~= piece + tail_false);
        assert(s.subrange(i, i + l) =~= piece);
        assert(s[i + l] == full[l]);
        assert(full[l] == tail_false[0]);
        assert(s[i + l] == '&');
        lemma_segment_scans_token(s, i, letter, sharp, t0.0, t0.1);
        assert(s[i + l + 1] == full[l + 1]);
        assert(full[l + 1] == tail_false[1]);
        assert(tail_false[1] == tail_true[0]);
        assert(tail_true[0] == common[0]);
        assert(common[0] == prefix[0]);
        assert(s[i + l + 1] == letter);
        assert(norm_letter(s[i + l + 1]) == letter);
        assert(s.len() - (i + l + 1) == tail_true.len());
        assert forall|k: int|
            0 <= k < tail_true.len() implies s.subrange(i + l + 1, s.len() as int)[k]
            == tail_true[k] by {
            assert(s.subrange(i + l + 1, s.len() as int)[k] == s[i + l + 1 + k]);
            assert(s[i + (l + 1 + k)] == full[l + 1 + k]);
            assert(full[l + 1 + k] == (piece + tail_false)[l + 1 + k]);
            assert((piece + tail_false)[l + 1 + k] == tail_false[1 + k]);
            assert(tail_false[1 + k] == (seq!['&'] + tail_true)[1 + k]);
            assert((seq!['&'] + tail_true)[1 + k] == tail_true[k]);
        }
        assert(s.subrange(i + l + 1, s.len() as int) =~= tail_true);
        assert forall|k: int| 0 <= k < rest.len() implies is_canon(#[trigger] rest[k].0) && (
        rest[k].1 ==> rest[k].0 >= 2) by {
            assert(rest[k] == toks[k + 1]);
        }
        lemma_chain_scans_tokens(s, i + l + 1, rest, letter, sharp);
        assert(i + l < s.len());
        assert(sum_units(toks) == token_units(t0.0, t0.1) + sum_units(rest));
    }
}

/// Round-trip of a note's duration: the note text the renderer emits
/// for a closed note of `units` 64th-notes is scanned back as one tie
/// chain covering the whole text whose summed duration is again
/// exactly `units` — the decoder re-sums what the encoder decomposed.
pub proof fn lemma_note_text_round_trip(key: u8, units: u16)
    requires
        units >= 1,
    ensures
        ({
            let text = note_body_text(key, units as nat);
            parse_chain(text, 0, key_letter(key)) == Ok::<(int, nat), int>(
                (text.len() as int, units as nat),
            )
        }),
{
    let letter = key_letter(key);
    let sharp = key_sharp(key);
    let toks = decompose(units as nat);
    let text = note_body_text(key, units as nat);
    lemma_decompose_canon(units as nat);
    lemma_decompose_sum(units as nat);
    assert(toks.len() >= 1);
    assert(is_note_letter(letter));
    assert(norm_letter(letter) == letter);
    assert(text.subrange(0, text.len() as int) =~= tokens_text_more(
        note_prefix(letter, sharp),
        toks,
        true,
    ));
    lemma_chain_scans_tokens(text, 0, toks, letter, sharp);
}

/// A rendered token chain (a pitch or a rest with its duration
/// tokens) standing at offset `i` with nothing after it parses as
/// exactly one note event under the current context.
proof fn lemma_note_at_offset(s: Seq<char>, i: int, letter: char, sharp: bool, units: u16, ctx: Ctx)
    requires
        units >= 1,
        0 <= i < s.len(),
        is_note_letter(letter),
        norm_letter(letter) == letter,
        s.subrange(i, s.len() as int) == prefixed_tokens_text(
            note_prefix(letter, sharp),
            decompose(units as nat),
        ),
    ensures
        parse_spec(s, i, ctx) == Ok::<Seq<NoteEvent>, int>(
            seq![note_event_new(letter, sharp, units, ctx)],
        ),
{
    let toks = decompose(units as nat);
    let prefix = note_prefix(letter, sharp);
    let text = prefixed_tokens_text(note_prefix(letter, sharp), decompose(units as nat));
    lemma_decompose_canon(units as nat);
    lemma_decompose_sum(units as nat);
    let t0 = toks[0];
    let tt = token_text(t0.0, t0.1);
    lemma_length_digits_facts(t0.0);
    // The text opens with the pitch letter, then `+` or a digit.
    assert(text == (if true {
        Seq::<char>::empty()
    } else {
        seq!['&']
    }) + prefix + tt + tokens_text_more(prefix, toks.drop_first(), false));
    assert(s.len() - i == text.len());
    assert(s.subrange(i, s.len() as int)[0] == s[i]);
    assert(s[i] == text[0]);
    assert(text[0] == prefix[0]);
    assert(s[i] == letter);
    assert(!is_ws(letter));
    assert(letter != 't' && letter != 'o' && letter != 'v');
    assert(letter != '>' && letter != '<' && letter != ':');
    assert(text.len() > 1);
    assert(s.subrange(i, s.len() as int)[1] == s[i + 1]);
    assert(s[i + 1] == text[1]);
    if sharp {
        assert(text[1] == prefix[1]);
        assert(s[i + 1] == '+');
    } else {
        assert(text[1] == tt[0]);
        assert(tt[0] == length_digits(t0.0)[0]);
        assert(is_digit_char(s[i + 1]));
        assert(s[i + 1] != '+');
    }
    assert((i + 1 < s.len() && s[i + 1] == '+') == sharp);
    lemma_chain_scans_tokens(s, i, toks, letter, sharp);
    // The chain covers the rest of the text, so the scan ends right
    // after it.
    assert(parse_spec(s, s.len() as int, Ctx { chord: false, ..ctx }) == Ok::<
        Seq<NoteEvent>,
        int,
    >(Seq::<NoteEvent>::empty()));
    let note = note_event_new(letter, sharp, units, ctx);
    assert(parse_spec(s, i, ctx) == Ok::<Seq<NoteEvent>, int>(
        seq![note] + Seq::<NoteEvent>::empty(),
    ));
    assert(seq![note] + Seq::<NoteEvent>::empty() =~= seq![note]);
}

/// Round-trip of one note through the decoder: parsing the text the
/// renderer emits for a closed note yields exactly one note event,
/// with the same pitch letter and sharp as the note's MIDI key and
/// the same quantized duration units, under whatever octave, tempo
/// and velocity context the decoder is in.
pub proof fn lemma_set_note_round_trip(key: u8, units: u16, ctx: Ctx)
    requires
        units >= 1,
    ensures
        ({
            let text = note_body_text(key, units as nat);
            parse_spec(text, 0, ctx) == Ok::<Seq<NoteEvent>, int>(
                seq![note_event_new(key_letter(key), key_sharp(key), units, ctx)],
            )
        }),
{
    let text = note_body_text(key, units as nat);
    lemma_decompose_canon(units as nat);
    assert(decompose(units as nat).len() >= 1);
    assert(text.len() >= 1);
    assert(text.subrange(0, text.len() as int) =~= text);
    assert(is_note_letter(key_letter(key)));
    assert(norm_letter(key_letter(key)) == key_letter(key));
    lemma_note_at_offset(text, 0, key_letter(key), key_sharp(key), units, ctx);
}

/// Round-trip of a rest: parsing the text the renderer emits for a
/// rest of `units` 64th-notes yields exactly one rest event of the
/// same duration.
pub proof fn lemma_rest_round_trip(units: u16, ctx: Ctx)
    requires
        units >= 1,
    ensures
        ({
            let text = prefixed_tokens_text(seq!['r'], decompose(units as nat));
            parse_spec(text, 0, ctx) == Ok::<Seq<NoteEvent>, int>(
                seq![note_event_new('r', false, units, ctx)],
            )
        }),
{
    let text = prefixed_tokens_text(seq!['r'], decompose(units as nat));
    lemma_decompose_canon(units as nat);
    assert(decompose(units as nat).len() >= 1);
    assert(note_prefix('r', false) =~= seq!['r']);
    assert(text.len() >= 1);
    assert(text.subrange(0, text.len() as int) =~= text);
    lemma_note_at_offset(text, 0, 'r', false, units, ctx);
}

/// A tempo command threads into the note after it: parsing the text
/// the renderer emits for a tempo event followed by a note yields
/// that one note, parsed under the new tempo.  The decimal digits the
/// renderer writes are read back as the same number.
pub proof fn lemma_tempo_note_round_trip(t: u32, key: u8, units: u16, ctx: Ctx)
    requires
        t >= 1,
        units >= 1,
    ensures
        ({
            let text = track_event_text(TrackEvent::SetTempo(t)) + note_body_text(
                key,
                units as nat,
            );
            parse_spec(text, 0, ctx) == Ok::<Seq<NoteEvent>, int>(
                seq![
                    note_event_new(
                        key_letter(key),
                        key_sharp(key),
                        units,
                        Ctx { tempo: t, ..ctx },
                    ),
                ],
            )
        }),
{
    let cmd = track_event_text(TrackEvent::SetTempo(t));
    let nt = note_body_text(key, units as nat);
    let text = cmd + nt;
    let ds = dec_seq(t as nat);
    let letter = key_letter(key);
    lemma_dec_seq_digits(t as nat);
    lemma_dec_seq_val(t as nat);
    lemma_decompose_canon(units as nat);
    assert(cmd == seq!['t'] + ds);
    assert(cmd.len() == 1 + ds.len());
    // The note text is nonempty and opens with the pitch letter.
    let toks = decompose(units as nat);
    let prefix = note_prefix(letter, key_sharp(key));
    assert(toks.len() >= 1);
    assert(nt == (if true {
        Seq::<char>::empty()
    } else {
        seq!['&']
    }) + prefix + token_text(toks[0].0, toks[0].1) + tokens_text_more(
        prefix,
        toks.drop_first(),
        false,
    ));
    assert(nt[0] == prefix[0]);
    assert(nt[0] == letter);
    assert(is_note_letter(letter));
    lemma_letter_is_no_other_char(letter);
    // The command's digits form the maximal digit run after the `t`.
    assert(text[0] == cmd[0]);
    assert(cmd[0] == (seq!['t'] + ds)[0]);
    assert(text[0] == 't');
    assert(!is_ws('t'));
    assert forall|k: int| 1 <= k < 1 + ds.len() implies is_digit_char(#[trigger] text[k]) by {
        assert(text[k] == cmd[k]);
        assert(cmd[k] == (seq!['t'] + ds)[k]);
        assert((seq!['t'] + ds)[k] == ds[k - 1]);
    }
    let e = 1 + ds.len() as int;
    assert(text[e] == nt[0]);
    assert(!is_digit_char(text[e]));
    lemma_digit_run_len_is(text, 1, e);
    assert(text.subrange(1, e) =~= ds) by {
        assert forall|k: int| 0 <= k < ds.len() implies text.subrange(1, e)[k] == ds[k] by {
            assert(text.subrange(1, e)[k] == text[1 + k]);
            assert(text[1 + k] == cmd[1 + k]);
            assert(cmd[1 + k] == (seq!['t'] + ds)[1 + k]);
        }
    }
    assert(digits_val(text.subrange(1, e)) == t);
    // The rest of the text is exactly the note.
    assert(text.subrange(e, text.len() as int) =~= nt) by {
        assert forall|k: int| 0 <= k < nt.len() implies text.subrange(e, text.len() as int)[k]
            == nt[k] by {
            assert(text.subrange(e, text.len() as int)[k] == text[e + k]);
            assert(text[e + k] == nt[k]);
        }
    }
    assert(is_note_letter(letter));
    assert(norm_letter(letter) == letter);
    lemma_note_at_offset(text, e, letter, key_sharp(key), units, Ctx { tempo: t, ..ctx });
}

} // verus!
