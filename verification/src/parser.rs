//! The MML decoder: a single left-to-right scan over the text that
//! re-derives octave/tempo/velocity context and produces playable
//! note events, and the chord-grouping fold that turns the note
//! stream into play commands.
//!
//! The whole pass is modeled by `parse_spec`; the executable scanner
//! is proved to return exactly what the model says, including the
//! offset of the first malformed token on failure.

use vstd::prelude::*;
use vstd::string::{StrSliceExecFns, StringExecFns};
use crate::text::{
    is_digit_char,
    digit_val,
    digits_val,
    digit_run_len,
    lemma_digit_run_len_bounds,
    lemma_digit_run_len_is,
};

verus! {

/// Default velocity of the parse context, in MML scale.
pub const DEFAULT_VELOCITY: u8 = 12;

/// Default octave of the parse context.
pub const DEFAULT_OCTAVE: u8 = 4;

/// Default tempo of the parse context, beats per minute.
pub const DEFAULT_TEMPO: u32 = 120;

/// A malformed token: the scan fails at this character offset.
#[derive(Clone, Copy, Debug, PartialEq, Eq, Structural)]
pub struct ParseError {
    pub offset: usize,
}

/// A playable note produced by the parser: pitch letter with optional
/// sharp, the context it was parsed under, its summed duration in
/// 64th-note units and in milliseconds, and whether it sounds
/// together with the previous note.
#[derive(Clone, Copy, Debug, PartialEq, Eq, Structural)]
pub struct NoteEvent {
    pub letter: char,
    pub sharp: bool,
    pub octave: u8,
    pub velocity: u8,
    pub tempo: u32,
    pub duration_in_note_64: u16,
    pub duration_in_ms: u32,
    pub is_connected_to_prev_note: bool,
}

/// One decoded MML token, the decoder-side mirror of the track
/// events.
#[derive(Clone, Copy, Debug)]
pub enum MmlEvent {
    SetNote(NoteEvent),
    SetTempo(u32),
    SetOctave(u8),
    IncreOctave,
    DecreOctave,
    SetVelocity(u8),
    ConnectChord,
}

/// The parser's running context.
#[derive(Clone, Copy, Debug, PartialEq, Eq, Structural)]
pub struct Ctx {
    pub velocity: u8,
    pub octave: u8,
    pub tempo: u32,
    pub chord: bool,
}

/// The context a parse starts from.
pub open spec fn init_ctx() -> Ctx {
    Ctx { velocity: DEFAULT_VELOCITY, octave: DEFAULT_OCTAVE, tempo: DEFAULT_TEMPO, chord: false }
}

/// Whitespace carries no meaning and is skipped.
pub open spec fn is_ws(c: char) -> bool {
    c == ' ' || c == '\n' || c == '\r' || c == '\t'
}

/// The characters that can open a note token: a pitch letter of
/// either case, or `r` for a rest.
pub open spec fn is_note_letter(c: char) -> bool {
    ('a' <= c && c <= 'g') || ('A' <= c && c <= 'G') || c == 'r' || c == 'R'
}

/// Pitch letters compare case-insensitively; the parser stores them
/// lower case.
pub open spec fn norm_letter(c: char) -> char {
    if c == 'A' {
        'a'
    } else if c == 'B' {
        'b'
    } else if c == 'C' {
        'c'
    } else if c == 'D' {
        'd'
    } else if c == 'E' {
        'e'
    } else if c == 'F' {
        'f'
    } else if c == 'G' {
        'g'
    } else if c == 'R' {
        'r'
    } else {
        c
    }
}

/// The units a single length figure denotes: `64 / n`, plus half
/// again when dotted (a figure of 4 is a quarter note, 16 units).
pub open spec fn units_of_figure(n: nat, dotted: bool) -> nat
    recommends
        n >= 1,
{
    64nat / n + (if dotted {
        (64nat / n) / 2
    } else {
        0nat
    })
}

/// Scan one note segment at `i`, where `s[i]` is the segment's pitch
/// letter: optional `+`, a nonzero run of digits whose value must be
/// nonzero, optional dot.  Returns (consumed length, units, sharp) or
/// the offset of the malformed part.
pub open spec fn parse_segment(s: Seq<char>, i: int) -> Result<(int, nat, bool), int>
    recommends
        0 <= i < s.len(),
{
    let sharp = i + 1 < s.len() && s[i + 1] == '+';
    let j = if sharp {
        i + 2
    } else {
        i + 1
    };
    if j > s.len() {
        Err(i)
    } else {
        let d = digit_run_len(s, j);
        if d == 0 {
            Err(j)
        } else {
            let n = digits_val(s.subrange(j, j + d));
            if n == 0 {
                Err(j)
            } else {
                let j3 = j + d;
                let dotted = j3 < s.len() && s[j3] == '.';
                let j4 = if dotted {
                    j3 + 1
                } else {
                    j3
                };
                Ok((j4 - i, units_of_figure(n, dotted), sharp))
            }
        }
    }
}

/// A segment consumes at least its letter and one digit.
pub proof fn lemma_parse_segment_len(s: Seq<char>, i: int)
    requires
        0 <= i < s.len(),
    ensures
        parse_segment(s, i) matches Ok(lus) ==> 2 <= lus.0 && i + lus.0 <= s.len(),
{
    let sharp = i + 1 < s.len() && s[i + 1] == '+';
    let j = if sharp {
        i + 2
    } else {
        i + 1
    };
    if j <= s.len() {
        lemma_digit_run_len_bounds(s, j);
    }
}

/// Scan a tie chain starting at the letter at `i`: one segment, then
/// while an `&` follows, either the same letter continues the chain
/// (its units add up), or the `&` is consumed alone and ends the
/// token.  Returns (consumed length, summed units) or the offset of
/// the malformed part.
pub open spec fn parse_chain(s: Seq<char>, i: int, letter: char) -> Result<(int, nat), int>
    decreases s.len() - i,
    when 0 <= i < s.len()
    via parse_chain_dec
{
    match parse_segment(s, i) {
        Err(o) => Err(o),
        Ok((l, u, _sharp)) => {
            let j = i + l;
            if j < s.len() && s[j] == '&' {
                if j + 1 < s.len() && norm_letter(s[j + 1]) == letter {
                    match parse_chain(s, j + 1, letter) {
                        Err(o) => Err(o),
                        Ok((l2, u2)) => Ok((j + 1 + l2 - i, u + u2)),
                    }
                } else {
                    Ok((j + 1 - i, u))
                }
            } else {
                Ok((j - i, u))
            }
        },
    }
}

#[via_fn]
proof fn parse_chain_dec(s: Seq<char>, i: int, letter: char) {
    lemma_parse_segment_len(s, i);
}

/// A chain consumes at least one segment and stays inside the text.
pub proof fn lemma_parse_chain_len(s: Seq<char>, i: int, letter: char)
    requires
        0 <= i < s.len(),
    ensures
        parse_chain(s, i, letter) matches Ok(lu) ==> 2 <= lu.0 && i + lu.0 <= s.len(),
    decreases s.len() - i,
{
    lemma_parse_segment_len(s, i);
    match parse_segment(s, i) {
        Err(_) => {},
        Ok((l, u, _sharp)) => {
            let j = i + l;
            if j < s.len() && s[j] == '&' {
                if j + 1 < s.len() && norm_letter(s[j + 1]) == letter {
                    lemma_parse_chain_len(s, j + 1, letter);
                }
            }
        },
    }
}

/// Milliseconds a duration lasts at a tempo: a quarter note (16
/// units) takes `60000 / tempo` milliseconds.
pub open spec fn ms_of_units(units: u16, tempo: u32) -> u32
    recommends
        tempo >= 1,
{
    (units as nat * 3750 / tempo as nat) as u32
}

/// The note event a parsed token yields under a context.
pub open spec fn note_event_new(letter: char, sharp: bool, units: u16, ctx: Ctx) -> NoteEvent {
    NoteEvent {
        letter,
        sharp,
        octave: ctx.octave,
        velocity: ctx.velocity,
        tempo: ctx.tempo,
        duration_in_note_64: units,
        duration_in_ms: ms_of_units(units, ctx.tempo),
        is_connected_to_prev_note: ctx.chord,
    }
}

/// Octave step up, saturating at the top of the `u8` range.
pub open spec fn inc_octave(o: u8) -> u8 {
    if o == 255 {
        255
    } else {
        (o + 1) as u8
    }
}

/// Octave step down, saturating at zero.
pub open spec fn dec_octave(o: u8) -> u8 {
    if o == 0 {
        0
    } else {
        (o - 1) as u8
    }
}

/// The whole parse pass: from offset `i` under context `ctx`, the
/// note events the rest of the text denotes, or the offset of the
/// first malformed token.  Commands update the context; a note token
/// is scanned as a tie chain, capped at `u16::MAX` units, and resets
/// the chord flag.
pub open spec fn parse_spec(s: Seq<char>, i: int, ctx: Ctx) -> Result<Seq<NoteEvent>, int>
    decreases s.len() - i,
    when 0 <= i <= s.len()
    via parse_spec_dec
{
    if i >= s.len() {
        Ok(Seq::<NoteEvent>::empty())
    } else {
        let c = s[i];
        if is_ws(c) {
            parse_spec(s, i + 1, ctx)
        } else if c == 't' || c == 'o' || c == 'v' {
            let d = digit_run_len(s, i + 1);
            if d == 0 {
                Err(i)
            } else {
                let n = digits_val(s.subrange(i + 1, i + 1 + d));
                if c == 't' {
                    if n == 0 || n > u32::MAX {
                        Err(i)
                    } else {
                        parse_spec(s, i + 1 + d, Ctx { tempo: n as u32, ..ctx })
                    }
                } else if c == 'o' {
                    if n > u8::MAX {
                        Err(i)
                    } else {
                        parse_spec(s, i + 1 + d, Ctx { octave: n as u8, ..ctx })
                    }
                } else {
                    if n > u8::MAX {
                        Err(i)
                    } else {
                        parse_spec(s, i + 1 + d, Ctx { velocity: n as u8, ..ctx })
                    }
                }
            }
        } else if c == '>' {
            parse_spec(s, i + 1, Ctx { octave: inc_octave(ctx.octave), ..ctx })
        } else if c == '<' {
            parse_spec(s, i + 1, Ctx { octave: dec_octave(ctx.octave), ..ctx })
        } else if c == ':' {
            parse_spec(s, i + 1, Ctx { chord: true, ..ctx })
        } else if is_note_letter(c) {
            match parse_chain(s, i, norm_letter(c)) {
                Err(o) => Err(o),
                Ok((l, u)) => {
                    if u > u16::MAX {
                        Err(i)
                    } else {
                        let sharp = i + 1 < s.len() && s[i + 1] == '+';
                        let note = note_event_new(norm_letter(c), sharp, u as u16, ctx);
                        match parse_spec(s, i + l, Ctx { chord: false, ..ctx }) {
                            Err(o) => Err(o),
                            Ok(rest) => Ok(seq![note] + rest),
                        }
                    }
                },
            }
        } else {
            Err(i)
        }
    }
}

#[via_fn]
proof fn parse_spec_dec(s: Seq<char>, i: int, ctx: Ctx) {
    if i < s.len() {
        lemma_digit_run_len_bounds(s, i + 1);
        let c = s[i];
        if is_note_letter(c) {
            lemma_parse_chain_len(s, i, norm_letter(c));
        }
    }
}

fn is_digit_exec(c: char) -> (b: bool)
    ensures
        b == is_digit_char(c),
{
    '0' <= c && c <= '9'
}

/// The maximal run of ASCII digits immediately after the character at
/// `start` (a `t`, `o` or `v` command, or a length figure's letter).
pub fn get_first_mml_value(mml: &str, start: usize) -> (r: String)
    requires
        start < mml@.len(),
    ensures
        r@ == mml@.subrange(
            start as int + 1,
            start as int + 1 + digit_run_len(mml@, start as int + 1),
        ),
        r@.len() == digit_run_len(mml@, start as int + 1),
        forall|j: int| 0 <= j < r@.len() ==> is_digit_char(#[trigger] r@[j]),
{
    let len: usize = mml.unicode_len();
    let mut end: usize = start + 1;
    while end < len && is_digit_exec(mml.get_char(end))
        invariant
            start + 1 <= end <= len,
            len == mml@.len(),
            forall|j: int| start + 1 <= j < end ==> is_digit_char(#[trigger] mml@[j]),
        decreases len - end,
    {
        end = end + 1;
    }
    proof {
        lemma_digit_run_len_is(mml@, start as int + 1, end as int);
    }
    String::from_str(mml.substring_char(start + 1, end))
}

/// Read a digit string as a number, reporting overflow past `u32`.
fn parse_u32_digits(s: &str) -> (r: Option<u32>)
    requires
        forall|j: int| 0 <= j < s@.len() ==> is_digit_char(#[trigger] s@[j]),
    ensures
        match r {
            Some(v) => v as nat == digits_val(s@),
            None => digits_val(s@) > u32::MAX,
        },
{
    let len: usize = s.unicode_len();
    let mut i: usize = 0;
    let mut acc: u32 = 0;
    let mut overflow: bool = false;
    proof {
        assert(s@.take(0) =~= Seq::<char>::empty());
    }
    while i < len
        invariant
            i <= len,
            len == s@.len(),
            forall|j: int| 0 <= j < s@.len() ==> is_digit_char(#[trigger] s@[j]),
            !overflow ==> acc as nat == digits_val(s@.take(i as int)),
            overflow ==> digits_val(s@.take(i as int)) > u32::MAX,
        decreases len - i,
    {
        let c = s.get_char(i);
        let d: u32 = (c as u32) - 48;
        proof {
            assert(is_digit_char(s@[i as int]));
            assert(d == digit_val(c));
            assert(d <= 9);
            assert(s@.take(i as int + 1).drop_last() =~= s@.take(i as int));
            assert(s@.take(i as int + 1).last() == s@[i as int]);
        }
        let ghost prev_val = digits_val(s@.take(i as int));
        if overflow || acc > (u32::MAX - d) / 10 {
            proof {
                if !overflow {
                    assert(acc * 10 + d > u32::MAX) by (nonlinear_arith)
                        requires
                            acc > (u32::MAX - d) / 10,
                            d <= 9,
                    ;
                    assert(digits_val(s@.take(i as int + 1)) == prev_val * 10 + d);
                } else {
                    assert(prev_val * 10 + d > u32::MAX) by (nonlinear_arith)
                        requires
                            prev_val > u32::MAX,
                            d >= 0,
                    ;
                }
            }
            overflow = true;
        } else {
            proof {
                assert(acc * 10 + d <= u32::MAX) by (nonlinear_arith)
                    requires
                        acc <= (u32::MAX - d) / 10,
                        d <= 9,
                ;
            }
            acc = acc * 10 + d;
        }
        i = i + 1;
    }
    proof {
        assert(s@.take(len as int) =~= s@);
    }
    if overflow {
        None
    } else {
        Some(acc)
    }
}

/// Scan one note segment whose letter stands at `i`.
fn scan_segment(mml: &str, i: usize) -> (r: Result<(usize, u32, bool), ParseError>)
    requires
        i < mml@.len(),
    ensures
        match r {
            Ok(lus) => parse_segment(mml@, i as int) == Ok::<(int, nat, bool), int>(
                (lus.0 as int, lus.1 as nat, lus.2),
            ) && lus.1 <= 96 && 2 <= lus.0 && i + lus.0 <= mml@.len(),
            Err(e) => parse_segment(mml@, i as int) == Err::<(int, nat, bool), int>(
                e.offset as int,
            ),
        },
{
    let len: usize = mml.unicode_len();
    let sharp: bool = i + 1 < len && mml.get_char(i + 1) == '+';
    let j: usize = if sharp {
        i + 2
    } else {
        i + 1
    };
    proof {
        lemma_digit_run_len_bounds(mml@, j as int);
    }
    let digits = get_first_mml_value(mml, j - 1);
    let dlen: usize = digits.as_str().unicode_len();
    if dlen == 0 {
        return Err(ParseError { offset: j });
    }
    let val = parse_u32_digits(digits.as_str());
    let ghost n = digits_val(mml@.subrange(j as int, j as int + digit_run_len(mml@, j as int)));
    let n_fig: u32 = match val {
        Some(v) => {
            if v == 0 {
                return Err(ParseError { offset: j });
            }
            if v > 64 {
                65
            } else {
                v
            }
        },
        None => 65,
    };
    proof {
        assert(n > 0);
        if n_fig == 65 {
            assert(n >= 65);
            assert(64nat / n == 0) by (nonlinear_arith)
                requires
                    n >= 65,
            ;
        } else {
            assert(n_fig as nat == n);
        }
    }
    let j3: usize = j + dlen;
    let dotted: bool = j3 < len && mml.get_char(j3) == '.';
    let j4: usize = if dotted {
        j3 + 1
    } else {
        j3
    };
    let units: u32 = 64 / n_fig + (if dotted {
        (64 / n_fig) / 2
    } else {
        0
    });
    proof {
        assert(units as nat == units_of_figure(n, dotted));
        assert(parse_segment(mml@, i as int) == Ok::<(int, nat, bool), int>(
            ((j4 - i) as int, units_of_figure(n, dotted), sharp),
        ));
    }
    Ok((j4 - i, units, sharp))
}

/// The parsed form of one whole note token: its consumed length, its
/// (lower-cased) pitch letter, whether the first segment is sharp,
/// and the summed units of the tie chain, saturated at one past
/// `u16::MAX` so that an oversized chain is detectable.
#[derive(Clone, Copy, Debug)]
pub struct MmlNoteToken {
    pub len: usize,
    pub letter: char,
    pub sharp: bool,
    pub units: u32,
}

/// Scan a whole note token (a tie chain) whose first letter stands at
/// `start`.
pub fn get_first_mml_note(mml: &str, start: usize) -> (r: Result<MmlNoteToken, ParseError>)
    requires
        start < mml@.len(),
        is_note_letter(mml@[start as int]),
    ensures
        match r {
            Ok(tok) => {
                &&& tok.letter == norm_letter(mml@[start as int])
                &&& tok.sharp == (start + 1 < mml@.len() && mml@[start as int + 1] == '+')
                &&& parse_chain(mml@, start as int, tok.letter) matches Ok(lu) && lu.0
                    == tok.len as int && tok.units == (if lu.1 > 65536 {
                    65536nat
                } else {
                    lu.1
                })
                &&& start + tok.len <= mml@.len()
            },
            Err(e) => parse_chain(mml@, start as int, norm_letter(mml@[start as int]))
                == Err::<(int, nat), int>(e.offset as int),
        },
{
    let letter_raw = mml.get_char(start);
    let letter = norm_letter_exec(letter_raw);
    let len: usize = mml.unicode_len();
    let mut pos: usize = start;
    let mut total: u32 = 0;
    let mut sharp: bool = false;
    let ghost mut uacc: nat = 0nat;
    loop
        invariant
            start <= pos < len,
            len == mml@.len(),
            letter == norm_letter(mml@[start as int]),
            total == (if uacc > 65536 {
                65536nat
            } else {
                uacc
            }),
            total <= 65536,
            pos == start ==> (uacc == 0 && !sharp),
            pos > start ==> sharp == (start + 1 < mml@.len() && mml@[start as int + 1] == '+'),
            (match parse_chain(mml@, pos as int, letter) {
                Ok(lu) => parse_chain(mml@, start as int, letter) == Ok::<(int, nat), int>(
                    (pos - start + lu.0, (uacc + lu.1) as nat),
                ),
                Err(o) => parse_chain(mml@, start as int, letter) == Err::<(int, nat), int>(o),
            }),
        decreases len - pos,
    {
        let seg = scan_segment(mml, pos);
        match seg {
            Err(e) => {
                return Err(e);
            },
            Ok((l, u, sh)) => {
                if pos == start {
                    sharp = sh;
                }
                proof {
                    lemma_parse_chain_len(mml@, pos as int, letter);
                }
                let ghost uacc0 = uacc;
                proof {
                    uacc = (uacc + u) as nat;
                }
                total = if total + u > 65536 {
                    65536
                } else {
                    total + u
                };
                let j: usize = pos + l;
                if j < len && mml.get_char(j) == '&' {
                    if j + 1 < len && norm_letter_exec(mml.get_char(j + 1)) == letter {
                        pos = j + 1;
                    } else {
                        return Ok(MmlNoteToken { len: j + 1 - start, letter, sharp, units: total });
                    }
                } else {
                    return Ok(MmlNoteToken { len: j - start, letter, sharp, units: total });
                }
            },
        }
    }
}

/// How one decoded event changes the running context: commands set or
/// step their field, a chord marker arms the flag, a note disarms it.
pub open spec fn step_ctx(ctx: Ctx, ev: MmlEvent) -> Ctx {
    match ev {
        MmlEvent::SetNote(_) => Ctx { chord: false, ..ctx },
        MmlEvent::SetTempo(t) => Ctx { tempo: t, ..ctx },
        MmlEvent::SetOctave(o) => Ctx { octave: o, ..ctx },
        MmlEvent::IncreOctave => Ctx { octave: inc_octave(ctx.octave), ..ctx },
        MmlEvent::DecreOctave => Ctx { octave: dec_octave(ctx.octave), ..ctx },
        MmlEvent::SetVelocity(v) => Ctx { velocity: v, ..ctx },
        MmlEvent::ConnectChord => Ctx { chord: true, ..ctx },
    }
}

/// The notes one decoded event contributes to the output.
pub open spec fn emitted(ev: MmlEvent) -> Seq<NoteEvent> {
    match ev {
        MmlEvent::SetNote(n) => seq![n],
        _ => Seq::<NoteEvent>::empty(),
    }
}

proof fn lemma_empty_prepend(r: Result<Seq<NoteEvent>, int>)
    ensures
        (match r {
            Ok(rest) => Ok::<Seq<NoteEvent>, int>(Seq::<NoteEvent>::empty() + rest),
            Err(o) => Err::<Seq<NoteEvent>, int>(o),
        }) == r,
{
    match r {
        Ok(rest) => {
            assert(Seq::<NoteEvent>::empty() + rest =~= rest);
        },
        Err(_) => {},
    }
}

fn is_ws_exec(c: char) -> (b: bool)
    ensures
        b == is_ws(c),
{
    c == ' ' || c == '\n' || c == '\r' || c == '\t'
}

fn is_note_letter_exec(c: char) -> (b: bool)
    ensures
        b == is_note_letter(c),
{
    ('a' <= c && c <= 'g') || ('A' <= c && c <= 'G') || c == 'r' || c == 'R'
}

impl NoteEvent {
    /// Build the note a parsed token denotes under the current
    /// context: duration in milliseconds follows from the units and
    /// the tempo.
    pub fn from_mml(
        letter: char,
        sharp: bool,
        units: u16,
        octave: u8,
        velocity: u8,
        tempo: u32,
        is_connected: bool,
    ) -> (n: NoteEvent)
        requires
            tempo >= 1,
        ensures
            n == note_event_new(
                letter,
                sharp,
                units,
                Ctx { velocity, octave, tempo, chord: is_connected },
            ),
    {
        let ms: u32 = ((units as u64 * 3750) / (tempo as u64)) as u32;
        NoteEvent {
            letter,
            sharp,
            octave,
            velocity,
            tempo,
            duration_in_note_64: units,
            duration_in_ms: ms,
            is_connected_to_prev_note: is_connected,
        }
    }
}

/// A stateful MML parse: the raw text and the note events it decoded
/// to.
#[derive(Debug)]
pub struct Parser {
    pub raw_mml: String,
    pub notes: Vec<NoteEvent>,
}

impl Parser {
    /// Decode the next event at `index`: skip whitespace, then
    /// dispatch on the next character; a command updates the context,
    /// a note token becomes a note event.  Returns `None` at end of
    /// input, or the offset of the first malformed token.
    pub fn parse_event(
        &self,
        index: &mut usize,
        current_mml_velocity: u8,
        current_octave: u8,
        current_tempo: u32,
        is_connect_chord: bool,
    ) -> (r: Result<Option<MmlEvent>, ParseError>)
        requires
            current_tempo >= 1,
            *old(index) <= self.raw_mml@.len(),
        ensures
            ({
                let s = self.raw_mml@;
                let ctx = Ctx {
                    velocity: current_mml_velocity,
                    octave: current_octave,
                    tempo: current_tempo,
                    chord: is_connect_chord,
                };
                match r {
                    Ok(None) => parse_spec(s, *old(index) as int, ctx) == Ok::<
                        Seq<NoteEvent>,
                        int,
                    >(Seq::<NoteEvent>::empty()) && *final(index) <= s.len(),
                    Ok(Some(ev)) => {
                        &&& *old(index) < *final(index) <= s.len()
                        &&& (ev matches MmlEvent::SetTempo(t) ==> t >= 1)
                        &&& parse_spec(s, *old(index) as int, ctx) == (match parse_spec(
                            s,
                            *final(index) as int,
                            step_ctx(ctx, ev),
                        ) {
                            Ok(rest) => Ok::<Seq<NoteEvent>, int>(emitted(ev) + rest),
                            Err(o) => Err::<Seq<NoteEvent>, int>(o),
                        })
                    },
                    Err(e) => parse_spec(s, *old(index) as int, ctx) == Err::<
                        Seq<NoteEvent>,
                        int,
                    >(e.offset as int),
                }
            }),
    {
        let ghost s = self.raw_mml@;
        let ghost ctx = Ctx {
            velocity: current_mml_velocity,
            octave: current_octave,
            tempo: current_tempo,
            chord: is_connect_chord,
        };
        let mml: &str = self.raw_mml.as_str();
        let s_len: usize = mml.unicode_len();
        let mut i: usize = *index;
        while i < s_len && is_ws_exec(mml.get_char(i))
            invariant
                *old(index) <= i <= s_len,
                s_len == s.len(),
                s == self.raw_mml@,
                mml@ == s,
                parse_spec(s, i as int, ctx) == parse_spec(s, *old(index) as int, ctx),
            decreases s_len - i,
        {
            i = i + 1;
        }
        if i >= s_len {
            *index = i;
            return Ok(None);
        }
        let c = mml.get_char(i);
        if c == 't' || c == 'o' || c == 'v' {
            let value = get_first_mml_value(mml, i);
            let vlen: usize = value.as_str().unicode_len();
            if vlen == 0 {
                return Err(ParseError { offset: i });
            }
            let val = parse_u32_digits(value.as_str());
            proof {
                lemma_digit_run_len_bounds(s, i as int + 1);
            }
            if c == 't' {
                match val {
                    Some(v) => {
                        if v == 0 {
                            return Err(ParseError { offset: i });
                        }
                        *index = i + 1 + vlen;
                        proof {
                            lemma_empty_prepend(
                                parse_spec(s, *index as int, Ctx { tempo: v, ..ctx }),
                            );
                        }
                        return Ok(Some(MmlEvent::SetTempo(v)));
                    },
                    None => {
                        return Err(ParseError { offset: i });
                    },
                }
            } else if c == 'o' {
                match val {
                    Some(v) => {
                        if v > 255 {
                            return Err(ParseError { offset: i });
                        }
                        *index = i + 1 + vlen;
                        proof {
                            lemma_empty_prepend(
                                parse_spec(s, *index as int, Ctx { octave: v as u8, ..ctx }),
                            );
                        }
                        return Ok(Some(MmlEvent::SetOctave(v as u8)));
                    },
                    None => {
                        return Err(ParseError { offset: i });
                    },
                }
            } else {
                match val {
                    Some(v) => {
                        if v > 255 {
                            return Err(ParseError { offset: i });
                        }
                        *index = i + 1 + vlen;
                        proof {
                            lemma_empty_prepend(
                                parse_spec(s, *index as int, Ctx { velocity: v as u8, ..ctx }),
                            );
                        }
                        return Ok(Some(MmlEvent::SetVelocity(v as u8)));
                    },
                    None => {
                        return Err(ParseError { offset: i });
                    },
                }
            }
        } else if c == '>' {
            *index = i + 1;
            proof {
                lemma_empty_prepend(
                    parse_spec(s, *index as int, Ctx { octave: inc_octave(ctx.octave), ..ctx }),
                );
            }
            return Ok(Some(MmlEvent::IncreOctave));
        } else if c == '<' {
            *index = i + 1;
            proof {
                lemma_empty_prepend(
                    parse_spec(s, *index as int, Ctx { octave: dec_octave(ctx.octave), ..ctx }),
                );
            }
            return Ok(Some(MmlEvent::DecreOctave));
        } else if c == ':' {
            *index = i + 1;
            proof {
                lemma_empty_prepend(parse_spec(s, *index as int, Ctx { chord: true, ..ctx }));
            }
            return Ok(Some(MmlEvent::ConnectChord));
        } else if is_note_letter_exec(c) {
            match get_first_mml_note(mml, i) {
                Err(e) => {
                    return Err(e);
                },
                Ok(tok) => {
                    if tok.units > 65535 {
                        return Err(ParseError { offset: i });
                    }
                    let note = NoteEvent::from_mml(
                        tok.letter,
                        tok.sharp,
                        tok.units as u16,
                        current_octave,
                        current_mml_velocity,
                        current_tempo,
                        is_connect_chord,
                    );
                    *index = i + tok.len;
                    proof {
                        let ii = i as int;
                        lemma_parse_chain_len(s, ii, norm_letter(s[ii]));
                        match parse_chain(s, ii, norm_letter(s[ii])) {
                            Ok(lu) => {
                                assert(lu.0 == tok.len as int);
                                assert(ii + lu.0 == *index);
                                assert(*index <= s.len());
                                assert(lu.1 <= 65535);
                                assert(tok.units as nat == lu.1);
                                assert(note == note_event_new(
                                    norm_letter(s[ii]),
                                    ii + 1 < s.len() && s[ii + 1] == '+',
                                    lu.1 as u16,
                                    ctx,
                                ));
                                assert(parse_spec(s, ii, ctx) == (match parse_spec(
                                    s,
                                    ii + lu.0,
                                    Ctx { chord: false, ..ctx },
                                ) {
                                    Err(o) => Err::<Seq<NoteEvent>, int>(o),
                                    Ok(rest) => Ok::<Seq<NoteEvent>, int>(seq![note] + rest),
                                }));
                            },
                            Err(_) => {
                                assert(false);
                            },
                        }
                    }
                    return Ok(Some(MmlEvent::SetNote(note)));
                },
            }
        } else {
            return Err(ParseError { offset: i });
        }
    }

    /// Run the scan from the start of the text, folding each decoded
    /// event into the running context and collecting the notes.
    pub fn parse_note_events(&mut self) -> (r: Result<(), ParseError>)
        requires
            old(self).notes@.len() == 0,
        ensures
            final(self).raw_mml@ == old(self).raw_mml@,
            (match r {
                Ok(_) => parse_spec(old(self).raw_mml@, 0, init_ctx()) == Ok::<
                    Seq<NoteEvent>,
                    int,
                >(final(self).notes@),
                Err(e) => parse_spec(old(self).raw_mml@, 0, init_ctx()) == Err::<
                    Seq<NoteEvent>,
                    int,
                >(e.offset as int),
            }),
    {
        let ghost s = self.raw_mml@;
        let mut index: usize = 0;
        let mut current_mml_velocity: u8 = DEFAULT_VELOCITY;
        let mut current_octave: u8 = DEFAULT_OCTAVE;
        let mut current_tempo: u32 = DEFAULT_TEMPO;
        let mut is_connect_chord: bool = false;
        loop
            invariant
                current_tempo >= 1,
                index <= s.len(),
                s == self.raw_mml@,
                self.raw_mml@ == old(self).raw_mml@,
                ({
                    let ctx = Ctx {
                        velocity: current_mml_velocity,
                        octave: current_octave,
                        tempo: current_tempo,
                        chord: is_connect_chord,
                    };
                    match parse_spec(s, index as int, ctx) {
                        Ok(rest) => parse_spec(s, 0, init_ctx()) == Ok::<Seq<NoteEvent>, int>(
                            self.notes@ + rest,
                        ),
                        Err(o) => parse_spec(s, 0, init_ctx()) == Err::<Seq<NoteEvent>, int>(o),
                    }
                }),
            decreases s.len() - index,
        {
            let ghost idx0 = index as int;
            let ghost ctx0 = Ctx {
                velocity: current_mml_velocity,
                octave: current_octave,
                tempo: current_tempo,
                chord: is_connect_chord,
            };
            let ghost notes0 = self.notes@;
            let r = self.parse_event(
                &mut index,
                current_mml_velocity,
                current_octave,
                current_tempo,
                is_connect_chord,
            );
            match r {
                Err(e) => {
                    return Err(e);
                },
                Ok(None) => {
                    proof {
                        assert(self.notes@ + Seq::<NoteEvent>::empty() =~= self.notes@);
                    }
                    return Ok(());
                },
                Ok(Some(ev)) => {
                    match ev {
                        MmlEvent::SetNote(n) => {
                            self.notes.push(n);
                            is_connect_chord = false;
                        },
                        MmlEvent::SetTempo(t) => {
                            current_tempo = t;
                        },
                        MmlEvent::SetOctave(o) => {
                            current_octave = o;
                        },
                        MmlEvent::IncreOctave => {
                            current_octave = if current_octave == 255 {
                                255
                            } else {
                                current_octave + 1
                            };
                        },
                        MmlEvent::DecreOctave => {
                            current_octave = if current_octave == 0 {
                                0
                            } else {
                                current_octave - 1
                            };
                        },
                        MmlEvent::SetVelocity(v) => {
                            current_mml_velocity = v;
                        },
                        MmlEvent::ConnectChord => {
                            is_connect_chord = true;
                        },
                    }
                    proof {
                        let ctx1 = Ctx {
                            velocity: current_mml_velocity,
                            octave: current_octave,
                            tempo: current_tempo,
                            chord: is_connect_chord,
                        };
                        assert(ctx1 == step_ctx(ctx0, ev));
                        assert(self.notes@ =~= notes0 + emitted(ev));
                        match parse_spec(s, index as int, ctx1) {
                            Ok(rest) => {
                                assert(parse_spec(s, idx0, ctx0) == Ok::<Seq<NoteEvent>, int>(
                                    emitted(ev) + rest,
                                ));
                                assert(notes0 + (emitted(ev) + rest) =~= (notes0 + emitted(ev))
                                    + rest);
                            },
                            Err(_) => {},
                        }
                    }
                },
            }
        }
    }

    /// Parse a whole MML text into its note events, or report the
    /// offset of the first malformed token.
    pub fn parse(mml: String) -> (r: Result<Parser, ParseError>)
        ensures
            (match r {
                Ok(p) => p.raw_mml@ == mml@ && parse_spec(mml@, 0, init_ctx()) == Ok::<
                    Seq<NoteEvent>,
                    int,
                >(p.notes@),
                Err(e) => parse_spec(mml@, 0, init_ctx()) == Err::<Seq<NoteEvent>, int>(
                    e.offset as int,
                ),
            }),
    {
        let mut result = Parser { raw_mml: mml, notes: Vec::new() };
        match result.parse_note_events() {
            Ok(_) => Ok(result),
            Err(e) => Err(e),
        }
    }
}

/// One playback action: a single note, or several notes sounded
/// simultaneously as a chord.
#[derive(Clone, Debug)]
pub enum PlayCommand {
    PlayNote(NoteEvent),
    PlayChord(Vec<NoteEvent>),
}

/// The specification-level mirror of a play command.
pub enum PlanCmd {
    Single(NoteEvent),
    Chord(Seq<NoteEvent>),
}

/// The view of one executable play command.
pub open spec fn cmd_view(c: PlayCommand) -> PlanCmd {
    match c {
        PlayCommand::PlayNote(n) => PlanCmd::Single(n),
        PlayCommand::PlayChord(v) => PlanCmd::Chord(v@),
    }
}

/// The view of an executable play command list.
pub open spec fn cmds_view(v: Seq<PlayCommand>) -> Seq<PlanCmd> {
    v.map_values(|c: PlayCommand| cmd_view(c))
}

/// The player's folding state: the commands planned so far, the one
/// note held back (the player always plays one note behind, so it can
/// see whether the next note forms a chord with it), and the chord
/// group currently being collected.
pub struct PlanState {
    pub plan: Seq<PlanCmd>,
    pub before: Option<NoteEvent>,
    pub chord: Seq<NoteEvent>,
}

/// One step of chord grouping.  A connected note joins the current
/// chord group, seeding it with the held-back note; a non-connected
/// note flushes a pending group as one chord, or plays the held-back
/// single note, and becomes the new held-back note.
pub open spec fn plan_step(st: PlanState, n: NoteEvent) -> PlanState {
    if n.is_connected_to_prev_note {
        let chord = if st.chord.len() == 0 {
            match st.before {
                Some(b) => seq![b],
                None => Seq::<NoteEvent>::empty(),
            }
        } else {
            st.chord
        };
        PlanState { plan: st.plan, before: st.before, chord: chord.push(n) }
    } else {
        if st.chord.len() > 0 {
            PlanState {
                plan: st.plan.push(PlanCmd::Chord(st.chord)),
                before: Some(n),
                chord: Seq::<NoteEvent>::empty(),
            }
        } else {
            match st.before {
                Some(b) => PlanState {
                    plan: st.plan.push(PlanCmd::Single(b)),
                    before: Some(n),
                    chord: Seq::<NoteEvent>::empty(),
                },
                None => PlanState { plan: st.plan, before: Some(n), chord: st.chord },
            }
        }
    }
}

/// Fold the grouping over a note stream.
pub open spec fn plan_fold(notes: Seq<NoteEvent>, st: PlanState) -> PlanState
    decreases notes.len(),
{
    if notes.len() == 0 {
        st
    } else {
        plan_fold(notes.drop_first(), plan_step(st, notes[0]))
    }
}

/// After the final note: a pending chord group, or the held-back
/// single note, still has to be played.
pub open spec fn finish_plan(st: PlanState) -> Seq<PlanCmd> {
    if st.chord.len() > 0 {
        st.plan.push(PlanCmd::Chord(st.chord))
    } else {
        match st.before {
            Some(b) => st.plan.push(PlanCmd::Single(b)),
            None => st.plan,
        }
    }
}

/// The full playback plan of a note stream.
pub open spec fn play_plan(notes: Seq<NoteEvent>) -> Seq<PlanCmd> {
    finish_plan(
        plan_fold(
            notes,
            PlanState { plan: Seq::empty(), before: None, chord: Seq::<NoteEvent>::empty() },
        ),
    )
}

impl Parser {
    /// The playback plan of the parsed notes: consecutive notes
    /// marked as connected are grouped into one chord, seeded with
    /// the note before the group; everything else plays singly, in
    /// parse order.
    pub fn play(&self) -> (cmds: Vec<PlayCommand>)
        ensures
            cmds_view(cmds@) == play_plan(self.notes@),
    {
        let ghost all = self.notes@;
        let mut cmds: Vec<PlayCommand> = Vec::new();
        let mut before: Option<NoteEvent> = None;
        let mut current_chord: Vec<NoteEvent> = Vec::new();
        let mut i: usize = 0;
        proof {
            assert(all.skip(0) =~= all);
            assert(cmds_view(cmds@) =~= Seq::<PlanCmd>::empty());
            assert(current_chord@ =~= Seq::<NoteEvent>::empty());
        }
        while i < self.notes.len()
            invariant
                i <= self.notes.len(),
                all == self.notes@,
                play_plan(all) == finish_plan(
                    plan_fold(
                        all.skip(i as int),
                        PlanState { plan: cmds_view(cmds@), before, chord: current_chord@ },
                    ),
                ),
            decreases self.notes.len() - i,
        {
            let ghost st0 = PlanState { plan: cmds_view(cmds@), before, chord: current_chord@ };
            proof {
                assert(all.skip(i as int)[0] == all[i as int]);
                assert(all.skip(i as int).drop_first() =~= all.skip(i as int + 1));
            }
            let note = self.notes[i];
            if note.is_connected_to_prev_note {
                if current_chord.len() == 0 {
                    match before {
                        Some(b) => {
                            current_chord.push(b);
                        },
                        None => {},
                    }
                }
                current_chord.push(note);
                proof {
                    assert(current_chord@ =~= plan_step(st0, note).chord);
                }
            } else {
                if current_chord.len() > 0 {
                    cmds.push(PlayCommand::PlayChord(current_chord));
                    current_chord = Vec::new();
                    before = Some(note);
                    proof {
                        assert(cmds_view(cmds@) =~= plan_step(st0, note).plan);
                        assert(current_chord@ =~= plan_step(st0, note).chord);
                    }
                } else {
                    match before {
                        Some(b) => {
                            cmds.push(PlayCommand::PlayNote(b));
                            proof {
                                assert(cmds_view(cmds@) =~= plan_step(st0, note).plan);
                            }
                        },
                        None => {},
                    }
                    before = Some(note);
                }
            }
            i = i + 1;
        }
        proof {
            assert(all.skip(all.len() as int).len() == 0);
        }
        if current_chord.len() > 0 {
            cmds.push(PlayCommand::PlayChord(current_chord));
            proof {
                assert(cmds_view(cmds@) =~= play_plan(all));
            }
        } else {
            match before {
                Some(b) => {
                    cmds.push(PlayCommand::PlayNote(b));
                    proof {
                        assert(cmds_view(cmds@) =~= play_plan(all));
                    }
                },
                None => {},
            }
        }
        cmds
    }
}

/// The notes of a successful parse.
pub open spec fn ok_notes(r: Result<Seq<NoteEvent>, int>) -> Seq<NoteEvent> {
    match r {
        Ok(ns) => ns,
        Err(_) => Seq::<NoteEvent>::empty(),
    }
}

/// Onset alignment, decoder side: while the chord flag is armed (a
/// `:` has been scanned and no note has consumed it yet — commands in
/// between leave it armed), the first note the rest of the text
/// yields is marked as connected to the previous note.
pub proof fn lemma_chord_flag_marks_first_note(s: Seq<char>, i: int, ctx: Ctx)
    requires
        0 <= i <= s.len(),
        ctx.chord,
        parse_spec(s, i, ctx) is Ok,
        ok_notes(parse_spec(s, i, ctx)).len() > 0,
    ensures
        ok_notes(parse_spec(s, i, ctx))[0].is_connected_to_prev_note,
    decreases s.len() - i,
{
    assert(i < s.len());
    let c = s[i];
    if is_ws(c) {
        lemma_chord_flag_marks_first_note(s, i + 1, ctx);
    } else if c == 't' || c == 'o' || c == 'v' {
        lemma_digit_run_len_bounds(s, i + 1);
        let d = digit_run_len(s, i + 1);
        let n = digits_val(s.subrange(i + 1, i + 1 + d));
        assert(d >= 1);
        if c == 't' {
            lemma_chord_flag_marks_first_note(s, i + 1 + d, Ctx { tempo: n as u32, ..ctx });
        } else if c == 'o' {
            lemma_chord_flag_marks_first_note(s, i + 1 + d, Ctx { octave: n as u8, ..ctx });
        } else {
            lemma_chord_flag_marks_first_note(s, i + 1 + d, Ctx { velocity: n as u8, ..ctx });
        }
    } else if c == '>' {
        lemma_chord_flag_marks_first_note(s, i + 1, Ctx { octave: inc_octave(ctx.octave), ..ctx });
    } else if c == '<' {
        lemma_chord_flag_marks_first_note(s, i + 1, Ctx { octave: dec_octave(ctx.octave), ..ctx });
    } else if c == ':' {
        lemma_chord_flag_marks_first_note(s, i + 1, Ctx { chord: true, ..ctx });
    } else {
        assert(is_note_letter(c));
    }
}

/// A `:` marks the very next note: whatever commands follow it, the
/// first note parsed after a chord marker is connected.
pub proof fn lemma_connect_chord_marks_next(s: Seq<char>, i: int, ctx: Ctx)
    requires
        0 <= i < s.len(),
        s[i] == ':',
        parse_spec(s, i, ctx) is Ok,
        ok_notes(parse_spec(s, i, ctx)).len() > 0,
    ensures
        ok_notes(parse_spec(s, i, ctx))[0].is_connected_to_prev_note,
{
    lemma_chord_flag_marks_first_note(s, i + 1, Ctx { chord: true, ..ctx });
}

/// Lower-case a pitch letter.
fn norm_letter_exec(c: char) -> (r: char)
    ensures
        r == norm_letter(c),
{
    if c == 'A' {
        'a'
    } else if c == 'B' {
        'b'
    } else if c == 'C' {
        'c'
    } else if c == 'D' {
        'd'
    } else if c == 'E' {
        'e'
    } else if c == 'F' {
        'f'
    } else if c == 'G' {
        'g'
    } else if c == 'R' {
        'r'
    } else {
        c
    }
}

} // verus!
