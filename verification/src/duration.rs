//! Duration quantization: tick counts to 64th-note units, and unit
//! counts to canonical MML length tokens.
//!
//! One quarter note is `ppq` ticks and is defined as 16 units, so one
//! unit is a 64th note.  A unit count is rendered greedily as canonical
//! lengths (whole .. 64th), each optionally dotted (a dot adds half the
//! length again), joined by the tie marker `&`.

use vstd::prelude::*;
use vstd::string::StringExecFns;

verus! {

/// `ticks` rounded to the nearest whole number of 64th-note units,
/// where one quarter note is `ppq` ticks.
pub open spec fn quant_units(ticks: nat, ppq: nat) -> nat
    recommends
        ppq > 0,
{
    (ticks * 16 + ppq / 2) / ppq
}

/// Quantize a tick duration to 64th-note units: `round(ticks * 16 / ppq)`.
pub fn ticks_to_units(ticks: u32, ppq: u16) -> (u: u16)
    requires
        ppq >= 1,
        quant_units(ticks as nat, ppq as nat) <= u16::MAX,
    ensures
        u == quant_units(ticks as nat, ppq as nat),
{
    let wide: u64 = (ticks as u64 * 16 + (ppq / 2) as u64) / (ppq as u64);
    wide as u16
}

/// Quantize a wide tick position, saturating at `u64::MAX`.
pub fn ticks_to_units_wide(ticks: u64, ppq: u16) -> (u: u64)
    requires
        ppq >= 1,
    ensures
        u == quant_sat64(ticks, ppq),
{
    let wide: u128 = (ticks as u128 * 16 + (ppq / 2) as u128) / (ppq as u128);
    if wide > u64::MAX as u128 {
        u64::MAX
    } else {
        wide as u64
    }
}

/// `quant_units`, saturated at `u64::MAX`.
pub open spec fn quant_sat64(ticks: u64, ppq: u16) -> u64 {
    if quant_units(ticks as nat, ppq as nat) > u64::MAX {
        u64::MAX
    } else {
        quant_units(ticks as nat, ppq as nat) as u64
    }
}

/// `quant_units`, saturated at `u16::MAX`.
pub open spec fn quant_sat16(ticks: u64, ppq: u16) -> u16 {
    if quant_units(ticks as nat, ppq as nat) > u16::MAX {
        u16::MAX
    } else {
        quant_units(ticks as nat, ppq as nat) as u16
    }
}

/// The canonical note lengths in units: whole, half, quarter, eighth,
/// sixteenth, thirty-second, sixty-fourth.
pub open spec fn is_canon(base: nat) -> bool {
    base == 64 || base == 32 || base == 16 || base == 8 || base == 4 || base == 2 || base == 1
}

/// The largest canonical length not exceeding `u`.
pub open spec fn largest_canon(u: nat) -> nat
    recommends
        u >= 1,
{
    if u >= 64 {
        64
    } else if u >= 32 {
        32
    } else if u >= 16 {
        16
    } else if u >= 8 {
        8
    } else if u >= 4 {
        4
    } else if u >= 2 {
        2
    } else {
        1
    }
}

/// How many units one token consumes: its base length, plus half again
/// when dotted.
pub open spec fn token_units(base: nat, dotted: bool) -> nat {
    if dotted {
        base + base / 2
    } else {
        base
    }
}

/// Greedy largest-first decomposition of a unit count into canonical
/// tokens `(base, dotted)`.  A dot is taken whenever the remainder
/// after the base covers at least half the base.
pub open spec fn decompose(u: nat) -> Seq<(nat, bool)>
    decreases u,
{
    if u == 0 {
        Seq::empty()
    } else {
        let base = largest_canon(u);
        let dotted = base >= 2 && u - base >= base / 2;
        seq![(base, dotted)] + decompose((u - token_units(base, dotted)) as nat)
    }
}

/// Total units covered by a token sequence.
pub open spec fn sum_units(toks: Seq<(nat, bool)>) -> nat
    decreases toks.len(),
{
    if toks.len() == 0 {
        0
    } else {
        token_units(toks[0].0, toks[0].1) + sum_units(toks.drop_first())
    }
}

/// The greedy decomposition is exact: its tokens sum back to the unit
/// count it was built from.  This is the core of quantization-stable
/// round-tripping: a decoder that re-sums tied tokens recovers the
/// encoder's unit count.
pub proof fn lemma_decompose_sum(u: nat)
    ensures
        sum_units(decompose(u)) == u,
    decreases u,
{
    if u == 0 {
        assert(decompose(0nat) =~= Seq::<(nat, bool)>::empty());
    } else {
        let base = largest_canon(u);
        let dotted = base >= 2 && u - base >= base / 2;
        let used = token_units(base, dotted);
        let rest = decompose((u - used) as nat);
        lemma_decompose_sum((u - used) as nat);
        assert((seq![(base, dotted)] + rest).drop_first() =~= rest);
    }
}

/// Every token the decomposition yields has a canonical base, and a dot
/// only on a base of two units or more.
pub proof fn lemma_decompose_canon(u: nat)
    ensures
        forall|i: int|
            0 <= i < decompose(u).len() ==> is_canon(#[trigger] decompose(u)[i].0) && (decompose(
                u,
            )[i].1 ==> decompose(u)[i].0 >= 2),
    decreases u,
{
    if u > 0 {
        let base = largest_canon(u);
        let dotted = base >= 2 && u - base >= base / 2;
        let used = token_units(base, dotted);
        lemma_decompose_canon((u - used) as nat);
        assert forall|i: int| 0 <= i < decompose(u).len() implies is_canon(
            #[trigger] decompose(u)[i].0,
        ) && (decompose(u)[i].1 ==> decompose(u)[i].0 >= 2) by {
            if i > 0 {
                assert(decompose(u)[i] == decompose((u - used) as nat)[i - 1]);
            }
        }
    }
}

/// A unit count reachable by a single canonical token decomposes to
/// exactly that token, so rendering it and re-summing the rendered
/// token returns the same count.
pub proof fn lemma_single_token_round_trip(base: nat, dotted: bool)
    requires
        is_canon(base),
        dotted ==> base >= 2,
        token_units(base, dotted) <= 64,
    ensures
        decompose(token_units(base, dotted)) =~= seq![(base, dotted)],
{
    let u = token_units(base, dotted);
    assert(largest_canon(u) == base);
    assert(decompose(0nat) =~= Seq::<(nat, bool)>::empty());
}

/// A unit count reachable by a single canonical token (dotted or not)
/// renders as exactly that token's text: on its single-token range,
/// rendering inverts the token vocabulary that the decoder sums over.
pub proof fn lemma_single_token_text(base: nat, dotted: bool)
    requires
        is_canon(base),
        dotted ==> base >= 2,
        token_units(base, dotted) <= 64,
    ensures
        length_tokens_text(token_units(base, dotted)) == token_text(base, dotted),
{
    lemma_single_token_round_trip(base, dotted);
    let toks = seq![(base, dotted)];
    assert(tokens_text_more(Seq::<char>::empty(), toks, true) == (if true {
        Seq::<char>::empty()
    } else {
        seq!['&']
    }) + Seq::<char>::empty() + token_text(toks[0].0, toks[0].1) + tokens_text_more(
        Seq::<char>::empty(),
        toks.drop_first(),
        false,
    ));
    assert(toks.drop_first().len() == 0);
    assert(tokens_text_more(Seq::<char>::empty(), toks.drop_first(), false) =~= Seq::<
        char,
    >::empty());
    assert(length_tokens_text(token_units(base, dotted)) =~= token_text(base, dotted));
}

/// The view of an executable token vector.
pub open spec fn toks_seq(v: Seq<(u16, bool)>) -> Seq<(nat, bool)> {
    v.map_values(|t: (u16, bool)| (t.0 as nat, t.1))
}

/// Decompose a unit count into canonical `(base, dotted)` tokens,
/// greedy largest-first.
pub fn decompose_units(units: u16) -> (toks: Vec<(u16, bool)>)
    ensures
        toks_seq(toks@) == decompose(units as nat),
{
    let mut toks: Vec<(u16, bool)> = Vec::new();
    let mut rem: u16 = units;
    while rem > 0
        invariant
            decompose(units as nat) =~= toks_seq(toks@) + decompose(rem as nat),
        decreases rem,
    {
        let base: u16 = if rem >= 64 {
            64
        } else if rem >= 32 {
            32
        } else if rem >= 16 {
            16
        } else if rem >= 8 {
            8
        } else if rem >= 4 {
            4
        } else if rem >= 2 {
            2
        } else {
            1
        };
        let dotted: bool = base >= 2 && rem - base >= base / 2;
        let used: u16 = if dotted {
            base + base / 2
        } else {
            base
        };
        let ghost old_toks = toks@;
        toks.push((base, dotted));
        proof {
            assert(toks_seq(toks@) =~= toks_seq(old_toks) + seq![(base as nat, dotted)]);
            assert(decompose(units as nat) =~= toks_seq(toks@) + decompose((rem - used) as nat));
        }
        rem = rem - used;
    }
    proof {
        assert(decompose(0nat) =~= Seq::<(nat, bool)>::empty());
        assert(toks_seq(toks@) =~= toks_seq(toks@) + decompose(0nat));
    }
    toks
}

/// The digit text of a canonical length: 64 units render as "1" (a
/// whole note), 1 unit as "64" (a sixty-fourth).
pub open spec fn length_digits(base: nat) -> Seq<char>
    recommends
        is_canon(base),
{
    if base == 64 {
        seq!['1']
    } else if base == 32 {
        seq!['2']
    } else if base == 16 {
        seq!['4']
    } else if base == 8 {
        seq!['8']
    } else if base == 4 {
        seq!['1', '6']
    } else if base == 2 {
        seq!['3', '2']
    } else {
        seq!['6', '4']
    }
}

/// The text of one length token: digits, then a dot when dotted.
pub open spec fn token_text(base: nat, dotted: bool) -> Seq<char> {
    length_digits(base) + (if dotted {
        seq!['.']
    } else {
        Seq::<char>::empty()
    })
}

/// Token sequence text: each token is `prefix` then its length text;
/// tokens after the first are preceded by the tie marker `&`.
pub open spec fn tokens_text_more(prefix: Seq<char>, toks: Seq<(nat, bool)>, first: bool) -> Seq<
    char,
>
    decreases toks.len(),
{
    if toks.len() == 0 {
        Seq::<char>::empty()
    } else {
        (if first {
            Seq::<char>::empty()
        } else {
            seq!['&']
        }) + prefix + token_text(toks[0].0, toks[0].1) + tokens_text_more(
            prefix,
            toks.drop_first(),
            false,
        )
    }
}

pub open spec fn prefixed_tokens_text(prefix: Seq<char>, toks: Seq<(nat, bool)>) -> Seq<char> {
    tokens_text_more(prefix, toks, true)
}

/// The bare length text of a unit count, with no pitch prefix, as
/// `units_to_length_tokens` renders it.
pub open spec fn length_tokens_text(units: nat) -> Seq<char> {
    prefixed_tokens_text(Seq::<char>::empty(), decompose(units))
}

fn append_token(s: &mut String, base: u16, dotted: bool)
    requires
        is_canon(base as nat),
    ensures
        final(s)@ == old(s)@ + token_text(base as nat, dotted),
{
    proof {
        reveal_strlit("1");
        reveal_strlit("2");
        reveal_strlit("4");
        reveal_strlit("8");
        reveal_strlit("16");
        reveal_strlit("32");
        reveal_strlit("64");
        reveal_strlit(".");
    }
    if base == 64 {
        s.append("1");
    } else if base == 32 {
        s.append("2");
    } else if base == 16 {
        s.append("4");
    } else if base == 8 {
        s.append("8");
    } else if base == 4 {
        s.append("16");
    } else if base == 2 {
        s.append("32");
    } else {
        s.append("64");
    }
    if dotted {
        s.append(".");
    }
    proof {
        assert(final(s)@ =~= old(s)@ + token_text(base as nat, dotted));
    }
}

/// Append the text of a token sequence, each token preceded by
/// `prefix`, tokens joined with `&`.
pub fn append_tokens(s: &mut String, prefix: &str, toks: &Vec<(u16, bool)>)
    requires
        forall|i: int| 0 <= i < toks@.len() ==> is_canon(#[trigger] toks@[i].0 as nat),
    ensures
        final(s)@ == old(s)@ + prefixed_tokens_text(prefix@, toks_seq(toks@)),
{
    proof {
        reveal_strlit("&");
    }
    let ghost all = toks_seq(toks@);
    proof {
        assert(all.skip(0) =~= all);
    }
    let mut i: usize = 0;
    while i < toks.len()
        invariant
            0 <= i <= toks.len(),
            all == toks_seq(toks@),
            forall|k: int| 0 <= k < toks@.len() ==> is_canon(#[trigger] toks@[k].0 as nat),
            "&"@ == seq!['&'],
            old(s)@ + prefixed_tokens_text(prefix@, all) =~= s@ + tokens_text_more(
                prefix@,
                all.skip(i as int),
                i == 0,
            ),
        decreases toks.len() - i,
    {
        let ghost rest = all.skip(i as int);
        proof {
            assert(rest.len() > 0);
            assert(rest[0] == all[i as int]);
            assert(rest.drop_first() =~= all.skip(i as int + 1));
        }
        if i > 0 {
            s.append("&");
        }
        s.append(prefix);
        let t = toks[i];
        append_token(s, t.0, t.1);
        proof {
            assert(old(s)@ + prefixed_tokens_text(prefix@, all) =~= s@ + tokens_text_more(
                prefix@,
                all.skip(i as int + 1),
                false,
            ));
        }
        i = i + 1;
        proof {
            assert(i > 0);
        }
    }
    proof {
        assert(all.skip(i as int).len() == 0);
        if i == 0 {
            assert(tokens_text_more(prefix@, all.skip(0), true) =~= Seq::<char>::empty());
        } else {
            assert(tokens_text_more(prefix@, all.skip(i as int), false) =~= Seq::<char>::empty());
        }
        assert(final(s)@ =~= old(s)@ + prefixed_tokens_text(prefix@, all));
    }
}

/// The tokens of a decomposition, held in an executable vector, all
/// have canonical bases.
pub proof fn lemma_decompose_vec_canon(v: Seq<(u16, bool)>, u: nat)
    requires
        toks_seq(v) == decompose(u),
    ensures
        forall|i: int| 0 <= i < v.len() ==> is_canon(#[trigger] v[i].0 as nat),
{
    lemma_decompose_canon(u);
    assert forall|i: int| 0 <= i < v.len() implies is_canon(#[trigger] v[i].0 as nat) by {
        assert(toks_seq(v)[i] == (v[i].0 as nat, v[i].1));
        assert(decompose(u)[i].0 == v[i].0 as nat);
    }
}

/// Render a unit count as its canonical MML length text: greedy
/// largest-first tokens, one optional dot each, joined by `&`.  A unit
/// count of zero yields the empty string.
pub fn units_to_length_tokens(units: u16) -> (s: String)
    ensures
        s@ == length_tokens_text(units as nat),
{
    let toks = decompose_units(units);
    proof {
        lemma_decompose_vec_canon(toks@, units as nat);
    }
    let mut s = String::new();
    proof {
        reveal_strlit("");
        assert(""@ =~= Seq::<char>::empty());
    }
    append_tokens(&mut s, "", &toks);
    s
}

} // verus!
