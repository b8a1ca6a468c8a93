//! Decimal text: rendering numbers as ASCII digit runs and reading
//! them back.  The renderer writes tempo and octave values with these
//! digits; the parser reads maximal digit runs for the `t`, `o` and
//! `v` commands and for note lengths.

use vstd::prelude::*;
use vstd::string::StringExecFns;

verus! {

pub open spec fn is_digit_char(c: char) -> bool {
    '0' <= c && c <= '9'
}

pub open spec fn digit_val(c: char) -> nat
    recommends
        is_digit_char(c),
{
    (c as int - '0' as int) as nat
}

/// The number a digit run denotes, most significant digit first.
pub open spec fn digits_val(s: Seq<char>) -> nat
    decreases s.len(),
{
    if s.len() == 0 {
        0
    } else {
        digits_val(s.drop_last()) * 10 + digit_val(s.last())
    }
}

pub open spec fn dec_digit_char(d: nat) -> char
    recommends
        d < 10,
{
    if d == 0 {
        '0'
    } else if d == 1 {
        '1'
    } else if d == 2 {
        '2'
    } else if d == 3 {
        '3'
    } else if d == 4 {
        '4'
    } else if d == 5 {
        '5'
    } else if d == 6 {
        '6'
    } else if d == 7 {
        '7'
    } else if d == 8 {
        '8'
    } else {
        '9'
    }
}

/// The canonical decimal rendering of `n`, without leading zeros
/// (except for `n == 0` itself).
pub open spec fn dec_seq(n: nat) -> Seq<char>
    decreases n,
{
    if n < 10 {
        seq![dec_digit_char(n)]
    } else {
        dec_seq(n / 10).push(dec_digit_char(n % 10))
    }
}

/// Decimal rendering consists of digits only.
pub proof fn lemma_dec_seq_digits(n: nat)
    ensures
        dec_seq(n).len() >= 1,
        forall|i: int| 0 <= i < dec_seq(n).len() ==> is_digit_char(#[trigger] dec_seq(n)[i]),
    decreases n,
{
    if n >= 10 {
        lemma_dec_seq_digits(n / 10);
    }
}

/// Reading a rendered number back yields the number: the digit
/// vocabulary is invertible.
pub proof fn lemma_dec_seq_val(n: nat)
    ensures
        digits_val(dec_seq(n)) == n,
    decreases n,
{
    assert(digit_val(dec_digit_char(n % 10)) == n % 10);
    assert(dec_seq(n).len() >= 1);
    assert(digits_val(dec_seq(n)) == digits_val(dec_seq(n).drop_last()) * 10 + digit_val(
        dec_seq(n).last(),
    ));
    assert(digits_val(Seq::<char>::empty()) == 0);
    if n < 10 {
        assert(dec_seq(n).drop_last() =~= Seq::<char>::empty());
        assert(dec_seq(n).last() == dec_digit_char(n));
    } else {
        lemma_dec_seq_val(n / 10);
        assert(dec_seq(n).drop_last() =~= dec_seq(n / 10));
        assert(dec_seq(n).last() == dec_digit_char(n % 10));
    }
}

/// Append the decimal rendering of `n` to `s`.
pub fn append_dec(s: &mut String, n: u64)
    ensures
        final(s)@ == old(s)@ + dec_seq(n as nat),
    decreases n,
{
    if n >= 10 {
        append_dec(s, n / 10);
    }
    let d: u64 = n % 10;
    let ds: &str = if d == 0 {
        "0"
    } else if d == 1 {
        "1"
    } else if d == 2 {
        "2"
    } else if d == 3 {
        "3"
    } else if d == 4 {
        "4"
    } else if d == 5 {
        "5"
    } else if d == 6 {
        "6"
    } else if d == 7 {
        "7"
    } else if d == 8 {
        "8"
    } else {
        "9"
    };
    proof {
        reveal_strlit("0");
        reveal_strlit("1");
        reveal_strlit("2");
        reveal_strlit("3");
        reveal_strlit("4");
        reveal_strlit("5");
        reveal_strlit("6");
        reveal_strlit("7");
        reveal_strlit("8");
        reveal_strlit("9");
        assert(ds@ =~= seq![dec_digit_char((n % 10) as nat)]);
    }
    s.append(ds);
    proof {
        if n < 10 {
            assert(old(s)@ + dec_seq(n as nat) =~= final(s)@);
        } else {
            assert(old(s)@ + dec_seq(n as nat) =~= final(s)@);
        }
    }
}

/// Length of the maximal digit run of `s` starting at `i`.
pub open spec fn digit_run_len(s: Seq<char>, i: int) -> int
    decreases s.len() - i,
    when 0 <= i <= s.len()
{
    if i >= s.len() || !is_digit_char(s[i]) {
        0
    } else {
        1 + digit_run_len(s, i + 1)
    }
}

pub proof fn lemma_digit_run_len_bounds(s: Seq<char>, i: int)
    requires
        0 <= i <= s.len(),
    ensures
        0 <= digit_run_len(s, i),
        i + digit_run_len(s, i) <= s.len(),
        forall|j: int| i <= j < i + digit_run_len(s, i) ==> is_digit_char(#[trigger] s[j]),
        i + digit_run_len(s, i) < s.len() ==> !is_digit_char(s[i + digit_run_len(s, i)]),
    decreases s.len() - i,
{
    if i < s.len() && is_digit_char(s[i]) {
        lemma_digit_run_len_bounds(s, i + 1);
    }
}

/// A scan that stopped at `e` found exactly the maximal digit run.
pub proof fn lemma_digit_run_len_is(s: Seq<char>, i: int, e: int)
    requires
        0 <= i <= e <= s.len(),
        forall|j: int| i <= j < e ==> is_digit_char(#[trigger] s[j]),
        e < s.len() ==> !is_digit_char(s[e]),
    ensures
        digit_run_len(s, i) == e - i,
    decreases e - i,
{
    if i < e {
        lemma_digit_run_len_is(s, i + 1, e);
    }
}

} // verus!
