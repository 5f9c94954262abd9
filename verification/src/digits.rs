//! Decimal digits: the canonical decimal rendering of a number and its value,
//! shared by the difficulty names and the persistence format.

use vstd::prelude::*;
use vstd::string::StringExecFns;

verus! {

/// Whether `c` is one of the characters '0' through '9'.
pub open spec fn is_digit_char(c: char) -> bool {
    0x30 <= c as u32 <= 0x39
}

/// The character for a single decimal digit.
pub open spec fn digit_char(d: int) -> char {
    if d == 0 {
        '0'
    } else if d == 1 {
        '1'
    } else if d == 2 {
        '2'
    } else if d == 3 {
        '3'
    } else if d == 4 {
        '4'
    } else if d == 5 {
        '5'
    } else if d == 6 {
        '6'
    } else if d == 7 {
        '7'
    } else if d == 8 {
        '8'
    } else {
        '9'
    }
}

/// The value of a single decimal digit character.
pub open spec fn digit_val(c: char) -> nat {
    if c == '0' {
        0
    } else if c == '1' {
        1
    } else if c == '2' {
        2
    } else if c == '3' {
        3
    } else if c == '4' {
        4
    } else if c == '5' {
        5
    } else if c == '6' {
        6
    } else if c == '7' {
        7
    } else if c == '8' {
        8
    } else {
        9
    }
}

/// The decimal digits of `v`, most significant first, without leading zeros.
pub open spec fn spec_dec(v: nat) -> Seq<char>
    decreases v,
{
    if v < 10 {
        seq![digit_char(v as int)]
    } else {
        spec_dec(v / 10).push(digit_char((v % 10) as int))
    }
}

/// The number denoted by a sequence of decimal digit characters.
pub open spec fn val_of(d: Seq<char>) -> nat
    decreases d.len(),
{
    if d.len() == 0 {
        0
    } else {
        val_of(d.drop_last()) * 10 + digit_val(d.last())
    }
}

/// A digit character stands for the digit it was made from.
pub proof fn lemma_digit_roundtrip(d: int)
    requires
        0 <= d < 10,
    ensures
        digit_val(digit_char(d)) == d,
        is_digit_char(digit_char(d)),
{
}

/// The canonical rendering is non-empty, consists of digits, and denotes `v`.
pub proof fn lemma_dec_props(v: nat)
    ensures
        spec_dec(v).len() >= 1,
        forall|i: int| 0 <= i < spec_dec(v).len() ==> is_digit_char(#[trigger] spec_dec(v)[i]),
        val_of(spec_dec(v)) == v,
    decreases v,
{
    if v < 10 {
        lemma_digit_roundtrip(v as int);
        assert(spec_dec(v) =~= seq![digit_char(v as int)]);
        assert(spec_dec(v).drop_last() =~= Seq::<char>::empty());
        assert(spec_dec(v).last() == digit_char(v as int));
        assert(val_of(Seq::<char>::empty()) == 0);
        assert(val_of(spec_dec(v)) == v);
    } else {
        lemma_dec_props(v / 10);
        lemma_digit_roundtrip((v % 10) as int);
        let pre = spec_dec(v / 10);
        let last = digit_char((v % 10) as int);
        assert(spec_dec(v).drop_last() =~= pre);
        assert(spec_dec(v).last() == last);
        assert(val_of(spec_dec(v)) == val_of(pre) * 10 + digit_val(last));
        vstd::arithmetic::div_mod::lemma_fundamental_div_mod(v as int, 10);
        assert(val_of(spec_dec(v)) == v);
    }
}

/// The value of a prefix of a digit string never exceeds the whole value.
pub proof fn lemma_val_of_prefix(d: Seq<char>, k: int)
    requires
        0 <= k <= d.len(),
    ensures
        val_of(d.subrange(0, k)) <= val_of(d),
    decreases d.len() - k,
{
    if k == d.len() {
        assert(d.subrange(0, k) =~= d);
    } else {
        assert(d.subrange(0, k + 1).drop_last() =~= d.subrange(0, k));
        assert(d.subrange(0, k + 1).last() == d[k]);
        assert(val_of(d.subrange(0, k)) <= val_of(d.subrange(0, k + 1)));
        lemma_val_of_prefix(d, k + 1);
    }
}

/// A character that may appear verbatim inside a quoted text field of the
/// persistence format: printable ASCII, but neither a quote nor a backslash.
pub open spec fn clean_char(c: char) -> bool {
    0x20 <= c as u32 <= 0x7e && c as u32 != 0x22 && c as u32 != 0x5c
}

/// A text all of whose characters are clean.
pub open spec fn clean_text(s: Seq<char>) -> bool {
    forall|i: int| 0 <= i < s.len() ==> clean_char(#[trigger] s[i])
}

/// Digit characters are clean.
pub proof fn lemma_digits_clean(s: Seq<char>)
    requires
        forall|i: int| 0 <= i < s.len() ==> is_digit_char(#[trigger] s[i]),
    ensures
        clean_text(s),
{
}

/// A single decimal digit as a string slice.
fn digit_str(d: u32) -> (r: &'static str)
    requires
        d < 10,
    ensures
        r@ =~= seq![digit_char(d as int)],
{
    let r: &'static str = if d == 0 {
        "0"
    } else if d == 1 {
        "1"
    } else if d == 2 {
        "2"
    } else if d == 3 {
        "3"
    } else if d == 4 {
        "4"
    } else if d == 5 {
        "5"
    } else if d == 6 {
        "6"
    } else if d == 7 {
        "7"
    } else if d == 8 {
        "8"
    } else {
        "9"
    };
    proof {
        reveal_strlit("0");
        reveal_strlit("1");
        reveal_strlit("2");
        reveal_strlit("3");
        reveal_strlit("4");
        reveal_strlit("5");
        reveal_strlit("6");
        reveal_strlit("7");
        reveal_strlit("8");
        reveal_strlit("9");
    }
    r
}

/// Appends the canonical decimal rendering of `v` to `s`.
pub fn append_u32(s: &mut String, v: u32)
    ensures
        final(s)@ =~= old(s)@ + spec_dec(v as nat),
    decreases v,
{
    if v < 10 {
        s.append(digit_str(v));
    } else {
        append_u32(s, v / 10);
        s.append(digit_str(v % 10));
        proof {
            assert(spec_dec(v as nat) == spec_dec((v as nat) / 10).push(
                digit_char(((v as nat) % 10) as int),
            ));
            assert(old(s)@ + spec_dec((v / 10) as nat) + seq![digit_char((v % 10) as int)] =~= old(
                s,
            )@ + spec_dec(v as nat));
        }
    }
}

} // verus!
