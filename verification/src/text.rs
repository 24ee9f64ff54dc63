//! Character-level helpers: conversion between strings and character vectors,
//! decimal numerals, and the escape syntax of string literals.
use vstd::prelude::*;

verus! {

/// `String::push` appends exactly one character to the end of the string.
pub assume_specification[ String::push ](s: &mut String, ch: char)
    ensures
        final(s)@ == old(s)@.push(ch),
;

/// The characters of `s`, in order.
pub fn chars_of(s: &str) -> (r: Vec<char>)
    ensures
        r@ == s@,
{
    let mut out: Vec<char> = Vec::new();
    for c in it: s.chars()
        invariant
            out@ == s@.take(it.index() as int),
            it.seq() == s@,
    {
        out.push(c);
    }
    out
}

/// The string made of the characters `v[from..to]`.
pub(crate) fn string_of(v: &Vec<char>, from: usize, to: usize) -> (r: String)
    requires
        from <= to <= v.len(),
    ensures
        r@ == v@.subrange(from as int, to as int),
{
    let mut out = String::new();
    let mut i: usize = from;
    while i < to
        invariant
            from <= i <= to <= v.len(),
            out@ == v@.subrange(from as int, i as int),
        decreases to - i,
    {
        out.push(v[i]);
        i += 1;
    }
    out
}

/// Whether `c` is one of the ten ASCII decimal digits.
pub open spec fn is_digit(c: char) -> bool {
    '0' <= c && c <= '9'
}

/// The number a decimal digit stands for (0 for any other character).
pub open spec fn digit_value(c: char) -> nat {
    if is_digit(c) {
        (c as nat - '0' as nat) as nat
    } else {
        0
    }
}

/// The character for a digit below ten.
pub open spec fn digit_char(d: nat) -> char {
    if d == 0 {
        '0'
    } else if d == 1 {
        '1'
    } else if d == 2 {
        '2'
    } else if d == 3 {
        '3'
    } else if d == 4 {
        '4'
    } else if d == 5 {
        '5'
    } else if d == 6 {
        '6'
    } else if d == 7 {
        '7'
    } else if d == 8 {
        '8'
    } else {
        '9'
    }
}

/// Whether every character of `s` is a decimal digit.
pub open spec fn all_digits(s: Seq<char>) -> bool {
    forall|i: int| 0 <= i < s.len() ==> is_digit(#[trigger] s[i])
}

/// The natural number written by the decimal digits `s` (most significant
/// first); the empty sequence denotes 0.
pub open spec fn digits_value(s: Seq<char>) -> nat
    decreases s.len(),
{
    if s.len() == 0 {
        0
    } else {
        10 * digits_value(s.drop_last()) + digit_value(s.last())
    }
}

/// The decimal numeral of `n`, without leading zeros.
pub open spec fn decimal(n: nat) -> Seq<char>
    decreases n,
{
    if n < 10 {
        seq![digit_char(n)]
    } else {
        decimal(n / 10).push(digit_char(n % 10))
    }
}

/// The decimal numeral of an integer, with a leading `-` when negative.
pub open spec fn decimal_int(i: int) -> Seq<char> {
    if i < 0 {
        seq!['-'] + decimal((-i) as nat)
    } else {
        decimal(i as nat)
    }
}

/// A numeral is made of digits only and is never empty.
pub proof fn lemma_decimal_digits(n: nat)
    ensures
        all_digits(decimal(n)),
        decimal(n).len() >= 1,
    decreases n,
{
    if n >= 10 {
        lemma_decimal_digits(n / 10);
    }
}

/// Reading back the numeral of `n` gives `n`.
pub proof fn lemma_decimal_round_trip(n: nat)
    ensures
        digits_value(decimal(n)) == n,
    decreases n,
{
    if n < 10 {
        let s = decimal(n);
        assert(s.drop_last().len() == 0);
        assert(digits_value(s.drop_last()) == 0);
        assert(s.last() == digit_char(n));
    } else {
        lemma_decimal_round_trip(n / 10);
        let s = decimal(n);
        assert(s.drop_last() =~= decimal(n / 10));
        assert(s.last() == digit_char(n % 10));
    }
}

/// A longer numeral never denotes less than one of its prefixes.
pub proof fn lemma_digits_value_prefix(s: Seq<char>, k: int)
    requires
        0 <= k <= s.len(),
    ensures
        digits_value(s.take(k)) <= digits_value(s),
    decreases s.len(),
{
    if k == s.len() {
        assert(s.take(k) =~= s);
    } else {
        lemma_digits_value_prefix(s.drop_last(), k);
        assert(s.drop_last().take(k) =~= s.take(k));
    }
}

/// The digit that `c` stands for.
pub(crate) fn digit_of(c: char) -> (d: u8)
    requires
        is_digit(c),
    ensures
        d as nat == digit_value(c),
        d < 10,
{
    ((c as u32) - ('0' as u32)) as u8
}

/// The character that writes the digit `d`.
pub(crate) fn char_of_digit(d: u8) -> (c: char)
    requires
        d < 10,
    ensures
        c == digit_char(d as nat),
        is_digit(c),
        digit_value(c) == d as nat,
{
    if d == 0 {
        '0'
    } else if d == 1 {
        '1'
    } else if d == 2 {
        '2'
    } else if d == 3 {
        '3'
    } else if d == 4 {
        '4'
    } else if d == 5 {
        '5'
    } else if d == 6 {
        '6'
    } else if d == 7 {
        '7'
    } else if d == 8 {
        '8'
    } else {
        '9'
    }
}

/// Whether `v[from..to]` holds decimal digits only.
pub(crate) fn digits_only(v: &Vec<char>, from: usize, to: usize) -> (b: bool)
    requires
        from <= to <= v.len(),
    ensures
        b == all_digits(v@.subrange(from as int, to as int)),
{
    let mut i: usize = from;
    while i < to
        invariant
            from <= i <= to <= v.len(),
            all_digits(v@.subrange(from as int, i as int)),
        decreases to - i,
    {
        let c = v[i];
        if !('0' <= c && c <= '9') {
            assert(!is_digit(v@.subrange(from as int, to as int)[i - from]));
            return false;
        }
        assert forall|j: int| 0 <= j < i + 1 - from implies is_digit(
            #[trigger] v@.subrange(from as int, i + 1)[j],
        ) by {
            if j < i - from {
                assert(v@.subrange(from as int, i as int)[j] == v@[from + j]);
            }
        }
        i += 1;
    }
    true
}

/// The greatest magnitude that `parse_digits` reports: one more than the
/// largest 64-bit unsigned number.
pub open spec fn digits_cap() -> nat {
    0x1_0000_0000_0000_0000
}

/// The number written by the digits `v[from..to]`, when it is at most
/// `digits_cap()`.
pub(crate) fn parse_digits(v: &Vec<char>, from: usize, to: usize) -> (r: Option<u128>)
    requires
        from <= to <= v.len(),
        all_digits(v@.subrange(from as int, to as int)),
    ensures
        match r {
            Some(n) => n as nat == digits_value(v@.subrange(from as int, to as int)) && n
                <= digits_cap(),
            None => digits_value(v@.subrange(from as int, to as int)) > digits_cap(),
        },
{
    let ghost whole = v@.subrange(from as int, to as int);
    let mut acc: u128 = 0;
    let mut i: usize = from;
    while i < to
        invariant
            from <= i <= to <= v.len(),
            whole == v@.subrange(from as int, to as int),
            all_digits(whole),
            acc as nat == digits_value(whole.take(i - from)),
            acc <= digits_cap(),
        decreases to - i,
    {
        let c = v[i];
        assert(whole[i - from] == c);
        let d = digit_of(c);
        let next: u128 = acc * 10 + d as u128;
        proof {
            let p = whole.take(i + 1 - from);
            assert(p.drop_last() =~= whole.take(i - from));
            assert(p.last() == c);
            assert(digits_value(p) == next as nat);
        }
        if next > 0x1_0000_0000_0000_0000 {
            proof {
                lemma_digits_value_prefix(whole, i + 1 - from);
            }
            return None;
        }
        acc = next;
        i += 1;
    }
    assert(whole.take(to - from) =~= whole);
    Some(acc)
}

/// Appends the decimal numeral of `n` to `out`.
pub(crate) fn push_decimal(out: &mut String, n: u128)
    ensures
        final(out)@ == old(out)@ + decimal(n as nat),
    decreases n,
{
    if n < 10 {
        out.push(char_of_digit(n as u8));
        assert(final(out)@ =~= old(out)@ + decimal(n as nat));
    } else {
        push_decimal(out, n / 10);
        out.push(char_of_digit((n % 10) as u8));
        assert(out@ =~= old(out)@ + decimal(n as nat));
    }
}

/// `str` equality compares the two texts character by character.
pub assume_specification[ <str as PartialEq>::eq ](a: &str, b: &str) -> (r: bool)
    ensures
        r == (a@ == b@),
;

/// Whether two texts are the same.
pub fn same_text(a: &str, b: &str) -> (r: bool)
    ensures
        r == (a@ == b@),
{
    a.eq(b)
}

/// How one character of a string is written inside a string literal.
pub open spec fn escape_char(c: char) -> Seq<char> {
    if c == '\\' {
        seq!['\\', '\\']
    } else if c == '\n' {
        seq!['\\', 'n']
    } else if c == '\r' {
        seq!['\\', 'r']
    } else if c == '\t' {
        seq!['\\', 't']
    } else if c == '"' {
        seq!['\\', '"']
    } else {
        seq![c]
    }
}

/// The characters of `s`, each in its escaped form.
pub open spec fn escape_body(s: Seq<char>) -> Seq<char>
    decreases s.len(),
{
    if s.len() == 0 {
        Seq::empty()
    } else {
        escape_char(s[0]) + escape_body(s.skip(1))
    }
}

/// The string literal that denotes `s`: quoted, with `\\`, newline, carriage
/// return, tab and `"` escaped.
pub open spec fn escape_text(s: Seq<char>) -> Seq<char> {
    seq!['"'] + escape_body(s) + seq!['"']
}

/// What a backslash followed by `c` stands for; an unknown pair stands for
/// itself.
pub open spec fn unescape_pair(c: char) -> Seq<char> {
    if c == '\\' {
        seq!['\\']
    } else if c == 'n' {
        seq!['\n']
    } else if c == 'r' {
        seq!['\r']
    } else if c == 't' {
        seq!['\t']
    } else if c == '"' {
        seq!['"']
    } else {
        seq!['\\', c]
    }
}

/// The text that the body of a string literal denotes, read left to right:
/// a backslash takes the character after it as an escape.
pub open spec fn unescape_body(s: Seq<char>) -> Seq<char>
    decreases s.len(),
{
    if s.len() == 0 {
        Seq::empty()
    } else if s[0] == '\\' && s.len() >= 2 {
        unescape_pair(s[1]) + unescape_body(s.skip(2))
    } else {
        seq![s[0]] + unescape_body(s.skip(1))
    }
}

/// A literal without its first and last character (empty when shorter than
/// two characters).
pub open spec fn literal_body(s: Seq<char>) -> Seq<char> {
    if s.len() >= 2 {
        s.subrange(1, s.len() - 1)
    } else {
        Seq::empty()
    }
}

/// The text that a quoted literal denotes.
pub open spec fn unescape_text(s: Seq<char>) -> Seq<char> {
    unescape_body(literal_body(s))
}

/// Unescaping undoes escaping, for the body of a literal.
pub proof fn lemma_unescape_escape_body(s: Seq<char>)
    ensures
        unescape_body(escape_body(s)) == s,
    decreases s.len(),
{
    if s.len() > 0 {
        let e = escape_body(s);
        let c = s[0];
        let rest = escape_body(s.skip(1));
        lemma_unescape_escape_body(s.skip(1));
        assert(e == escape_char(c) + rest);
        if escape_char(c).len() == 2 {
            assert(e[0] == '\\');
            assert(e.skip(2) =~= rest);
            assert(unescape_pair(e[1]) == seq![c]);
        } else {
            assert(e[0] == c);
            assert(e.skip(1) =~= rest);
        }
        assert(seq![c] + s.skip(1) =~= s);
    }
}

/// Reading a printed string gives the string back.
pub proof fn lemma_unescape_escape(s: Seq<char>)
    ensures
        unescape_text(escape_text(s)) == s,
{
    lemma_unescape_escape_body(s);
    assert(literal_body(escape_text(s)) =~= escape_body(s));
}

/// The literal for `s`: quoted and escaped.
pub fn escape_str(s: &str) -> (r: String)
    ensures
        r@ == escape_text(s@),
{
    let v = chars_of(s);
    let mut out = String::new();
    out.push('"');
    assert(v@.skip(0) =~= v@);
    assert(out@ =~= seq!['"']);
    let mut i: usize = 0;
    while i < v.len()
        invariant
            i <= v.len(),
            out@ + escape_body(v@.skip(i as int)) == seq!['"'] + escape_body(v@),
        decreases v.len() - i,
    {
        let c = v[i];
        proof {
            assert(v@.skip(i as int).skip(1) =~= v@.skip(i + 1));
            assert(v@.skip(i as int)[0] == c);
        }
        let ghost before = out@;
        if c == '\\' {
            out.push('\\');
            out.push('\\');
        } else if c == '\n' {
            out.push('\\');
            out.push('n');
        } else if c == '\r' {
            out.push('\\');
            out.push('r');
        } else if c == '\t' {
            out.push('\\');
            out.push('t');
        } else if c == '"' {
            out.push('\\');
            out.push('"');
        } else {
            out.push(c);
        }
        assert(out@ =~= before + escape_char(c));
        assert(out@ + escape_body(v@.skip(i + 1)) =~= before + escape_body(v@.skip(i as int)));
        i += 1;
    }
    out.push('"');
    assert(out@ =~= escape_text(s@));
    out
}

/// The text that the literal `s` denotes: its first and last character are
/// dropped and the escapes in between are resolved.
pub fn unescape_str(s: &str) -> (r: String)
    ensures
        r@ == unescape_text(s@),
{
    let v = chars_of(s);
    let mut out = String::new();
    if v.len() < 2 {
        return out;
    }
    let end: usize = v.len() - 1;
    let ghost body = literal_body(s@);
    assert(body.skip(0) =~= body);
    assert(out@ + unescape_body(body) =~= unescape_body(body));
    let mut i: usize = 1;
    while i < end
        invariant
            1 <= i <= end,
            end == v.len() - 1,
            body == v@.subrange(1, end as int),
            out@ + unescape_body(body.skip(i - 1)) == unescape_body(body),
        decreases end - i,
    {
        let c = v[i];
        let ghost before = out@;
        let ghost here = body.skip(i - 1);
        assert(here[0] == c);
        if c == '\\' && i + 1 < end {
            let d = v[i + 1];
            assert(here[1] == d);
            assert(here.skip(2) =~= body.skip(i + 1));
            if d == '\\' {
                out.push('\\');
            } else if d == 'n' {
                out.push('\n');
            } else if d == 'r' {
                out.push('\r');
            } else if d == 't' {
                out.push('\t');
            } else if d == '"' {
                out.push('"');
            } else {
                out.push('\\');
                out.push(d);
            }
            assert(out@ =~= before + unescape_pair(d));
            assert(out@ + unescape_body(body.skip(i + 1)) =~= before + unescape_body(here));
            i += 2;
        } else {
            assert(here.skip(1) =~= body.skip(i as int));
            out.push(c);
            assert(out@ + unescape_body(body.skip(i as int)) =~= before + unescape_body(here));
            i += 1;
        }
    }
    assert(body.skip(end - 1).len() == 0);
    assert(out@ =~= unescape_body(body));
    out
}

/// Whether `needle` stands in `hay` at index `i`.
pub open spec fn occurs_at(hay: Seq<char>, needle: Seq<char>, i: int) -> bool {
    0 <= i && i + needle.len() <= hay.len() && hay.subrange(i, i + needle.len()) == needle
}

/// Whether `needle` stands somewhere in `hay`.
pub open spec fn contains_text(hay: Seq<char>, needle: Seq<char>) -> bool {
    exists|i: int| occurs_at(hay, needle, i)
}

/// Whether `needle` stands somewhere in `hay`.
pub fn text_contains(hay: &str, needle: &str) -> (b: bool)
    ensures
        b == contains_text(hay@, needle@),
{
    let h = chars_of(hay);
    let n = chars_of(needle);
    if n.len() > h.len() {
        return false;
    }
    let last: usize = h.len() - n.len();
    let mut i: usize = 0;
    while i <= last
        invariant
            i <= last + 1,
            last == h.len() - n.len(),
            n.len() <= h.len(),
            h@ == hay@,
            n@ == needle@,
            forall|j: int| 0 <= j < i ==> !occurs_at(h@, n@, j),
        decreases last + 1 - i,
    {
        let mut k: usize = 0;
        while k < n.len() && h[i + k] == n[k]
            invariant
                k <= n.len(),
                i <= last,
                last == h.len() - n.len(),
                n.len() <= h.len(),
                forall|t: int| 0 <= t < k ==> h@[i + t] == n@[t],
            decreases n.len() - k,
        {
            k += 1;
        }
        if k == n.len() {
            assert(h@.subrange(i as int, i + n.len()) =~= n@);
            assert(occurs_at(h@, n@, i as int));
            return true;
        }
        assert(h@.subrange(i as int, i + n.len())[k as int] != n@[k as int]);
        i += 1;
    }
    false
}

/// The texts `l[i..]`, separated by single spaces.
pub open spec fn joined(l: Seq<Seq<char>>, i: int) -> Seq<char>
    decreases l.len() - i,
{
    if i < 0 || i >= l.len() {
        Seq::empty()
    } else if i + 1 == l.len() {
        l[i]
    } else {
        l[i] + seq![' '] + joined(l, i + 1)
    }
}

/// The texts, separated by single spaces.
pub fn join_spaced(l: &Vec<String>) -> (r: String)
    ensures
        r@ == joined(Seq::new(l@.len(), |i: int| l@[i]@), 0),
{
    let ghost texts = Seq::new(l@.len(), |i: int| l@[i]@);
    let mut out = String::new();
    assert(out@ + joined(texts, 0) =~= joined(texts, 0));
    let mut i: usize = 0;
    while i < l.len()
        invariant
            i <= l.len(),
            texts == Seq::new(l@.len(), |i: int| l@[i]@),
            out@ + joined(texts, i as int) == joined(texts, 0),
        decreases l.len() - i,
    {
        let ghost before = out@;
        assert(texts[i as int] == l@[i as int]@);
        out.append(l[i].as_str());
        if i + 1 < l.len() {
            out.push(' ');
        }
        assert(out@ + joined(texts, i + 1) =~= before + joined(texts, i as int));
        i += 1;
    }
    assert(out@ + joined(texts, l.len() as int) =~= out@);
    out
}

} // verus!
