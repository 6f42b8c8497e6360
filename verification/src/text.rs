//! Text as sequences of characters: building messages, and the splitting and
//! number rules that the kernel's text files need.

use vstd::prelude::*;

use crate::views;

verus! {

// ---------------------------------------------------------------------
// Conversion
// ---------------------------------------------------------------------

/// Appends one character: `std::string::String::push`, whose documentation
/// says that it adds the character at the end of the string.
#[verifier::external_body]
pub(crate) fn push_char(text: &mut String, c: char)
    ensures
        final(text)@ == old(text)@.push(c),
{
    text.push(c);
}

/// Appends a text.
pub fn push_text(text: &mut String, tail: &str)
    ensures
        final(text)@ == old(text)@ + tail@,
{
    let chars: Vec<char> = chars_of(tail);
    let ghost start = text@;
    let mut i: usize = 0;
    while i < chars.len()
        invariant
            i <= chars@.len(),
            chars@ == tail@,
            text@ == start + tail@.take(i as int),
        decreases chars@.len() - i,
    {
        push_char(text, chars[i]);
        i = i + 1;
        assert(text@ =~= start + tail@.take(i as int));
    }
    assert(tail@.take(i as int) =~= tail@);
}

/// The characters of a string, one by one.
pub fn chars_of(text: &str) -> (chars: Vec<char>)
    ensures
        chars@ == text@,
{
    let mut chars: Vec<char> = Vec::new();
    for c in it: text.chars()
        invariant
            it.seq() == text@,
            chars@ == text@.take(it.index() as int),
    {
        chars.push(c);
        assert(text@.take(it.index() + 1) =~= text@.take(it.index() as int).push(
            text@[it.index() as int],
        ));
    }
    chars
}

/// The string made of `chars[from..to]`.
pub fn text_of(chars: &Vec<char>, from: usize, to: usize) -> (text: String)
    requires
        from <= to <= chars@.len(),
    ensures
        text@ == chars@.subrange(from as int, to as int),
{
    let mut text: String = String::new();
    let mut i: usize = from;
    while i < to
        invariant
            from <= i <= to <= chars@.len(),
            text@ == chars@.subrange(from as int, i as int),
        decreases to - i,
    {
        push_char(&mut text, chars[i]);
        i = i + 1;
        assert(text@ =~= chars@.subrange(from as int, i as int));
    }
    text
}

/// Whether two strings hold the same characters.
pub fn same_text(left: &str, right: &str) -> (same: bool)
    ensures
        same == (left@ == right@),
{
    left.to_owned() == right.to_owned()
}

/// Whether `list` holds `text`.
pub fn holds_text(list: &Vec<String>, text: &str) -> (found: bool)
    ensures
        found == views::of(list@).contains(text@),
{
    let mut i: usize = 0;
    while i < list.len()
        invariant
            i <= list@.len(),
            forall|k: int| 0 <= k < i ==> list@[k]@ != text@,
        decreases list@.len() - i,
    {
        if same_text(list[i].as_str(), text) {
            assert(views::of(list@)[i as int] == text@);
            return true;
        }
        i = i + 1;
    }
    assert(!views::of(list@).contains(text@)) by {
        if views::of(list@).contains(text@) {
            let k = choose|k: int| 0 <= k < views::of(list@).len() && views::of(list@)[k] == text@;
            assert(list@[k]@ == text@);
        }
    }
    false
}

// ---------------------------------------------------------------------
// Numbers
// ---------------------------------------------------------------------

/// The decimal digit of a value below ten, or the hexadecimal one below
/// sixteen.
pub open spec fn digit(value: nat) -> char {
    if value < 10 {
        (48 + value) as char
    } else {
        (87 + value) as char
    }
}

/// A number written in the given base, without leading zeros.
pub open spec fn numeral(value: nat, base: nat) -> Seq<char>
    decreases value,
{
    if base < 2 || value < base {
        seq![digit(value)]
    } else {
        proof {
            assert(value / base < value) by (nonlinear_arith)
                requires
                    2 <= base <= value,
            ;
        }
        numeral(value / base, base).push(digit(value % base))
    }
}

/// A number in decimal notation.
pub open spec fn decimal(value: nat) -> Seq<char> {
    numeral(value, 10)
}

/// A number in hexadecimal notation, in lower case and without a prefix.
pub open spec fn hexadecimal(value: nat) -> Seq<char> {
    numeral(value, 16)
}

/// A number from 0 to 99 in two decimal digits.
pub open spec fn two_digits(value: nat) -> Seq<char> {
    seq![digit(value / 10), digit(value % 10)]
}

fn digit_char(value: u8) -> (c: char)
    requires
        value < 16,
    ensures
        c == digit(value as nat),
{
    if value < 10 {
        (48 + value) as char
    } else {
        (87 + value) as char
    }
}

fn push_numeral(text: &mut String, value: u64, base: u64)
    requires
        base == 10 || base == 16,
    ensures
        final(text)@ == old(text)@ + numeral(value as nat, base as nat),
    decreases value,
{
    if value < base {
        push_char(text, digit_char(value as u8));
        assert(text@ =~= old(text)@ + seq![digit(value as nat)]);
    } else {
        push_numeral(text, value / base, base);
        let ghost head = text@;
        push_char(text, digit_char((value % base) as u8));
        assert(text@ =~= old(text)@ + numeral(value as nat / base as nat, base as nat).push(
            digit(value as nat % base as nat),
        ));
    }
}

/// Appends a number in decimal notation.
pub fn push_decimal(text: &mut String, value: u64)
    ensures
        final(text)@ == old(text)@ + decimal(value as nat),
{
    push_numeral(text, value, 10);
}

/// Appends a number of up to 128 bits in decimal notation.
pub fn push_wide_decimal(text: &mut String, value: u128)
    ensures
        final(text)@ == old(text)@ + decimal(value as nat),
    decreases value,
{
    if value < 10 {
        push_char(text, digit_char(value as u8));
        assert(text@ =~= old(text)@ + seq![digit(value as nat)]);
    } else {
        push_wide_decimal(text, value / 10);
        push_char(text, digit_char((value % 10) as u8));
        assert(text@ =~= old(text)@ + decimal(value as nat / 10).push(digit(value as nat % 10)));
    }
}

/// Appends a number in hexadecimal notation.
pub fn push_hexadecimal(text: &mut String, value: u64)
    ensures
        final(text)@ == old(text)@ + hexadecimal(value as nat),
{
    push_numeral(text, value, 16);
}

/// Appends a number below one hundred in two digits.
pub fn push_two_digits(text: &mut String, value: u16)
    requires
        value < 100,
    ensures
        final(text)@ == old(text)@ + two_digits(value as nat),
{
    push_char(text, digit_char((value / 10) as u8));
    push_char(text, digit_char((value % 10) as u8));
    assert(text@ =~= old(text)@ + two_digits(value as nat));
}

pub open spec fn is_digit(c: char) -> bool {
    '0' <= c <= '9'
}

/// The number that a row of decimal digits writes.
pub open spec fn digits_value(digits: Seq<char>) -> nat
    decreases digits.len(),
{
    if digits.len() == 0 {
        0
    } else {
        10 * digits_value(digits.drop_last()) + (digits.last() as nat - 48) as nat
    }
}

/// `s` without one leading plus sign.
pub open spec fn after_plus(s: Seq<char>) -> Seq<char> {
    if s.len() > 0 && s[0] == '+' {
        s.skip(1)
    } else {
        s
    }
}

/// Reads an unsigned decimal number: one optional plus sign, then only
/// digits, at least one, and a value that is no greater than `limit`.
pub open spec fn parse_number(s: Seq<char>, limit: nat) -> Option<nat> {
    let digits = after_plus(s);
    if digits.len() > 0 && (forall|i: int| 0 <= i < digits.len() ==> is_digit(#[trigger] digits[i]))
        && digits_value(digits) <= limit {
        Some(digits_value(digits))
    } else {
        None
    }
}

proof fn lemma_digits_value_grows(digits: Seq<char>, n: int)
    requires
        0 <= n <= digits.len(),
        forall|i: int| 0 <= i < digits.len() ==> is_digit(#[trigger] digits[i]),
    ensures
        digits_value(digits.take(n)) <= digits_value(digits),
    decreases digits.len() - n,
{
    if n < digits.len() {
        lemma_digits_value_grows(digits, n + 1);
        assert(digits.take(n + 1).drop_last() =~= digits.take(n));
    } else {
        assert(digits.take(n) =~= digits);
    }
}

/// Reads an unsigned decimal number that is no greater than `limit`.
pub fn parse_limited(text: &str, limit: u64) -> (value: Option<u64>)
    ensures
        match value {
            Some(v) => parse_number(text@, limit as nat) == Some(v as nat),
            None => parse_number(text@, limit as nat) is None,
        },
{
    let chars: Vec<char> = chars_of(text);
    let start: usize = if chars.len() > 0 && chars[0] == '+' {
        1
    } else {
        0
    };
    let ghost digits = after_plus(text@);
    assert(digits =~= chars@.skip(start as int));
    if start == chars.len() {
        return None;
    }
    let mut value: u64 = 0;
    let mut i: usize = start;
    while i < chars.len()
        invariant
            start <= i <= chars@.len(),
            start <= 1,
            digits == chars@.skip(start as int),
            digits == after_plus(text@),
            forall|k: int| 0 <= k < i - start ==> is_digit(#[trigger] digits[k]),
            value == digits_value(digits.take(i - start)),
            value <= limit,
        decreases chars@.len() - i,
    {
        let c: char = chars[i];
        let ghost at = i - start;
        assert(digits[at] == c);
        if !('0' <= c && c <= '9') {
            assert(!is_digit(digits[at]));
            return None;
        }
        let ghost so_far = digits.take(at + 1);
        assert(so_far.drop_last() =~= digits.take(at));
        let step: u128 = value as u128 * 10 + (c as u32 - 48) as u128;
        assert(step == digits_value(so_far));
        if step > limit as u128 {
            proof {
                if forall|k: int| 0 <= k < digits.len() ==> is_digit(#[trigger] digits[k]) {
                    lemma_digits_value_grows(digits, at + 1);
                }
            }
            return None;
        }
        value = step as u64;
        i = i + 1;
        assert forall|k: int| 0 <= k < i - start implies is_digit(#[trigger] digits[k]) by {
            if k == at {
                assert(is_digit(c));
            }
        }
    }
    assert(digits.take(i - start) =~= digits);
    Some(value)
}

/// Reads a `u64` in decimal notation.
pub fn parse_u64(text: &str) -> (value: Option<u64>)
    ensures
        match value {
            Some(v) => parse_number(text@, u64::MAX as nat) == Some(v as nat),
            None => parse_number(text@, u64::MAX as nat) is None,
        },
{
    parse_limited(text, u64::MAX)
}

/// Reads a `u32` in decimal notation.
pub fn parse_u32(text: &str) -> (value: Option<u32>)
    ensures
        match value {
            Some(v) => parse_number(text@, u32::MAX as nat) == Some(v as nat),
            None => parse_number(text@, u32::MAX as nat) is None,
        },
{
    match parse_limited(text, u32::MAX as u64) {
        Some(v) => Some(v as u32),
        None => None,
    }
}

// ---------------------------------------------------------------------
// Splitting
// ---------------------------------------------------------------------

/// The characters with the Unicode property White_Space.
pub open spec fn is_white_space(c: char) -> bool {
    let v = c as u32;
    ||| 0x9 <= v <= 0xd
    ||| v == 0x20
    ||| v == 0x85
    ||| v == 0xa0
    ||| v == 0x1680
    ||| 0x2000 <= v <= 0x200a
    ||| v == 0x2028
    ||| v == 0x2029
    ||| v == 0x202f
    ||| v == 0x205f
    ||| v == 0x3000
}

/// Whether a character is white space.
pub fn white_space(c: char) -> (yes: bool)
    ensures
        yes == is_white_space(c),
{
    let v: u32 = c as u32;
    (0x9 <= v && v <= 0xd) || v == 0x20 || v == 0x85 || v == 0xa0 || v == 0x1680 || (0x2000 <= v
        && v <= 0x200a) || v == 0x2028 || v == 0x2029 || v == 0x202f || v == 0x205f || v == 0x3000
}

/// How many characters stand before the first white space.
pub open spec fn word_len(s: Seq<char>) -> nat
    decreases s.len(),
{
    if s.len() == 0 || is_white_space(s[0]) {
        0
    } else {
        1 + word_len(s.skip(1))
    }
}

/// The words of a line, as white space separates them.
pub open spec fn words(s: Seq<char>) -> Seq<Seq<char>>
    decreases s.len(),
{
    if s.len() == 0 {
        Seq::empty()
    } else if is_white_space(s[0]) {
        words(s.skip(1))
    } else {
        proof {
            lemma_word_len(s);
        }
        seq![s.take(word_len(s) as int)] + words(s.skip(word_len(s) as int))
    }
}

pub proof fn lemma_word_len(s: Seq<char>)
    ensures
        word_len(s) <= s.len(),
        forall|i: int| 0 <= i < word_len(s) ==> !is_white_space(#[trigger] s[i]),
        word_len(s) < s.len() ==> is_white_space(s[word_len(s) as int]),
    decreases s.len(),
{
    if s.len() > 0 && !is_white_space(s[0]) {
        lemma_word_len(s.skip(1));
        let rest = s.skip(1);
        assert forall|i: int| 0 <= i < word_len(s) implies !is_white_space(#[trigger] s[i]) by {
            if i > 0 {
                assert(rest[i - 1] == s[i]);
            }
        }
    }
}

proof fn lemma_word_len_is(s: Seq<char>, n: nat)
    requires
        n <= s.len(),
        forall|i: int| 0 <= i < n ==> !is_white_space(#[trigger] s[i]),
        n < s.len() ==> is_white_space(s[n as int]),
    ensures
        word_len(s) == n,
    decreases n,
{
    if n > 0 {
        let rest = s.skip(1);
        assert forall|i: int| 0 <= i < n - 1 implies !is_white_space(#[trigger] rest[i]) by {
            assert(rest[i] == s[i + 1]);
        }
        lemma_word_len_is(rest, (n - 1) as nat);
    }
}

/// Splits a line into its words.
pub fn split_words(text: &str) -> (list: Vec<String>)
    ensures
        views::of(list@) == words(text@),
{
    let chars: Vec<char> = chars_of(text);
    let mut list: Vec<String> = Vec::new();
    let mut i: usize = 0;
    proof {
        assert(chars@.skip(0) =~= chars@);
        assert(views::of(list@) + words(chars@) =~= words(chars@));
    }
    while i < chars.len()
        invariant
            i <= chars@.len(),
            chars@ == text@,
            views::of(list@) + words(chars@.skip(i as int)) == words(text@),
        decreases chars@.len() - i,
    {
        let ghost rest = chars@.skip(i as int);
        proof {
            lemma_word_len(rest);
        }
        if white_space(chars[i]) {
            assert(rest.skip(1) =~= chars@.skip(i + 1));
            i = i + 1;
        } else {
            let start: usize = i;
            while i < chars.len() && !white_space(chars[i])
                invariant
                    start <= i <= chars@.len(),
                    forall|k: int|
                        0 <= k < i - start ==> !is_white_space(
                            #[trigger] chars@.skip(start as int)[k],
                        ),
                decreases chars@.len() - i,
            {
                i = i + 1;
            }
            proof {
                lemma_word_len_is(rest, (i - start) as nat);
                assert(rest.take(i - start) =~= chars@.subrange(start as int, i as int));
                assert(rest.skip(i - start) =~= chars@.skip(i as int));
            }
            let word: String = text_of(&chars, start, i);
            let ghost before = views::of(list@);
            list.push(word);
            proof {
                assert(views::of(list@) =~= before.push(word@));
                assert(before.push(word@) + words(chars@.skip(i as int)) =~= before + (seq![word@]
                    + words(chars@.skip(i as int))));
            }
        }
    }
    assert(chars@.skip(i as int) =~= Seq::<char>::empty());
    assert(views::of(list@) + Seq::<Seq<char>>::empty() =~= views::of(list@));
    list
}

/// The first place of `c` in `s`, or the length of `s` where it has none.
pub open spec fn find_char(s: Seq<char>, c: char) -> nat
    decreases s.len(),
{
    if s.len() == 0 || s[0] == c {
        0
    } else {
        1 + find_char(s.skip(1), c)
    }
}

pub proof fn lemma_find_char(s: Seq<char>, c: char)
    ensures
        find_char(s, c) <= s.len(),
        forall|i: int| 0 <= i < find_char(s, c) ==> #[trigger] s[i] != c,
        find_char(s, c) < s.len() ==> s[find_char(s, c) as int] == c,
    decreases s.len(),
{
    if s.len() > 0 && s[0] != c {
        lemma_find_char(s.skip(1), c);
        let rest = s.skip(1);
        assert forall|i: int| 0 <= i < find_char(s, c) implies #[trigger] s[i] != c by {
            if i > 0 {
                assert(rest[i - 1] == s[i]);
            }
        }
    }
}

proof fn lemma_find_char_is(s: Seq<char>, c: char, n: nat)
    requires
        n <= s.len(),
        forall|i: int| 0 <= i < n ==> #[trigger] s[i] != c,
        n < s.len() ==> s[n as int] == c,
    ensures
        find_char(s, c) == n,
    decreases n,
{
    if n > 0 {
        let rest = s.skip(1);
        assert forall|i: int| 0 <= i < n - 1 implies #[trigger] rest[i] != c by {
            assert(rest[i] == s[i + 1]);
        }
        lemma_find_char_is(rest, c, (n - 1) as nat);
    }
}

/// The first place of `c` at or after `from`, or the end.
fn find_from(chars: &Vec<char>, from: usize, c: char) -> (at: usize)
    requires
        from <= chars@.len(),
    ensures
        at - from == find_char(chars@.skip(from as int), c),
        from <= at <= chars@.len(),
{
    let mut i: usize = from;
    while i < chars.len() && chars[i] != c
        invariant
            from <= i <= chars@.len(),
            forall|k: int| 0 <= k < i - from ==> #[trigger] chars@.skip(from as int)[k] != c,
        decreases chars@.len() - i,
    {
        i = i + 1;
    }
    proof {
        lemma_find_char_is(chars@.skip(from as int), c, (i - from) as nat);
    }
    i
}

/// `s` cut at the first `c`, which belongs to neither part.
pub open spec fn cut_at(s: Seq<char>, c: char) -> Option<(Seq<char>, Seq<char>)> {
    let k = find_char(s, c) as int;
    if k < s.len() {
        Some((s.take(k), s.skip(k + 1)))
    } else {
        None
    }
}

/// Cuts a string at the first `c`.
pub fn split_once(text: &str, c: char) -> (parts: Option<(String, String)>)
    ensures
        match parts {
            Some((left, right)) => cut_at(text@, c) == Some((left@, right@)),
            None => cut_at(text@, c) is None,
        },
{
    let chars: Vec<char> = chars_of(text);
    let at: usize = find_from(&chars, 0, c);
    assert(chars@.skip(0) =~= text@);
    if at < chars.len() {
        let left: String = text_of(&chars, 0, at);
        let right: String = text_of(&chars, at + 1, chars.len());
        assert(left@ =~= text@.take(at as int));
        assert(right@ =~= text@.skip(at + 1));
        Some((left, right))
    } else {
        None
    }
}

/// The pieces of `s` between the places of `c`; there is always one more
/// piece than there are places.
pub open spec fn pieces(s: Seq<char>, c: char) -> Seq<Seq<char>>
    decreases s.len(),
{
    let k = find_char(s, c) as int;
    if k >= s.len() {
        seq![s]
    } else {
        seq![s.take(k)] + pieces(s.skip(k + 1), c)
    }
}

/// Splits a string at every `c`.
pub fn split_char(text: &str, c: char) -> (list: Vec<String>)
    ensures
        views::of(list@) == pieces(text@, c),
{
    let chars: Vec<char> = chars_of(text);
    let mut list: Vec<String> = Vec::new();
    let mut i: usize = 0;
    proof {
        assert(chars@.skip(0) =~= chars@);
        assert(views::of(list@) + pieces(chars@, c) =~= pieces(chars@, c));
    }
    loop
        invariant
            i <= chars@.len(),
            chars@ == text@,
            views::of(list@) + pieces(chars@.skip(i as int), c) == pieces(text@, c),
        decreases chars@.len() - i,
    {
        let ghost rest = chars@.skip(i as int);
        let at: usize = find_from(&chars, i, c);
        let piece: String = text_of(&chars, i, at);
        let ghost before = views::of(list@);
        list.push(piece);
        assert(views::of(list@) =~= before.push(piece@));
        if at == chars.len() {
            assert(piece@ =~= rest);
            assert(before.push(piece@) =~= before + seq![rest]);
            return list;
        }
        proof {
            assert(piece@ =~= rest.take(at - i));
            assert(rest.skip(at - i + 1) =~= chars@.skip(at + 1));
            assert(before.push(piece@) + pieces(chars@.skip(at + 1), c) =~= before + (seq![piece@]
                + pieces(chars@.skip(at + 1), c)));
        }
        i = at + 1;
    }
}

/// `line` without one carriage return at its end.
pub open spec fn without_return(line: Seq<char>) -> Seq<char> {
    if line.len() > 0 && line.last() == '\r' {
        line.drop_last()
    } else {
        line
    }
}

/// The lines of a text. A line ends at a line feed, with or without a
/// carriage return before it; the end of the text closes the last one.
pub open spec fn lines(s: Seq<char>) -> Seq<Seq<char>>
    decreases s.len(),
{
    let k = find_char(s, '\n') as int;
    if s.len() == 0 {
        Seq::empty()
    } else if k >= s.len() {
        seq![s]
    } else {
        seq![without_return(s.take(k))] + lines(s.skip(k + 1))
    }
}

/// Splits a text into its lines.
pub fn split_lines(text: &str) -> (list: Vec<String>)
    ensures
        views::of(list@) == lines(text@),
{
    let chars: Vec<char> = chars_of(text);
    let mut list: Vec<String> = Vec::new();
    let mut i: usize = 0;
    proof {
        assert(chars@.skip(0) =~= chars@);
        assert(views::of(list@) + lines(chars@) =~= lines(chars@));
    }
    while i < chars.len()
        invariant
            i <= chars@.len(),
            chars@ == text@,
            views::of(list@) + lines(chars@.skip(i as int)) == lines(text@),
        decreases chars@.len() - i,
    {
        let ghost rest = chars@.skip(i as int);
        let at: usize = find_from(&chars, i, '\n');
        let ghost before = views::of(list@);
        if at == chars.len() {
            let line: String = text_of(&chars, i, at);
            list.push(line);
            proof {
                assert(views::of(list@) =~= before.push(line@));
                assert(line@ =~= rest);
                assert(before.push(line@) =~= before + seq![rest]);
            }
            return list;
        }
        let end: usize = if at > i && chars[at - 1] == '\r' {
            at - 1
        } else {
            at
        };
        let line: String = text_of(&chars, i, end);
        list.push(line);
        proof {
            assert(views::of(list@) =~= before.push(line@));
            assert(line@ =~= without_return(rest.take(at - i)));
            assert(rest.skip(at - i + 1) =~= chars@.skip(at + 1));
            assert(before.push(line@) + lines(chars@.skip(at + 1)) =~= before + (seq![line@]
                + lines(chars@.skip(at + 1))));
        }
        i = at + 1;
    }
    assert(chars@.skip(i as int) =~= Seq::<char>::empty());
    assert(views::of(list@) + Seq::<Seq<char>>::empty() =~= views::of(list@));
    list
}

/// How many white-space characters lead `s`.
pub open spec fn blank_prefix(s: Seq<char>) -> nat
    decreases s.len(),
{
    if s.len() == 0 || !is_white_space(s[0]) {
        0
    } else {
        1 + blank_prefix(s.skip(1))
    }
}

/// How many white-space characters end `s`.
pub open spec fn blank_suffix(s: Seq<char>) -> nat
    decreases s.len(),
{
    if s.len() == 0 || !is_white_space(s.last()) {
        0
    } else {
        1 + blank_suffix(s.drop_last())
    }
}

/// `s` without the white space at its two ends.
pub open spec fn trimmed(s: Seq<char>) -> Seq<char> {
    let t = s.skip(blank_prefix(s) as int);
    t.take(t.len() - blank_suffix(t))
}

/// Removes the white space at both ends of a string.
pub fn trim(text: &str) -> (result: String)
    ensures
        result@ == trimmed(text@),
{
    let chars: Vec<char> = chars_of(text);
    let mut from: usize = 0;
    assert(chars@.skip(0) =~= chars@);
    while from < chars.len() && white_space(chars[from])
        invariant
            from <= chars@.len(),
            from + blank_prefix(chars@.skip(from as int)) == blank_prefix(chars@),
        decreases chars@.len() - from,
    {
        assert(chars@.skip(from as int).skip(1) =~= chars@.skip(from + 1));
        from = from + 1;
    }
    let ghost t = chars@.skip(from as int);
    let mut to: usize = chars.len();
    assert(chars@.subrange(from as int, to as int) =~= t);
    while to > from && white_space(chars[to - 1])
        invariant
            from <= to <= chars@.len(),
            t == chars@.skip(from as int),
            (chars@.len() - to) + blank_suffix(chars@.subrange(from as int, to as int))
                == blank_suffix(t),
        decreases to,
    {
        assert(chars@.subrange(from as int, to as int).drop_last() =~= chars@.subrange(
            from as int,
            to - 1,
        ));
        to = to - 1;
    }
    let result: String = text_of(&chars, from, to);
    assert(result@ =~= t.take(to - from));
    result
}

/// Whether `s` begins with `prefix`.
pub open spec fn begins_with(s: Seq<char>, prefix: Seq<char>) -> bool {
    prefix.len() <= s.len() && s.take(prefix.len() as int) == prefix
}

/// The first place where `part` stands in `s` at or after `from`, if any.
pub open spec fn is_first_place(s: Seq<char>, part: Seq<char>, at: int) -> bool {
    &&& 0 <= at <= s.len()
    &&& begins_with(s.skip(at), part)
    &&& forall|k: int| 0 <= k < at ==> !#[trigger] begins_with(s.skip(k), part)
}

/// Whether a string begins with another.
pub fn starts_with(text: &str, prefix: &str) -> (yes: bool)
    ensures
        yes == begins_with(text@, prefix@),
{
    let chars: Vec<char> = chars_of(text);
    let head: Vec<char> = chars_of(prefix);
    assert(chars@.skip(0) =~= text@);
    matches_at(&chars, 0, &head)
}

fn matches_at(chars: &Vec<char>, at: usize, part: &Vec<char>) -> (yes: bool)
    requires
        at <= chars@.len(),
    ensures
        yes == begins_with(chars@.skip(at as int), part@),
{
    let ghost rest = chars@.skip(at as int);
    let len: usize = chars.len();
    if part.len() > len - at {
        return false;
    }
    let mut i: usize = 0;
    while i < part.len()
        invariant
            len == chars@.len(),
            i <= part@.len(),
            at + part@.len() <= chars@.len(),
            rest == chars@.skip(at as int),
            forall|k: int| 0 <= k < i ==> rest[k] == part@[k],
        decreases part@.len() - i,
    {
        if chars[at + i] != part[i] {
            assert(rest.take(part@.len() as int)[i as int] != part@[i as int]);
            return false;
        }
        i = i + 1;
    }
    assert(rest.take(part@.len() as int) =~= part@);
    true
}

/// `s` cut at the first place of `part`, which belongs to neither side.
pub open spec fn is_cut_at_part(
    s: Seq<char>,
    part: Seq<char>,
    left: Seq<char>,
    right: Seq<char>,
) -> bool {
    &&& is_first_place(s, part, left.len() as int)
    &&& left == s.take(left.len() as int)
    &&& right == s.skip((left.len() + part.len()) as int)
}

/// The two sides of the first place of `part` in `s`, where there is one.
pub open spec fn cut_at_part(s: Seq<char>, part: Seq<char>) -> Option<(Seq<char>, Seq<char>)> {
    if exists|at: int| is_first_place(s, part, at) {
        let at = choose|at: int| is_first_place(s, part, at);
        Some((s.take(at), s.skip(at + part.len())))
    } else {
        None
    }
}

/// There is one way to cut a string at the first place of a part.
pub proof fn lemma_cut_is_unique(
    s: Seq<char>,
    part: Seq<char>,
    left: Seq<char>,
    right: Seq<char>,
)
    requires
        is_cut_at_part(s, part, left, right),
    ensures
        cut_at_part(s, part) == Some((left, right)),
{
    let at = choose|at: int| is_first_place(s, part, at);
    assert(is_first_place(s, part, left.len() as int));
    assert(at == left.len()) by {
        if at < left.len() {
            assert(begins_with(s.skip(at), part));
        } else if left.len() < at {
            assert(begins_with(s.skip(left.len() as int), part));
        }
    }
}

/// Cuts a string at the first place of `part`.
pub fn split_once_text(text: &str, part: &str) -> (parts: Option<(String, String)>)
    ensures
        match parts {
            Some((left, right)) => cut_at_part(text@, part@) == Some((left@, right@)),
            None => cut_at_part(text@, part@) is None,
        },
{
    let chars: Vec<char> = chars_of(text);
    let needle: Vec<char> = chars_of(part);
    let mut at: usize = 0;
    loop
        invariant
            at <= chars@.len(),
            chars@ == text@,
            needle@ == part@,
            forall|k: int| 0 <= k < at ==> !#[trigger] begins_with(text@.skip(k), part@),
        decreases chars@.len() - at,
    {
        let len: usize = chars.len();
        if matches_at(&chars, at, &needle) {
            let left: String = text_of(&chars, 0, at);
            let right: String = text_of(&chars, at + needle.len(), len);
            proof {
                assert(left@ =~= text@.take(at as int));
                assert(right@ =~= text@.skip((at + needle@.len()) as int));
                lemma_cut_is_unique(text@, part@, left@, right@);
            }
            return Some((left, right));
        }
        if at == chars.len() {
            return None;
        }
        at = at + 1;
    }
}

/// The rest of a string after `prefix`, where it begins with it.
pub fn strip_prefix(text: &str, prefix: &str) -> (rest: Option<String>)
    ensures
        match rest {
            Some(r) => begins_with(text@, prefix@) && r@ == text@.skip(prefix@.len() as int),
            None => !begins_with(text@, prefix@),
        },
{
    let chars: Vec<char> = chars_of(text);
    let head: Vec<char> = chars_of(prefix);
    assert(chars@.skip(0) =~= text@);
    if matches_at(&chars, 0, &head) {
        let rest: String = text_of(&chars, head.len(), chars.len());
        assert(rest@ =~= text@.skip(prefix@.len() as int));
        Some(rest)
    } else {
        None
    }
}

/// Whether `s` ends with `suffix`.
pub open spec fn ends_with(s: Seq<char>, suffix: Seq<char>) -> bool {
    suffix.len() <= s.len() && s.skip(s.len() - suffix.len()) == suffix
}

/// The part of a string before `suffix`, where it ends with it.
pub fn strip_suffix(text: &str, suffix: &str) -> (rest: Option<String>)
    ensures
        match rest {
            Some(r) => ends_with(text@, suffix@) && r@ == text@.take(
                text@.len() - suffix@.len(),
            ),
            None => !ends_with(text@, suffix@),
        },
{
    let chars: Vec<char> = chars_of(text);
    let tail: Vec<char> = chars_of(suffix);
    if tail.len() > chars.len() {
        return None;
    }
    let at: usize = chars.len() - tail.len();
    let ghost rest = text@.skip(at as int);
    assert(rest.take(tail@.len() as int) =~= rest);
    if matches_at(&chars, at, &tail) {
        let head: String = text_of(&chars, 0, at);
        assert(head@ =~= text@.take(at as int));
        Some(head)
    } else {
        None
    }
}

} // verus!
