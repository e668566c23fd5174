//! Text as sequences of characters: trimming, splitting, joining and decimal numbers.

use vstd::prelude::*;
use vstd::string::StrSliceExecFns;
use vstd::string::StringExecFns;

verus! {

// ---------------------------------------------------------------------------
// Characters
// ---------------------------------------------------------------------------

/// An ASCII decimal digit.
pub open spec fn is_digit(c: char) -> bool {
    '0' <= c <= '9'
}

/// The value of a decimal digit.
pub open spec fn digit_value(c: char) -> int {
    c as int - '0' as int
}

/// The digit character that stands for `d`.
pub open spec fn digit_char(d: nat) -> char {
    ('0' as int + d) as char
}

/// The Unicode property White_Space.
pub open spec fn white_space(c: char) -> bool {
    let code = c as int;
    ||| 0x9 <= code <= 0xd
    ||| code == 0x20
    ||| code == 0x85
    ||| code == 0xa0
    ||| code == 0x1680
    ||| 0x2000 <= code <= 0x200a
    ||| code == 0x2028
    ||| code == 0x2029
    ||| code == 0x202f
    ||| code == 0x205f
    ||| code == 0x3000
}

/// An ASCII capital as its small letter, any other character as it is.
pub open spec fn lower_char(c: char) -> char {
    if 'A' <= c <= 'Z' {
        (c as int + 32) as char
    } else {
        c
    }
}

// ---------------------------------------------------------------------------
// Sequences of characters
// ---------------------------------------------------------------------------

pub open spec fn all_digits(s: Seq<char>) -> bool {
    forall|i: int| 0 <= i < s.len() ==> is_digit(#[trigger] s[i])
}

/// At least one digit and nothing else.
pub open spec fn is_number(s: Seq<char>) -> bool {
    s.len() > 0 && all_digits(s)
}

/// The number that digits stand for in base ten.
pub open spec fn number(s: Seq<char>) -> nat
    decreases s.len(),
{
    if s.len() == 0 {
        0
    } else {
        (number(s.drop_last()) * 10 + digit_value(s.last())) as nat
    }
}

/// What the text of an unsigned integer stands for: digits, with or without one `+` before them.
pub open spec fn unsigned_value(s: Seq<char>) -> Option<nat> {
    let digits = if s.len() > 0 && s[0] == '+' {
        s.skip(1)
    } else {
        s
    };
    if is_number(digits) {
        Some(number(digits))
    } else {
        None
    }
}

/// `n` in base ten, without leading zeros.
pub open spec fn decimal(n: nat) -> Seq<char>
    decreases n,
{
    if n < 10 {
        seq![digit_char(n)]
    } else {
        decimal(n / 10).push(digit_char(n % 10))
    }
}

pub open spec fn zeros(count: nat) -> Seq<char> {
    Seq::new(count, |i: int| '0')
}

/// `n` in base ten, filled up with leading zeros to at least `width` digits.
pub open spec fn padded(n: nat, width: nat) -> Seq<char> {
    let digits = decimal(n);
    if digits.len() < width {
        zeros((width - digits.len()) as nat) + digits
    } else {
        digits
    }
}

/// Ten to the power of `exponent`.
pub open spec fn power_of_ten(exponent: nat) -> nat
    decreases exponent,
{
    if exponent == 0 {
        1
    } else {
        10 * power_of_ten((exponent - 1) as nat)
    }
}

/// `s` without the white space at its start.
pub open spec fn trimmed_start(s: Seq<char>) -> Seq<char>
    decreases s.len(),
{
    if s.len() > 0 && white_space(s[0]) {
        trimmed_start(s.skip(1))
    } else {
        s
    }
}

/// `s` without the white space at its end.
pub open spec fn trimmed_end(s: Seq<char>) -> Seq<char>
    decreases s.len(),
{
    if s.len() > 0 && white_space(s.last()) {
        trimmed_end(s.drop_last())
    } else {
        s
    }
}

/// `s` without the white space at either end.
pub open spec fn trimmed(s: Seq<char>) -> Seq<char> {
    trimmed_end(trimmed_start(s))
}

/// The parts of `s` between the occurrences of `separator`: one more than there are occurrences.
pub open spec fn split(s: Seq<char>, separator: char) -> Seq<Seq<char>>
    decreases s.len(),
{
    if s.len() == 0 {
        seq![s]
    } else {
        let parts = split(s.drop_last(), separator);
        if s.last() == separator {
            parts.push(Seq::empty())
        } else {
            parts.drop_last().push(parts.last().push(s.last()))
        }
    }
}

/// The parts one after the other, with `separator` between each two of them.
pub open spec fn join(parts: Seq<Seq<char>>, separator: Seq<char>) -> Seq<char>
    decreases parts.len(),
{
    if parts.len() == 0 {
        Seq::empty()
    } else if parts.len() == 1 {
        parts[0]
    } else {
        join(parts.drop_last(), separator) + separator + parts.last()
    }
}

/// `s` with `by` in the place of each `c`.
pub open spec fn replaced(s: Seq<char>, c: char, by: Seq<char>) -> Seq<char> {
    join(split(s, c), by)
}

/// `s` with ASCII capitals made small.
pub open spec fn lower(s: Seq<char>) -> Seq<char> {
    s.map_values(|c: char| lower_char(c))
}

/// Where `c` first stands in `s`; the length of `s` where it does not.
pub open spec fn first_index(s: Seq<char>, c: char) -> nat
    decreases s.len(),
{
    if s.len() == 0 || s[0] == c {
        0
    } else {
        1 + first_index(s.skip(1), c)
    }
}

/// The texts that a vector of strings holds.
pub open spec fn texts(list: Seq<String>) -> Seq<Seq<char>> {
    list.map_values(|s: String| s@)
}

pub open spec fn starts_with(s: Seq<char>, prefix: Seq<char>) -> bool {
    prefix.len() <= s.len() && s.take(prefix.len() as int) == prefix
}

pub open spec fn ends_with(s: Seq<char>, suffix: Seq<char>) -> bool {
    suffix.len() <= s.len() && s.skip(s.len() - suffix.len()) == suffix
}

// ---------------------------------------------------------------------------
// Executable counterparts
// ---------------------------------------------------------------------------

/// The characters of `text`.
pub fn to_chars(text: &str) -> (chars: Vec<char>)
    ensures
        chars@ == text@,
{
    let mut chars: Vec<char> = Vec::new();
    for c in it: text.chars()
        invariant
            chars@ == it.seq().take(it.index()),
            it.seq() == text@,
    {
        chars.push(c);
        assert(it.seq().take(it.index() + 1) == it.seq().take(it.index()).push(c));
    }
    assert(text@.take(text@.len() as int) == text@);
    chars
}

/// Whether two texts are the same.
pub fn same_text(a: &str, b: &str) -> (same: bool)
    ensures
        same == (a@ == b@),
{
    a.to_owned() == b.to_owned()
}

/// Whether a character is an ASCII decimal digit.
pub fn is_digit_char(c: char) -> (digit: bool)
    ensures
        digit == is_digit(c),
{
    c >= '0' && c <= '9'
}

/// Whether a character is white space.
pub fn is_white_space(c: char) -> (white: bool)
    ensures
        white == white_space(c),
{
    let code: u32 = c as u32;
    (code >= 0x9 && code <= 0xd) || code == 0x20 || code == 0x85 || code == 0xa0 || code == 0x1680
        || (code >= 0x2000 && code <= 0x200a) || code == 0x2028 || code == 0x2029 || code == 0x202f
        || code == 0x205f || code == 0x3000
}

/// An ASCII capital as its small letter, any other character as it is.
pub fn to_lower_char(c: char) -> (l: char)
    ensures
        l == lower_char(c),
{
    if c >= 'A' && c <= 'Z' {
        (c as u8 + 32) as char
    } else {
        c
    }
}

/// Whether `text` holds at least one digit and nothing else.
pub fn is_number_text(text: &str) -> (r: bool)
    ensures
        r == is_number(text@),
{
    let chars = to_chars(text);
    if chars.len() == 0 {
        return false;
    }
    let mut i: usize = 0;
    while i < chars.len()
        invariant
            i <= chars.len(),
            chars@ == text@,
            forall|k: int| 0 <= k < i ==> is_digit(#[trigger] chars@[k]),
        decreases chars.len() - i,
    {
        if !is_digit_char(chars[i]) {
            return false;
        }
        i += 1;
    }
    true
}

/// The value of a text of digits, where it does not exceed `limit`.
pub fn parse_number(text: &str, limit: u128) -> (r: Option<u128>)
    ensures
        r == (if is_number(text@) && number(text@) <= limit {
            Some(number(text@) as u128)
        } else {
            None::<u128>
        }),
{
    if !is_number_text(text) {
        return None;
    }
    let chars = to_chars(text);
    let mut value: u128 = 0;
    let mut i: usize = 0;
    while i < chars.len()
        invariant
            i <= chars.len(),
            chars@ == text@,
            all_digits(text@),
            value == number(text@.take(i as int)),
            value <= limit,
        decreases chars.len() - i,
    {
        let digit: u128 = chars[i] as u128 - '0' as u128;
        proof {
            assert(text@.take(i + 1).drop_last() == text@.take(i as int));
            assert(number(text@.take(i + 1)) == value * 10 + digit);
            lemma_number_of_prefix(text@, i + 1);
        }
        match value.checked_mul(10) {
            Some(shifted) => match shifted.checked_add(digit) {
                Some(next) if next <= limit => {
                    value = next;
                },
                _ => {
                    return None;
                },
            },
            None => {
                return None;
            },
        }
        i += 1;
    }
    assert(text@.take(text@.len() as int) == text@);
    Some(value)
}

/// A longer run of digits stands for a number that is at least as large.
pub proof fn lemma_number_of_prefix(s: Seq<char>, length: int)
    requires
        all_digits(s),
        0 <= length <= s.len(),
    ensures
        number(s.take(length)) <= number(s),
    decreases s.len() - length,
{
    if length == s.len() {
        assert(s.take(length) == s);
    } else {
        lemma_number_of_prefix(s, length + 1);
        assert(s.take(length + 1).drop_last() == s.take(length));
        assert(is_digit(s[length]));
    }
}

/// The value of the text of an unsigned integer, where it does not exceed `limit`.
pub fn parse_unsigned(text: &str, limit: u128) -> (r: Option<u128>)
    ensures
        r == (match unsigned_value(text@) {
            Some(value) if value <= limit => Some(value as u128),
            _ => None::<u128>,
        }),
{
    if text.unicode_len() > 0 && text.get_char(0) == '+' {
        let digits = text.substring_char(1, text.unicode_len());
        assert(digits@ == text@.skip(1));
        parse_number(digits, limit)
    } else {
        parse_number(text, limit)
    }
}

/// Ten to a small power.
pub fn ten_to_the(exponent: usize) -> (power: u64)
    requires
        exponent <= 18,
    ensures
        power == power_of_ten(exponent as nat),
{
    let mut power: u64 = 1;
    let mut i: usize = 0;
    while i < exponent
        invariant
            i <= exponent <= 18,
            power == power_of_ten(i as nat),
        decreases exponent - i,
    {
        proof {
            lemma_power_of_ten_monotonic((i + 1) as nat, 18);
            assert(power_of_ten(18) == 1_000_000_000_000_000_000) by {
                reveal_with_fuel(power_of_ten, 19);
            }
        }
        power = power * 10;
        i += 1;
    }
    power
}

/// A larger exponent gives a power that is at least as large, and none is zero.
pub proof fn lemma_power_of_ten_monotonic(small: nat, large: nat)
    requires
        small <= large,
    ensures
        0 < power_of_ten(small) <= power_of_ten(large),
    decreases large,
{
    if large == 0 {
    } else if small == large {
        lemma_power_of_ten_monotonic((small - 1) as nat, (large - 1) as nat);
    } else {
        lemma_power_of_ten_monotonic(small, (large - 1) as nat);
    }
}

fn digit_text(d: u128) -> (text: &'static str)
    requires
        d < 10,
    ensures
        text@ == seq![digit_char(d as nat)],
{
    proof {
        reveal_strlit("0");
        reveal_strlit("1");
        reveal_strlit("2");
        reveal_strlit("3");
        reveal_strlit("4");
        reveal_strlit("5");
        reveal_strlit("6");
        reveal_strlit("7");
        reveal_strlit("8");
        reveal_strlit("9");
    }
    match d {
        0 => "0",
        1 => "1",
        2 => "2",
        3 => "3",
        4 => "4",
        5 => "5",
        6 => "6",
        7 => "7",
        8 => "8",
        _ => "9",
    }
}

/// `n` in base ten.
pub fn decimal_text(n: u128) -> (text: String)
    ensures
        text@ == decimal(n as nat),
    decreases n,
{
    if n < 10 {
        digit_text(n).to_owned()
    } else {
        let mut text = decimal_text(n / 10);
        let ghost head = text@;
        text.append(digit_text(n % 10));
        assert(text@ == head.push(digit_char((n % 10) as nat)));
        text
    }
}

/// `n` in base ten with at least `width` digits.
pub fn padded_text(n: u128, width: usize) -> (text: String)
    ensures
        text@ == padded(n as nat, width as nat),
{
    let digits = decimal_text(n);
    let length = digits.as_str().unicode_len();
    let mut text = String::new();
    let mut i: usize = length;
    assert(text@ == zeros(0));
    while i < width
        invariant
            length <= i,
            i <= width || i == length,
            text@ == zeros((i - length) as nat),
        decreases width - i,
    {
        proof {
            reveal_strlit("0");
        }
        text.append("0");
        assert(text@ == zeros((i + 1 - length) as nat));
        i += 1;
    }
    text.append(digits.as_str());
    assert(text@ == padded(n as nat, width as nat));
    text
}

/// `text` without the white space at either end.
pub fn trim(text: &str) -> (r: &str)
    ensures
        r@ == trimmed(text@),
{
    let chars = to_chars(text);
    let length = chars.len();
    let mut start: usize = 0;
    assert(text@.skip(0) == text@);
    while start < length && is_white_space(chars[start])
        invariant
            start <= length == chars.len(),
            chars@ == text@,
            trimmed_start(text@) == trimmed_start(text@.skip(start as int)),
        decreases length - start,
    {
        assert(text@.skip(start as int).skip(1) == text@.skip(start + 1));
        start += 1;
    }
    let ghost rest = text@.skip(start as int);
    let mut end: usize = length;
    assert(rest == text@.subrange(start as int, end as int));
    while end > start && is_white_space(chars[end - 1])
        invariant
            start <= end <= length == chars.len(),
            chars@ == text@,
            trimmed_end(rest) == trimmed_end(text@.subrange(start as int, end as int)),
        decreases end,
    {
        assert(text@.subrange(start as int, end as int).drop_last() == text@.subrange(
            start as int,
            end - 1,
        ));
        end -= 1;
    }
    text.substring_char(start, end)
}

/// The parts of `text` between the occurrences of `separator`.
pub fn split_on(text: &str, separator: char) -> (parts: Vec<String>)
    ensures
        texts(parts@) == split(text@, separator),
        parts@.len() >= 1,
{
    let chars = to_chars(text);
    let mut parts: Vec<String> = Vec::new();
    let mut start: usize = 0;
    let mut i: usize = 0;
    assert(text@.take(0) == Seq::<char>::empty());
    assert(texts(parts@).push(text@.subrange(0, 0)) == split(text@.take(0), separator));
    while i < chars.len()
        invariant
            start <= i <= chars.len(),
            chars@ == text@,
            texts(parts@).push(text@.subrange(start as int, i as int)) == split(
                text@.take(i as int),
                separator,
            ),
        decreases chars.len() - i,
    {
        let ghost before = texts(parts@);
        let ghost piece = text@.subrange(start as int, i as int);
        assert(text@.take(i + 1).drop_last() == text@.take(i as int));
        assert(before.push(piece).drop_last() == before);
        if chars[i] == separator {
            parts.push(text.substring_char(start, i).to_owned());
            assert(texts(parts@) == before.push(piece));
            start = i + 1;
            assert(text@.subrange(start as int, i + 1) == Seq::<char>::empty());
        } else {
            assert(text@.subrange(start as int, i + 1) == piece.push(text@[i as int]));
        }
        i += 1;
    }
    let ghost before = texts(parts@);
    assert(text@.take(text@.len() as int) == text@);
    parts.push(text.substring_char(start, chars.len()).to_owned());
    assert(texts(parts@) == before.push(text@.subrange(start as int, text@.len() as int)));
    parts
}

/// The parts one after the other, with `separator` between each two of them.
pub fn join_texts(parts: &Vec<String>, separator: &str) -> (text: String)
    ensures
        text@ == join(texts(parts@), separator@),
{
    let mut text = String::new();
    let mut i: usize = 0;
    assert(texts(parts@).take(0) == Seq::<Seq<char>>::empty());
    while i < parts.len()
        invariant
            i <= parts.len(),
            text@ == join(texts(parts@).take(i as int), separator@),
        decreases parts.len() - i,
    {
        let ghost before = text@;
        assert(texts(parts@).take(i + 1).drop_last() == texts(parts@).take(i as int));
        assert(texts(parts@).take(i + 1).last() == parts@[i as int]@);
        if i > 0 {
            text.append(separator);
        }
        text.append(parts[i].as_str());
        if i == 0 {
            assert(text@ == parts@[0]@);
            assert(texts(parts@).take(1)[0] == parts@[0]@);
        }
        i += 1;
    }
    assert(texts(parts@).take(parts@.len() as int) == texts(parts@));
    text
}

/// `text` with `by` in the place of each `c`.
pub fn replace(text: &str, c: char, by: &str) -> (r: String)
    ensures
        r@ == replaced(text@, c, by@),
{
    let parts = split_on(text, c);
    join_texts(&parts, by)
}

/// Whether `c` occurs in `text`.
pub fn contains_char(text: &str, c: char) -> (r: bool)
    ensures
        r == text@.contains(c),
{
    let chars = to_chars(text);
    let mut i: usize = 0;
    while i < chars.len()
        invariant
            i <= chars.len(),
            chars@ == text@,
            forall|k: int| 0 <= k < i ==> text@[k] != c,
        decreases chars.len() - i,
    {
        if chars[i] == c {
            assert(text@[i as int] == c);
            return true;
        }
        i += 1;
    }
    false
}

/// Where `c` first stands in `text`, where it stands there at all.
pub fn find_char(text: &str, c: char) -> (r: Option<usize>)
    ensures
        r is Some == text@.contains(c),
        r matches Some(index) ==> index == first_index(text@, c) && index < text@.len(),
{
    let chars = to_chars(text);
    let mut i: usize = 0;
    assert(text@.skip(0) == text@);
    while i < chars.len()
        invariant
            i <= chars.len(),
            chars@ == text@,
            first_index(text@, c) == i + first_index(text@.skip(i as int), c),
            forall|k: int| 0 <= k < i ==> text@[k] != c,
        decreases chars.len() - i,
    {
        if chars[i] == c {
            assert(text@.skip(i as int)[0] == c);
            assert(text@[i as int] == c);
            return Some(i);
        }
        assert(text@.skip(i as int).skip(1) == text@.skip(i + 1));
        i += 1;
    }
    None
}

/// Whether `text`, its ASCII capitals made small, is `other`.
pub fn lower_is(text: &str, other: &str) -> (r: bool)
    ensures
        r == (lower(text@) == other@),
{
    let chars = to_chars(text);
    let wanted = to_chars(other);
    if chars.len() != wanted.len() {
        return false;
    }
    let mut i: usize = 0;
    while i < chars.len()
        invariant
            i <= chars.len() == wanted.len(),
            chars@ == text@,
            wanted@ == other@,
            forall|k: int| 0 <= k < i ==> lower_char(#[trigger] text@[k]) == other@[k],
        decreases chars.len() - i,
    {
        if to_lower_char(chars[i]) != wanted[i] {
            assert(lower(text@)[i as int] != other@[i as int]);
            return false;
        }
        i += 1;
    }
    assert(lower(text@) == other@);
    true
}

/// What follows `prefix` in `text`, where `text` starts with it.
pub fn strip_prefix<'a>(text: &'a str, prefix: &str) -> (r: Option<&'a str>)
    ensures
        r is Some == starts_with(text@, prefix@),
        r matches Some(rest) ==> rest@ == text@.skip(prefix@.len() as int),
{
    let length = text.unicode_len();
    let cut = prefix.unicode_len();
    if cut > length || !same_text(text.substring_char(0, cut), prefix) {
        return None;
    }
    Some(text.substring_char(cut, length))
}

/// What stands before `suffix` in `text`, where `text` ends with it.
pub fn strip_suffix<'a>(text: &'a str, suffix: &str) -> (r: Option<&'a str>)
    ensures
        r is Some == ends_with(text@, suffix@),
        r matches Some(rest) ==> rest@ == text@.take(text@.len() - suffix@.len()),
{
    let length = text.unicode_len();
    let cut = suffix.unicode_len();
    if cut > length || !same_text(text.substring_char(length - cut, length), suffix) {
        return None;
    }
    Some(text.substring_char(0, length - cut))
}

/// Digits stand for less than ten to the power of how many they are.
pub proof fn lemma_number_bound(s: Seq<char>)
    requires
        all_digits(s),
    ensures
        number(s) < power_of_ten(s.len()),
    decreases s.len(),
{
    if s.len() > 0 {
        lemma_number_bound(s.drop_last());
        assert(is_digit(s.last()));
    }
}

/// `n` in base ten is digits that stand for `n`.
pub proof fn lemma_decimal(n: nat)
    ensures
        is_number(decimal(n)),
        number(decimal(n)) == n,
    decreases n,
{
    if n < 10 {
        let digits = decimal(n);
        assert(digits.drop_last() == Seq::<char>::empty());
        assert(digits.last() == digit_char(n));
        reveal_with_fuel(number, 2);
    } else {
        lemma_decimal(n / 10);
        let head = decimal(n / 10);
        let digits = decimal(n);
        assert(digits.drop_last() == head);
        assert(digits.last() == digit_char(n % 10));
        assert forall|i: int| 0 <= i < digits.len() implies is_digit(#[trigger] digits[i]) by {
            if i < head.len() {
                assert(digits[i] == head[i]);
            }
        }
    }
}

/// Leading zeros do not count.
pub proof fn lemma_leading_zeros(count: nat, s: Seq<char>)
    requires
        all_digits(s),
    ensures
        all_digits(zeros(count) + s),
        number(zeros(count) + s) == number(s),
    decreases s.len(), count,
{
    let whole = zeros(count) + s;
    assert forall|i: int| 0 <= i < whole.len() implies is_digit(#[trigger] whole[i]) by {
        if i >= count {
            assert(whole[i] == s[i - count]);
        }
    }
    if s.len() > 0 {
        assert(whole.drop_last() == zeros(count) + s.drop_last());
        lemma_leading_zeros(count, s.drop_last());
    } else if count > 0 {
        assert(whole.drop_last() == zeros((count - 1) as nat) + s);
        assert(whole.last() == '0');
        lemma_leading_zeros((count - 1) as nat, s);
    } else {
        assert(whole == s);
    }
}

/// `n` with leading zeros is at least `width` digits that stand for `n`.
pub proof fn lemma_padded(n: nat, width: nat)
    ensures
        is_number(padded(n, width)),
        number(padded(n, width)) == n,
        padded(n, width).len() >= width,
{
    lemma_decimal(n);
    if decimal(n).len() < width {
        lemma_leading_zeros((width - decimal(n).len()) as nat, decimal(n));
    }
}

/// Only a digit occurs among digits.
pub proof fn lemma_only_digits(s: Seq<char>, c: char)
    requires
        all_digits(s),
        !is_digit(c),
    ensures
        !s.contains(c),
{
    assert forall|i: int| 0 <= i < s.len() implies s[i] != c by {
        assert(is_digit(s[i]));
    }
}

/// A number of at most `width` digits has exactly `width` with its leading zeros.
pub proof fn lemma_padded_length(n: nat, width: nat)
    requires
        width > 0,
        n < power_of_ten(width),
    ensures
        padded(n, width).len() == width,
{
    lemma_decimal_length(n, width);
}

proof fn lemma_decimal_length(n: nat, width: nat)
    requires
        width > 0,
        n < power_of_ten(width),
    ensures
        1 <= decimal(n).len() <= width,
    decreases width,
{
    if n >= 10 {
        assert(power_of_ten(0) == 1);
        assert(power_of_ten(1) == 10 * power_of_ten(0));
        lemma_decimal_length(n / 10, (width - 1) as nat);
    }
}

// ---------------------------------------------------------------------------
// Laws
// ---------------------------------------------------------------------------

/// There is always at least one part, and none of the parts holds the separator.
pub proof fn law_split_parts(s: Seq<char>, separator: char)
    ensures
        split(s, separator).len() >= 1,
        forall|i: int|
            0 <= i < split(s, separator).len() ==> !(#[trigger] split(s, separator)[i]).contains(
                separator,
            ),
    decreases s.len(),
{
    if s.len() > 0 {
        law_split_parts(s.drop_last(), separator);
        let parts = split(s.drop_last(), separator);
        if s.last() != separator {
            let last = parts.last().push(s.last());
            assert(!parts[parts.len() - 1].contains(separator));
            assert forall|k: int| 0 <= k < last.len() implies last[k] != separator by {
                if k < parts.last().len() {
                    assert(last[k] == parts.last()[k]);
                }
            }
        }
    }
}

/// Joining what was split gives the text back.
pub proof fn law_join_split(s: Seq<char>, separator: char)
    ensures
        join(split(s, separator), seq![separator]) == s,
    decreases s.len(),
{
    if s.len() > 0 {
        let head = s.drop_last();
        law_join_split(head, separator);
        law_split_parts(head, separator);
        let parts = split(head, separator);
        if s.last() == separator {
            assert(split(s, separator).drop_last() == parts);
            assert(s == head + seq![separator] + Seq::<char>::empty());
        } else {
            assert(split(s, separator).drop_last() == parts.drop_last());
            if parts.len() == 1 {
                assert(s == head.push(s.last()));
            } else {
                let front = join(parts.drop_last(), seq![separator]);
                assert(front + seq![separator] + parts.last().push(s.last()) == (front + seq![
                    separator,
                ] + parts.last()).push(s.last()));
                assert(s == head.push(s.last()));
            }
        }
    }
}

/// A text without the separator is its only part.
pub proof fn law_split_without_separator(s: Seq<char>, separator: char)
    requires
        !s.contains(separator),
    ensures
        split(s, separator) == seq![s],
    decreases s.len(),
{
    if s.len() > 0 {
        assert(s[s.len() - 1] == s.last());
        assert(s.last() != separator);
        let head = s.drop_last();
        assert(!head.contains(separator)) by {
            assert forall|k: int| 0 <= k < head.len() implies head[k] != separator by {
                assert(head[k] == s[k]);
            }
        }
        law_split_without_separator(head, separator);
        assert(seq![head].drop_last() == Seq::<Seq<char>>::empty());
        assert(head.push(s.last()) == s);
        assert(split(s, separator) == seq![s]);
    }
}

/// A part behind a separator is one part more.
pub proof fn law_split_one_more(s: Seq<char>, separator: char, part: Seq<char>)
    requires
        !part.contains(separator),
    ensures
        split(s.push(separator) + part, separator) == split(s, separator).push(part),
    decreases part.len(),
{
    let whole = s.push(separator) + part;
    if part.len() == 0 {
        assert(whole == s.push(separator));
        assert(whole.drop_last() == s);
        assert(part == Seq::<char>::empty());
    } else {
        let head = part.drop_last();
        assert(!head.contains(separator)) by {
            assert forall|k: int| 0 <= k < head.len() implies head[k] != separator by {
                assert(head[k] == part[k]);
            }
        }
        law_split_one_more(s, separator, head);
        assert(part[part.len() - 1] == part.last());
        assert(part.last() != separator);
        assert(whole.drop_last() == s.push(separator) + head);
        assert(whole.last() == part.last());
        let parts = split(s, separator).push(head);
        assert(parts.drop_last() == split(s, separator));
        assert(head.push(part.last()) == part);
    }
}

/// The parts of two texts with the separator between them are those of the one and of the other.
pub proof fn law_split_two(a: Seq<char>, separator: char, b: Seq<char>)
    ensures
        split(a.push(separator) + b, separator) == split(a, separator) + split(b, separator),
    decreases b.len(),
{
    let whole = a.push(separator) + b;
    let left = split(a, separator);
    if b.len() == 0 {
        assert(whole == a.push(separator));
        assert(whole.drop_last() == a);
        assert(b == Seq::<char>::empty());
        assert(left.push(b) == left + seq![b]);
    } else {
        let head = b.drop_last();
        law_split_two(a, separator, head);
        law_split_parts(head, separator);
        let right = split(head, separator);
        assert(whole.drop_last() == a.push(separator) + head);
        assert(whole.last() == b.last());
        if b.last() == separator {
            assert((left + right).push(Seq::empty()) == left + right.push(Seq::empty()));
        } else {
            assert((left + right).last() == right.last());
            assert((left + right).drop_last() == left + right.drop_last());
            let last = right.last().push(b.last());
            assert((left + right.drop_last()).push(last) == left + right.drop_last().push(last));
        }
    }
}

/// Trimming leaves no white space at either end.
pub proof fn law_trimmed_ends(s: Seq<char>)
    ensures
        trimmed(s).len() > 0 ==> !white_space(trimmed(s)[0]) && !white_space(trimmed(s).last()),
{
    lemma_trimmed_start(s);
    lemma_trimmed_end(trimmed_start(s));
}

proof fn lemma_trimmed_start(s: Seq<char>)
    ensures
        trimmed_start(s).len() > 0 ==> !white_space(trimmed_start(s)[0]),
    decreases s.len(),
{
    if s.len() > 0 && white_space(s[0]) {
        lemma_trimmed_start(s.skip(1));
    }
}

proof fn lemma_trimmed_end(s: Seq<char>)
    ensures
        trimmed_end(s).len() > 0 ==> !white_space(trimmed_end(s).last()) && trimmed_end(s)[0]
            == s[0],
    decreases s.len(),
{
    if s.len() > 0 && white_space(s.last()) {
        lemma_trimmed_end(s.drop_last());
    }
}

/// A text without white space at either end is left as it is.
pub proof fn law_trimmed_unchanged(s: Seq<char>)
    requires
        s.len() > 0 ==> !white_space(s[0]) && !white_space(s.last()),
    ensures
        trimmed(s) == s,
{
}

/// Trimming twice is trimming once.
pub proof fn law_trimmed_twice(s: Seq<char>)
    ensures
        trimmed(trimmed(s)) == trimmed(s),
{
    law_trimmed_ends(s);
    law_trimmed_unchanged(trimmed(s));
}

/// Different numbers have different texts, with or without leading zeros.
pub proof fn law_padded_apart(a: nat, b: nat, width: nat)
    requires
        padded(a, width) == padded(b, width),
    ensures
        a == b,
{
    lemma_padded(a, width);
    lemma_padded(b, width);
}

/// What trimming takes away is white space: some before, some behind, and nothing in between.
pub proof fn law_trimmed_takes_white_space(s: Seq<char>)
    ensures
        exists|start: int, end: int|
            0 <= start <= end <= s.len() && trimmed(s) == #[trigger] s.subrange(start, end) && (
            forall|i: int| 0 <= i < start ==> white_space(#[trigger] s[i])) && (forall|i: int|
                end <= i < s.len() ==> white_space(#[trigger] s[i])),
{
    lemma_trimmed_start_skips(s);
    let start = s.len() - trimmed_start(s).len();
    let rest = s.skip(start);
    lemma_trimmed_end_takes(rest);
    let end = start + trimmed_end(rest).len();
    assert(trimmed(s) == s.subrange(start, end));
    assert forall|i: int| end <= i < s.len() implies white_space(#[trigger] s[i]) by {
        assert(s[i] == rest[i - start]);
    }
}

proof fn lemma_trimmed_start_skips(s: Seq<char>)
    ensures
        trimmed_start(s).len() <= s.len(),
        trimmed_start(s) == s.skip(s.len() - trimmed_start(s).len()),
        forall|i: int|
            0 <= i < s.len() - trimmed_start(s).len() ==> white_space(#[trigger] s[i]),
    decreases s.len(),
{
    if s.len() > 0 && white_space(s[0]) {
        let tail = s.skip(1);
        lemma_trimmed_start_skips(tail);
        assert forall|i: int| 0 <= i < s.len() - trimmed_start(s).len() implies white_space(
            #[trigger] s[i],
        ) by {
            if i > 0 {
                assert(s[i] == tail[i - 1]);
            }
        }
    }
}

proof fn lemma_trimmed_end_takes(s: Seq<char>)
    ensures
        trimmed_end(s).len() <= s.len(),
        trimmed_end(s) == s.take(trimmed_end(s).len() as int),
        forall|i: int| trimmed_end(s).len() <= i < s.len() ==> white_space(#[trigger] s[i]),
    decreases s.len(),
{
    if s.len() > 0 && white_space(s.last()) {
        let head = s.drop_last();
        lemma_trimmed_end_takes(head);
        assert forall|i: int| trimmed_end(s).len() <= i < s.len() implies white_space(
            #[trigger] s[i],
        ) by {
            if i < head.len() {
                assert(s[i] == head[i]);
            }
        }
    }
}

/// Digits count by their place: the first of two runs of digits is worth a power of ten more for
/// each digit of the second.
pub proof fn law_number_of_two(a: Seq<char>, b: Seq<char>)
    requires
        all_digits(a),
        all_digits(b),
    ensures
        number(a + b) == number(a) * power_of_ten(b.len()) + number(b),
    decreases b.len(),
{
    let whole = a + b;
    if b.len() == 0 {
        assert(whole == a);
        assert(number(a) * 1 == number(a));
    } else {
        let head = b.drop_last();
        let power = power_of_ten(head.len());
        assert(whole.drop_last() == a + head);
        assert(whole.last() == b.last());
        law_number_of_two(a, head);
        assert(is_digit(b.last()));
        let x = number(a);
        assert((x * power) * 10 == x * (10 * power)) by (nonlinear_arith);
    }
}

/// A single digit is worth what it says.
pub proof fn law_number_of_digit(c: char)
    requires
        '0' <= c <= '9',
    ensures
        number(seq![c]) == c as int - '0' as int,
        number(Seq::empty()) == 0,
{
    reveal_with_fuel(number, 2);
    assert(seq![c].drop_last() == Seq::<char>::empty());
}

/// A number in base ten is digits that stand for it, without a zero in front unless it is the only
/// digit.
pub proof fn law_decimal(n: nat)
    ensures
        is_number(decimal(n)),
        number(decimal(n)) == n,
        decimal(n).len() > 1 ==> decimal(n)[0] != '0',
    decreases n,
{
    lemma_decimal(n);
    if n >= 10 {
        let head = decimal(n / 10);
        law_decimal(n / 10);
        assert(decimal(n)[0] == head[0]);
        if head.len() == 1 {
            law_number_of_digit(head[0]);
            assert(head == seq![head[0]]);
        }
    }
}

/// Filled up, a number has exactly the wanted width, or more where it needs more, and stands for
/// the same.
pub proof fn law_padded(n: nat, width: nat)
    ensures
        is_number(padded(n, width)),
        number(padded(n, width)) == n,
        padded(n, width).len() == (if decimal(n).len() < width {
            width
        } else {
            decimal(n).len()
        }),
{
    lemma_padded(n, width);
}

/// Replacing goes character by character.
pub proof fn law_replaced(s: Seq<char>, c: char, by: Seq<char>, next: char)
    ensures
        replaced(Seq::empty(), c, by) == Seq::<char>::empty(),
        next == c ==> replaced(s.push(next), c, by) == replaced(s, c, by) + by,
        next != c ==> replaced(s.push(next), c, by) == replaced(s, c, by).push(next),
{
    let more = s.push(next);
    let parts = split(s, c);
    law_split_parts(s, c);
    assert(more.drop_last() == s);
    if next == c {
        let all = parts.push(Seq::empty());
        assert(all.drop_last() == parts);
        assert(join(all, by) == join(parts, by) + by + Seq::<char>::empty());
    } else {
        let all = parts.drop_last().push(parts.last().push(next));
        assert(split(more, c) == all);
        assert(all.drop_last() == parts.drop_last());
        if parts.len() == 1 {
            assert(all == seq![parts[0].push(next)]);
        } else {
            let front = join(parts.drop_last(), by);
            assert(join(all, by) == front + by + parts.last().push(next));
            assert(front + by + parts.last().push(next) == (front + by + parts.last()).push(next));
        }
    }
}

/// Joined parts can be split again where none of them holds the separator.
pub proof fn law_split_joined(parts: Seq<Seq<char>>, separator: char)
    requires
        parts.len() > 0,
        forall|i: int| 0 <= i < parts.len() ==> !(#[trigger] parts[i]).contains(separator),
    ensures
        split(join(parts, seq![separator]), separator) == parts,
    decreases parts.len(),
{
    if parts.len() == 1 {
        assert(!parts[0].contains(separator));
        law_split_without_separator(parts[0], separator);
        assert(seq![parts[0]] == parts);
    } else {
        let front = parts.drop_last();
        let last = parts.last();
        assert(last == parts[parts.len() - 1]);
        assert forall|i: int| 0 <= i < front.len() implies !(#[trigger] front[i]).contains(
            separator,
        ) by {
            assert(front[i] == parts[i]);
        }
        law_split_joined(front, separator);
        let before = join(front, seq![separator]);
        law_split_one_more(before, separator, last);
        assert(before + seq![separator] + last == before.push(separator) + last);
        assert(front.push(last) == parts);
    }
}

/// The text of an unsigned integer is digits, or a plus sign and digits, and stands for the number
/// of the digits.
pub proof fn law_unsigned_value(s: Seq<char>, n: nat)
    ensures
        unsigned_value(s) == Some(n) <==> (is_number(s) && n == number(s)) || (s.len() > 0 && s[0]
            == '+' && is_number(s.skip(1)) && n == number(s.skip(1))),
{
    if s.len() > 0 && s[0] == '+' {
        assert(!is_digit(s[0]));
    }
}

/// Zeros behind digits multiply by ten.
pub proof fn law_trailing_zeros(s: Seq<char>, count: nat)
    requires
        all_digits(s),
    ensures
        all_digits(s + zeros(count)),
        number(s + zeros(count)) == number(s) * power_of_ten(count),
{
    let nothing = Seq::<char>::empty();
    lemma_leading_zeros(count, nothing);
    assert(zeros(count) + nothing == zeros(count));
    law_number_of_two(s, zeros(count));
    let whole = s + zeros(count);
    assert forall|i: int| 0 <= i < whole.len() implies is_digit(#[trigger] whole[i]) by {
        if i < s.len() {
            assert(whole[i] == s[i]);
        }
    }
}

/// The texts of a list are those of its strings, in their order.
pub proof fn law_texts(list: Seq<String>, i: int)
    requires
        0 <= i < list.len(),
    ensures
        texts(list).len() == list.len(),
        texts(list)[i] == list[i]@,
{
}

/// The characters that are white space: the controls from tab to carriage return and next line, and
/// the spaces, among them those that do not break, the line and paragraph separators and the
/// ideographic space.
pub proof fn law_white_space(c: char)
    ensures
        white_space(c) <==> {
            ||| '\u{9}' <= c <= '\u{d}'
            ||| '\u{2000}' <= c <= '\u{200a}'
            ||| c == ' ' || c == '\u{85}' || c == '\u{a0}' || c == '\u{1680}'
            ||| c == '\u{2028}' || c == '\u{2029}' || c == '\u{202f}' || c == '\u{205f}'
            ||| c == '\u{3000}'
        },
{
}

/// Capitals become small letters in the order of the alphabet; all else stays as it is.
pub proof fn law_lower_char(c: char)
    ensures
        'A' <= c <= 'Z' ==> 'a' <= lower_char(c) <= 'z' && lower_char(c) as int - 'a' as int
            == c as int - 'A' as int,
        !('A' <= c <= 'Z') ==> lower_char(c) == c,
{
}

} // verus!
