//! Target sizes of segments: parsing.

use std::str::FromStr;

use vstd::prelude::*;
use vstd::string::StrSliceExecFns;

use crate::error;
use crate::error::{AppError, Result};
use crate::text;
use crate::text::{
    is_digit_char, is_number_text, lower_is, parse_number, split_on, ten_to_the, to_chars, trim,
};
use crate::time;
use crate::time::parse_short_fraction;

verus! {

/// How many of the characters at the start of `value` are digits and points.
pub open spec fn numeral_length(value: Seq<char>) -> nat
    decreases value.len(),
{
    if value.len() > 0 && (text::is_digit(value[0]) || value[0] == '.') {
        1 + numeral_length(value.skip(1))
    } else {
        0
    }
}

/// The bytes in the unit that `unit` names, in capitals or small letters.
pub open spec fn unit_bytes(unit: Seq<char>) -> Option<nat> {
    let name = text::lower(unit);
    if name == "b"@ {
        Some(1)
    } else if name == "kb"@ {
        Some(1_000)
    } else if name == "mb"@ {
        Some(1_000_000)
    } else if name == "gb"@ {
        Some(1_000_000_000)
    } else if name == "kib"@ {
        Some(1_024)
    } else if name == "mib"@ {
        Some(1_048_576)
    } else if name == "gib"@ {
        Some(1_073_741_824)
    } else {
        None
    }
}

/// A decimal number of units of `multiplier` bytes; `original` is the whole text.
pub open spec fn decimal_bytes(
    number: Seq<char>,
    multiplier: nat,
    original: Seq<char>,
) -> std::result::Result<nat, Seq<char>> {
    let parts = text::split(number, '.');
    if parts.len() > 2 || !text::is_number(parts[0]) {
        Err("目标大小 `"@ + original + "` 格式无效"@)
    } else if text::number(parts[0]) > u64::MAX {
        Err("目标大小 `"@ + original + "` 过大"@)
    } else if parts.len() == 2 && !time::is_short_fraction(parts[1]) {
        Err("目标大小 `"@ + original + "` 最多支持 3 位小数"@)
    } else {
        let whole = text::number(parts[0]) * multiplier;
        let scaled = if parts.len() == 2 {
            text::number(parts[1]) * multiplier
        } else {
            0
        };
        let fraction = if parts.len() == 2 {
            scaled / text::power_of_ten(parts[1].len())
        } else {
            0
        };
        if scaled > u64::MAX || whole + fraction > u64::MAX {
            Err("目标大小 `"@ + original + "` 过大"@)
        } else {
            Ok(whole + fraction)
        }
    }
}

/// The size that `text` names, in bytes: always more than zero.
pub open spec fn size_of(input: Seq<char>) -> std::result::Result<nat, Seq<char>> {
    let value = text::trimmed(input);
    let length = numeral_length(value) as int;
    if value.len() == 0 {
        Err("目标分片大小不能为空"@)
    } else {
        match unit_bytes(value.skip(length)) {
            None => Err(
                "无效大小单位 `"@ + value.skip(length)
                    + "`；支持 B、KB、MB、GB、KiB、MiB、GiB"@,
            ),
            Some(multiplier) => match decimal_bytes(value.take(length), multiplier, value) {
                Err(message) => Err(message),
                Ok(bytes) => if bytes == 0 {
                    Err("目标分片大小必须大于 0 字节"@)
                } else {
                    Ok(bytes)
                },
            },
        }
    }
}

fn measure_numeral(value: &str) -> (length: usize)
    ensures
        length == numeral_length(value@),
        length <= value@.len(),
{
    let chars = to_chars(value);
    let mut length: usize = 0;
    assert(value@.skip(0) == value@);
    while length < chars.len() && (is_digit_char(chars[length]) || chars[length] == '.')
        invariant
            length <= chars.len(),
            chars@ == value@,
            numeral_length(value@) == length + numeral_length(value@.skip(length as int)),
        decreases chars.len() - length,
    {
        assert(value@.skip(length as int).skip(1) == value@.skip(length + 1));
        length += 1;
    }
    length
}

fn parse_unit(unit: &str) -> (r: Option<u64>)
    ensures
        r == (match unit_bytes(unit@) {
            Some(bytes) => Some(bytes as u64),
            None => None::<u64>,
        }),
        unit_bytes(unit@) matches Some(bytes) ==> bytes <= u64::MAX,
{
    if lower_is(unit, "b") {
        Some(1)
    } else if lower_is(unit, "kb") {
        Some(1_000)
    } else if lower_is(unit, "mb") {
        Some(1_000_000)
    } else if lower_is(unit, "gb") {
        Some(1_000_000_000)
    } else if lower_is(unit, "kib") {
        Some(1_024)
    } else if lower_is(unit, "mib") {
        Some(1_048_576)
    } else if lower_is(unit, "gib") {
        Some(1_073_741_824)
    } else {
        None
    }
}

/// A decimal number of units of `multiplier` bytes; `original` is the whole text.
pub fn parse_decimal_bytes(number: &str, multiplier: u64, original: &str) -> (r: Result<u64>)
    ensures
        error::seen_number(r) == decimal_bytes(number@, multiplier as nat, original@),
{
    let parts = split_on(number, '.');
    let ghost pieces = text::texts(parts@);
    assert(pieces[0] == parts@[0]@);
    if parts.len() > 2 || !is_number_text(parts[0].as_str()) {
        return Err(AppError::about("目标大小 `", original, "` 格式无效"));
    }
    let whole: u64 = match parse_number(parts[0].as_str(), u64::MAX as u128) {
        Some(whole) => whole as u64,
        None => {
            return Err(AppError::about("目标大小 `", original, "` 过大"));
        },
    };
    let mut fraction: u64 = 0;
    if parts.len() == 2 {
        assert(pieces[1] == parts@[1]@);
        let digits = parts[1].as_str();
        match parse_short_fraction(digits) {
            Some(value) => {
                let divisor = ten_to_the(digits.unicode_len());
                proof {
                    text::lemma_power_of_ten_monotonic(0, digits@.len());
                }
                match value.checked_mul(multiplier) {
                    Some(scaled) => {
                        fraction = scaled / divisor;
                    },
                    None => {
                        return Err(AppError::about("目标大小 `", original, "` 过大"));
                    },
                }
            },
            None => {
                return Err(AppError::about("目标大小 `", original, "` 最多支持 3 位小数"));
            },
        }
    }
    match whole.checked_mul(multiplier) {
        Some(bytes) => match bytes.checked_add(fraction) {
            Some(total) => Ok(total),
            None => Err(AppError::about("目标大小 `", original, "` 过大")),
        },
        None => Err(AppError::about("目标大小 `", original, "` 过大")),
    }
}

/// The size that a segment should have.
#[derive(Clone, Copy, Debug, Eq, PartialEq)]
pub struct TargetSize {
    bytes: u64,
}

impl View for TargetSize {
    type V = nat;

    /// The size in bytes.
    closed spec fn view(&self) -> nat {
        self.bytes as nat
    }
}

impl TargetSize {
    /// A segment is not empty.
    #[verifier::type_invariant]
    spec fn not_empty(self) -> bool {
        self.bytes > 0
    }

    /// The size in bytes.
    pub fn bytes(self) -> (r: u64)
        ensures
            r == self@,
            0 < r,
    {
        proof {
            use_type_invariant(self);
        }
        self.bytes
    }

    /// The size that a text names.
    pub fn from_str(value: &str) -> (r: Result<TargetSize>)
        ensures
            error::seen(r) == size_of(value@),
    {
        let value = trim(value);
        if value.is_empty() {
            return Err(AppError::new("目标分片大小不能为空"));
        }
        let length = measure_numeral(value);
        let number = value.substring_char(0, length);
        let unit = value.substring_char(length, value.unicode_len());
        assert(number@ == value@.take(length as int));
        assert(unit@ == value@.skip(length as int));
        let multiplier: u64 = match parse_unit(unit) {
            Some(multiplier) => multiplier,
            None => {
                return Err(
                    AppError::about(
                        "无效大小单位 `",
                        unit,
                        "`；支持 B、KB、MB、GB、KiB、MiB、GiB",
                    ),
                );
            },
        };
        match parse_decimal_bytes(number, multiplier, value) {
            Ok(bytes) => if bytes == 0 {
                Err(AppError::new("目标分片大小必须大于 0 字节"))
            } else {
                Ok(TargetSize { bytes })
            },
            Err(error) => Err(error),
        }
    }
}

impl FromStr for TargetSize {
    type Err = AppError;

    fn from_str(value: &str) -> (r: std::result::Result<TargetSize, AppError>)
        ensures
            error::seen(r) == size_of(value@),
    {
        TargetSize::from_str(value)
    }
}

// ---------------------------------------------------------------------------
// Laws
// ---------------------------------------------------------------------------

/// Every size that a text can name is more than nothing, and fits in 64 bits.
pub proof fn law_size_range(input: Seq<char>)
    ensures
        size_of(input) matches Ok(bytes) ==> 0 < bytes <= u64::MAX,
{
}

/// White space around a size does not count.
pub proof fn law_size_surrounding_space(input: Seq<char>)
    ensures
        size_of(input) == size_of(text::trimmed(input)),
{
    text::law_trimmed_twice(input);
}

/// The name of a unit starts and ends with a letter.
proof fn lemma_unit_letters(unit: Seq<char>)
    requires
        unit_bytes(unit) is Some,
    ensures
        unit.len() > 0,
        !text::is_digit(unit[0]),
        unit[0] != '.',
        !text::white_space(unit.last()),
{
    let name = text::lower(unit);
    reveal_strlit("b");
    reveal_strlit("kb");
    reveal_strlit("mb");
    reveal_strlit("gb");
    reveal_strlit("kib");
    reveal_strlit("mib");
    reveal_strlit("gib");
    assert(name.len() == unit.len());
    assert(name[0] == text::lower_char(unit[0]));
    assert(name.last() == 'b');
    assert(name.last() == text::lower_char(unit.last()));
}

/// Digits before something else are what is counted.
proof fn lemma_numeral_length(digits: Seq<char>, rest: Seq<char>)
    requires
        text::all_digits(digits),
        rest.len() > 0 ==> !text::is_digit(rest[0]) && rest[0] != '.',
    ensures
        numeral_length(digits + rest) == digits.len(),
    decreases digits.len(),
{
    let value = digits + rest;
    if digits.len() == 0 {
        assert(value == rest);
    } else {
        assert(value[0] == digits[0]);
        assert(text::is_digit(digits[0]));
        let tail = digits.skip(1);
        assert forall|i: int| 0 <= i < tail.len() implies text::is_digit(#[trigger] tail[i]) by {
            assert(tail[i] == digits[i + 1]);
        }
        assert(value.skip(1) == tail + rest);
        lemma_numeral_length(tail, rest);
    }
}

/// A whole number with the name of a unit behind it is that many of the unit.
pub proof fn law_size_of_units(count: nat, unit: Seq<char>, bytes: nat)
    requires
        unit_bytes(unit) == Some(bytes),
        0 < count * bytes <= u64::MAX,
    ensures
        size_of(text::decimal(count) + unit) == Ok::<nat, Seq<char>>(count * bytes),
{
    let digits = text::decimal(count);
    let value = digits + unit;
    text::lemma_decimal(count);
    lemma_unit_letters(unit);
    assert(text::is_digit(digits[0]));
    assert(value[0] == digits[0]);
    assert(value.last() == unit.last());
    text::law_trimmed_unchanged(value);
    lemma_numeral_length(digits, unit);
    assert(value.take(digits.len() as int) == digits);
    assert(value.skip(digits.len() as int) == unit);
    text::lemma_only_digits(digits, '.');
    text::law_split_without_separator(digits, '.');
    assert(count <= count * bytes) by (nonlinear_arith)
        requires
            bytes >= 1,
            count >= 0,
    ;
}

/// A unit may be written in capitals and in small letters.
pub proof fn law_unit_case(unit: Seq<char>)
    ensures
        unit_bytes(unit) == unit_bytes(text::lower(unit)),
{
    let once = text::lower(unit);
    let twice = text::lower(once);
    assert forall|i: int| 0 <= i < unit.len() implies twice[i] == once[i] by {
        assert(twice[i] == text::lower_char(text::lower_char(unit[i])));
    }
    assert(twice == once);
}

/// The bytes in each unit, however its letters are written.
pub open spec fn has_bytes(unit: Seq<char>, bytes: nat) -> bool {
    let name = text::lower(unit);
    ||| name == "b"@ && bytes == 1
    ||| name == "kb"@ && bytes == 1_000
    ||| name == "mb"@ && bytes == 1_000 * 1_000
    ||| name == "gb"@ && bytes == 1_000 * 1_000 * 1_000
    ||| name == "kib"@ && bytes == 1_024
    ||| name == "mib"@ && bytes == 1_024 * 1_024
    ||| name == "gib"@ && bytes == 1_024 * 1_024 * 1_024
}

proof fn lemma_has_bytes(unit: Seq<char>, bytes: nat)
    ensures
        has_bytes(unit, bytes) <==> unit_bytes(unit) == Some(bytes),
{
    reveal_strlit("b");
    reveal_strlit("kb");
    reveal_strlit("mb");
    reveal_strlit("gb");
    reveal_strlit("kib");
    reveal_strlit("mib");
    reveal_strlit("gib");
    assert("b"@.len() == 1 && "kb"@.len() == 2 && "mb"@.len() == 2 && "gb"@.len() == 2
        && "kib"@.len() == 3 && "mib"@.len() == 3 && "gib"@.len() == 3);
    assert("kb"@[0] == 'k' && "mb"@[0] == 'm' && "gb"@[0] == 'g' && "kib"@[0] == 'k' && "mib"@[0]
        == 'm' && "gib"@[0] == 'g');
}

/// Digits and points before something else are what is counted.
proof fn lemma_numeral_of_form(number: Seq<char>, rest: Seq<char>)
    requires
        forall|i: int|
            0 <= i < number.len() ==> text::is_digit(#[trigger] number[i]) || number[i] == '.',
        rest.len() > 0 ==> !text::is_digit(rest[0]) && rest[0] != '.',
    ensures
        numeral_length(number + rest) == number.len(),
    decreases number.len(),
{
    let value = number + rest;
    if number.len() == 0 {
        assert(value == rest);
    } else {
        assert(value[0] == number[0]);
        let tail = number.skip(1);
        assert forall|i: int| 0 <= i < tail.len() implies text::is_digit(#[trigger] tail[i])
            || tail[i] == '.' by {
            assert(tail[i] == number[i + 1]);
        }
        assert(value.skip(1) == tail + rest);
        lemma_numeral_of_form(tail, rest);
    }
}

/// A decimal number and the name of a unit: that many units, without what is less than a byte.
pub proof fn law_size_with_unit(
    whole: Seq<char>,
    fraction: Option<Seq<char>>,
    unit: Seq<char>,
    unit_size: nat,
    bytes: nat,
)
    requires
        time::is_decimal_form(whole, fraction),
        has_bytes(unit, unit_size),
        time::is_share(bytes, whole, fraction, unit_size),
    ensures
        time::is_read_as(size_of(time::decimal_form(whole, fraction) + unit), bytes),
{
    let number = time::decimal_form(whole, fraction);
    let value = number + unit;
    lemma_has_bytes(unit, unit_size);
    lemma_unit_letters(unit);
    time::lemma_decimal_form(whole, fraction);
    assert forall|i: int| 0 <= i < number.len() implies text::is_digit(#[trigger] number[i])
        || number[i] == '.' by {
        if i < whole.len() {
            assert(number[i] == whole[i]);
        } else if i > whole.len() {
            assert(number[i] == time::decimals(fraction)[i - whole.len() - 1]);
        }
    }
    assert(value[0] == number[0]);
    assert(value.last() == unit.last());
    text::law_trimmed_unchanged(value);
    lemma_numeral_of_form(number, unit);
    assert(value.take(number.len() as int) == number);
    assert(value.skip(number.len() as int) == unit);
    let result = text::number(whole) * unit_size + (match fraction {
        Some(digits) => text::number(digits) * unit_size / text::power_of_ten(digits.len()),
        None => 0,
    });
    time::lemma_share(whole, fraction, unit_size, result);
    time::law_share_is_one(bytes, result, whole, fraction, unit_size);
    assert(text::number(whole) <= text::number(whole) * unit_size) by (nonlinear_arith)
        requires
            unit_size >= 1,
            text::number(whole) >= 0,
    ;
    match fraction {
        Some(digits) => {
            time::lemma_short_fraction(digits);
            assert(text::number(digits) * unit_size <= 999 * 1_073_741_824) by (nonlinear_arith)
                requires
                    text::number(digits) <= 999,
                    unit_size <= 1_073_741_824,
            ;
            text::lemma_power_of_ten_monotonic(0, digits.len());
            assert((text::number(digits) * unit_size) / text::power_of_ten(digits.len()) >= 0);
        },
        None => {},
    }
}

/// Nothing else is a size: a text that names one is, but for white space around it, a decimal
/// number and the name of a unit.
pub proof fn law_only_sizes(input: Seq<char>)
    requires
        size_of(input) is Ok,
    ensures
        exists|number: Seq<char>, unit: Seq<char>|
            text::trimmed(input) == #[trigger] (number + unit) && time::is_decimal_text(number) && (
            exists|bytes: nat| #[trigger] has_bytes(unit, bytes)),
{
    let value = text::trimmed(input);
    let length = numeral_length(value) as int;
    lemma_numeral_bound(value);
    let number = value.take(length);
    let unit = value.skip(length);
    assert(value == number + unit);
    lemma_has_bytes(unit, unit_bytes(unit)->0);
    text::law_split_parts(number, '.');
    time::lemma_only_decimal_text(number);
}

proof fn lemma_numeral_bound(value: Seq<char>)
    ensures
        numeral_length(value) <= value.len(),
    decreases value.len(),
{
    if value.len() > 0 && (text::is_digit(value[0]) || value[0] == '.') {
        lemma_numeral_bound(value.skip(1));
    }
}

/// What is told of a text that names no size because it is empty or names no unit.
pub proof fn law_size_refusals(number: Seq<char>, unit: Seq<char>)
    requires
        forall|i: int|
            0 <= i < number.len() ==> text::is_digit(#[trigger] number[i]) || number[i] == '.',
        unit.len() > 0 ==> !text::is_digit(unit[0]) && unit[0] != '.' && !text::white_space(
            unit.last(),
        ),
        number.len() == 0 && unit.len() > 0 ==> !text::white_space(unit[0]),
        forall|bytes: nat| !#[trigger] has_bytes(unit, bytes),
    ensures
        number.len() + unit.len() == 0 ==> size_of(number + unit) == Err::<nat, Seq<char>>(
            "目标分片大小不能为空"@,
        ),
        number.len() + unit.len() > 0 ==> size_of(number + unit) == Err::<nat, Seq<char>>(
            "无效大小单位 `"@ + unit + "`；支持 B、KB、MB、GB、KiB、MiB、GiB"@,
        ),
{
    let value = number + unit;
    if value.len() > 0 {
        if number.len() > 0 {
            assert(value[0] == number[0]);
        } else {
            assert(value[0] == unit[0]);
        }
        if unit.len() > 0 {
            assert(value.last() == unit.last());
        } else {
            assert(value.last() == number[number.len() - 1]);
        }
    }
    text::law_trimmed_unchanged(value);
    lemma_numeral_of_form(number, unit);
    assert(value.skip(number.len() as int) == unit);
    lemma_has_bytes(unit, unit_bytes(unit)->0);
}

/// A decimal number of units of any size comes to its share of bytes, where 64 bits hold all that
/// is computed.
pub proof fn law_decimal_bytes(
    whole: Seq<char>,
    fraction: Option<Seq<char>>,
    unit: nat,
    original: Seq<char>,
    bytes: nat,
)
    requires
        time::is_decimal_form(whole, fraction),
        time::is_share(bytes, whole, fraction, unit),
    ensures
        ({
            let read = decimal_bytes(time::decimal_form(whole, fraction), unit, original);
            let fits = text::number(whole) <= 0xffff_ffff_ffff_ffff && bytes
                <= 0xffff_ffff_ffff_ffff && text::number(time::decimals(fraction)) * unit
                <= 0xffff_ffff_ffff_ffff;
            &&& fits ==> read == Ok::<nat, Seq<char>>(bytes)
            &&& !fits ==> read == Err::<nat, Seq<char>>("目标大小 `"@ + original + "` 过大"@)
        }),
{
    time::lemma_decimal_form(whole, fraction);
    let result = text::number(whole) * unit + (match fraction {
        Some(digits) => text::number(digits) * unit / text::power_of_ten(digits.len()),
        None => 0,
    });
    time::lemma_share(whole, fraction, unit, result);
    time::law_share_is_one(bytes, result, whole, fraction, unit);
    if fraction is None {
        assert(text::number(time::decimals(fraction)) == 0);
        assert(0 * unit == 0);
    }
}

/// What is told of a number of bytes: of more points than one or no whole number, of a whole number
/// that 64 bits do not hold, of its decimals.
pub proof fn law_bytes_refusals(number: Seq<char>, unit: nat, original: Seq<char>)
    ensures
        ({
            let parts = text::split(number, '.');
            let read = decimal_bytes(number, unit, original);
            &&& parts.len() > 2 || !text::is_number(parts[0]) ==> read == Err::<nat, Seq<char>>(
                "目标大小 `"@ + original + "` 格式无效"@,
            )
            &&& parts.len() <= 2 && text::is_number(parts[0]) && text::number(parts[0])
                > 0xffff_ffff_ffff_ffff ==> read == Err::<nat, Seq<char>>(
                "目标大小 `"@ + original + "` 过大"@,
            )
            &&& parts.len() == 2 && text::is_number(parts[0]) && text::number(parts[0])
                <= 0xffff_ffff_ffff_ffff && !time::is_fraction(parts[1]) ==> read == Err::<
                nat,
                Seq<char>,
            >("目标大小 `"@ + original + "` 最多支持 3 位小数"@)
        }),
{
    let parts = text::split(number, '.');
    text::law_split_parts(number, '.');
    if parts.len() == 2 && time::is_short_fraction(parts[1]) {
        assert forall|i: int| 0 <= i < parts[1].len() implies '0' <= #[trigger] parts[1][i]
            <= '9' by {
            assert(text::is_digit(parts[1][i]));
        }
    }
}

} // verus!
