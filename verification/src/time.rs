//! Points in time and durations: parsing and formatting.

use std::str::FromStr;

use vstd::prelude::*;
use vstd::string::StrSliceExecFns;
use vstd::string::StringExecFns;

use crate::error;
use crate::error::{AppError, Result};
use crate::text;
use crate::text::{
    decimal_text, is_number_text, padded_text, parse_number, split_on, ten_to_the, to_lower_char,
    trim,
};

verus! {

// ---------------------------------------------------------------------------
// What the texts stand for
// ---------------------------------------------------------------------------

/// The value of an integer field, or why it has none; `label` says what the field is.
pub open spec fn integer_field(
    value: Seq<char>,
    label: Seq<char>,
) -> std::result::Result<nat, Seq<char>> {
    if !text::is_number(value) {
        Err(label + " `"@ + value + "` 不是有效整数"@)
    } else if text::number(value) > u64::MAX {
        Err(label + " `"@ + value + "` 过大"@)
    } else {
        Ok(text::number(value))
    }
}

/// One to three digits behind a decimal point.
pub open spec fn is_short_fraction(digits: Seq<char>) -> bool {
    1 <= digits.len() <= 3 && text::all_digits(digits)
}

/// Seconds with up to three decimals, in milliseconds.
pub open spec fn seconds_field(
    value: Seq<char>,
    must_be_below_sixty: bool,
) -> std::result::Result<nat, Seq<char>> {
    let parts = text::split(value, '.');
    if parts.len() > 2 {
        Err("秒数 `"@ + value + "` 格式无效"@)
    } else {
        match integer_field(parts[0], "秒"@) {
            Err(message) => Err(message),
            Ok(whole) => if must_be_below_sixty && whole >= 60 {
                Err("秒数 `"@ + value + "` 必须小于 60"@)
            } else if parts.len() == 2 && !is_short_fraction(parts[1]) {
                Err("秒数 `"@ + value + "` 最多支持 3 位小数"@)
            } else {
                let thousandths = if parts.len() == 2 {
                    text::number(parts[1]) * text::power_of_ten((3 - parts[1].len()) as nat)
                } else {
                    0
                };
                if whole * 1_000 + thousandths > u64::MAX {
                    Err("秒数 `"@ + value + "` 过大"@)
                } else {
                    Ok(whole * 1_000 + thousandths)
                }
            },
        }
    }
}

/// The milliseconds of `value` units of `multiplier` milliseconds and `tail` more.
pub open spec fn millis_of(
    value: nat,
    multiplier: nat,
    tail: nat,
) -> std::result::Result<nat, Seq<char>> {
    if value * multiplier + tail > u64::MAX {
        Err("时间点过大"@)
    } else {
        Ok(value * multiplier + tail)
    }
}

/// `MM:SS`, in milliseconds.
pub open spec fn minutes_and_seconds(
    minutes: Seq<char>,
    seconds: Seq<char>,
) -> std::result::Result<nat, Seq<char>> {
    match integer_field(minutes, "分钟"@) {
        Err(message) => Err(message),
        Ok(minutes) => match seconds_field(seconds, true) {
            Err(message) => Err(message),
            Ok(tail) => millis_of(minutes, 60_000, tail),
        },
    }
}

/// `HH:MM:SS`, in milliseconds; `value` is the whole text.
pub open spec fn hours_minutes_and_seconds(
    hours: Seq<char>,
    minutes: Seq<char>,
    seconds: Seq<char>,
    value: Seq<char>,
) -> std::result::Result<nat, Seq<char>> {
    match integer_field(hours, "小时"@) {
        Err(message) => Err(message),
        Ok(hours) => match integer_field(minutes, "分钟"@) {
            Err(message) => Err(message),
            Ok(minutes) => if minutes >= 60 {
                Err("时间点 `"@ + value + "` 中的分钟必须小于 60"@)
            } else if hours * 3_600_000 > u64::MAX {
                Err("时间点 `"@ + value + "` 过大"@)
            } else {
                match seconds_field(seconds, true) {
                    Err(message) => Err(message),
                    Ok(tail) => if hours * 3_600_000 + minutes * 60_000 + tail > u64::MAX {
                        Err("时间点 `"@ + value + "` 过大"@)
                    } else {
                        Ok(hours * 3_600_000 + minutes * 60_000 + tail)
                    },
                }
            },
        },
    }
}

/// `SS`, `MM:SS` or `HH:MM:SS`, in milliseconds.
pub open spec fn clock_fields(value: Seq<char>) -> std::result::Result<nat, Seq<char>> {
    let fields = text::split(value, ':');
    if fields.len() == 1 {
        seconds_field(fields[0], false)
    } else if fields.len() == 2 {
        minutes_and_seconds(fields[0], fields[1])
    } else if fields.len() == 3 {
        hours_minutes_and_seconds(fields[0], fields[1], fields[2], value)
    } else {
        Err("无效时间点 `"@ + value + "`，请使用 SS、MM:SS 或 HH:MM:SS"@)
    }
}

/// The point in time that `text` names, in milliseconds: always more than zero.
pub open spec fn timestamp_of(text: Seq<char>) -> std::result::Result<nat, Seq<char>> {
    let value = text::trimmed(text);
    if value.len() == 0 {
        Err("时间点不能为空"@)
    } else {
        match clock_fields(value) {
            Err(message) => Err(message),
            Ok(millis) => if millis == 0 {
                Err("拆分时间点必须大于 0"@)
            } else {
                Ok(millis)
            },
        }
    }
}

/// A decimal number of units of `multiplier` milliseconds; `original` is the whole text.
pub open spec fn scaled_duration(
    number_text: Seq<char>,
    multiplier: nat,
    original: Seq<char>,
) -> std::result::Result<nat, Seq<char>> {
    let parts = text::split(number_text, '.');
    if parts.len() > 2 {
        Err("分段时长 `"@ + original + "` 格式无效"@)
    } else {
        match integer_field(parts[0], "时长"@) {
            Err(message) => Err(message),
            Ok(whole) => if parts.len() == 2 && !is_short_fraction(parts[1]) {
                Err("分段时长 `"@ + original + "` 最多支持 3 位小数"@)
            } else {
                let scaled = if parts.len() == 2 {
                    text::number(parts[1]) * multiplier
                } else {
                    0
                };
                let fraction = if parts.len() == 2 {
                    scaled / text::power_of_ten(parts[1].len())
                } else {
                    0
                };
                if scaled > u64::MAX || whole * multiplier + fraction > u64::MAX {
                    Err("分段时长 `"@ + original + "` 过大"@)
                } else {
                    Ok(whole * multiplier + fraction)
                }
            },
        }
    }
}

/// The milliseconds in the unit that a letter stands for, a capital as its small letter.
pub open spec fn unit_millis(letter: char) -> Option<nat> {
    let unit = text::lower_char(letter);
    if unit == 's' {
        Some(1_000)
    } else if unit == 'm' {
        Some(60_000)
    } else if unit == 'h' {
        Some(3_600_000)
    } else {
        None
    }
}

/// The duration that `text` names, in milliseconds: always more than zero.
pub open spec fn duration_of(text: Seq<char>) -> std::result::Result<nat, Seq<char>> {
    let value = text::trimmed(text);
    if value.len() == 0 {
        Err("分段时长不能为空"@)
    } else {
        match unit_millis(value.last()) {
            Some(multiplier) => match scaled_duration(value.drop_last(), multiplier, value) {
                Err(message) => Err(message),
                Ok(millis) => if millis == 0 {
                    Err("分段时长必须大于 0"@)
                } else {
                    Ok(millis)
                },
            },
            None => match timestamp_of(value) {
                Err(_) => Err(
                    "无效分段时长 `"@ + value + "`；请使用 9m、540s、1h 或 00:09:00"@,
                ),
                Ok(millis) => Ok(millis),
            },
        }
    }
}

/// Milliseconds as seconds with three decimals.
pub open spec fn ffmpeg_seconds(millis: nat) -> Seq<char> {
    text::decimal(millis / 1_000) + "."@ + text::padded(millis % 1_000, 3)
}

/// Milliseconds as `HH:MM:SS.mmm`, with more digits for the hours where they need them.
pub open spec fn clock_text(millis: nat) -> Seq<char> {
    text::padded(millis / 3_600_000, 2) + ":"@ + text::padded(millis / 60_000 % 60, 2) + ":"@
        + text::padded(millis / 1_000 % 60, 2) + "."@ + text::padded(millis % 1_000, 3)
}

// ---------------------------------------------------------------------------
// Fields
// ---------------------------------------------------------------------------

/// The value of an integer field; `label` says what the field is.
pub fn parse_integer(value: &str, label: &str) -> (r: Result<u64>)
    ensures
        error::seen_number(r) == integer_field(value@, label@),
{
    if !is_number_text(value) {
        let mut before = label.to_owned();
        before.append(" `");
        return Err(AppError::about(before.as_str(), value, "` 不是有效整数"));
    }
    match parse_number(value, u64::MAX as u128) {
        Some(parsed) => Ok(parsed as u64),
        None => {
            let mut before = label.to_owned();
            before.append(" `");
            Err(AppError::about(before.as_str(), value, "` 过大"))
        },
    }
}

/// The value of the digits behind a decimal point, where there are one to three of them.
pub(crate) fn parse_short_fraction(text: &str) -> (r: Option<u64>)
    ensures
        r == (if is_short_fraction(text@) {
            Some(text::number(text@) as u64)
        } else {
            None::<u64>
        }),
        is_short_fraction(text@) ==> text::number(text@) <= 999,
{
    proof {
        if is_short_fraction(text@) {
            lemma_short_fraction(text@);
        }
    }
    if text.unicode_len() > 3 {
        return None;
    }
    match parse_number(text, 999) {
        Some(value) => Some(value as u64),
        None => None,
    }
}

/// Up to three digits stand for less than a thousand.
pub proof fn lemma_short_fraction(text: Seq<char>)
    requires
        is_short_fraction(text),
    ensures
        text::number(text) < text::power_of_ten(text.len()),
        text::number(text) <= 999,
{
    text::lemma_number_bound(text);
    text::lemma_power_of_ten_monotonic(text.len(), 3);
    assert(text::power_of_ten(3) == 1_000) by {
        reveal_with_fuel(text::power_of_ten, 4);
    }
}

/// Seconds with up to three decimals, in milliseconds.
pub fn parse_seconds(value: &str, must_be_below_sixty: bool) -> (r: Result<u64>)
    ensures
        error::seen_number(r) == seconds_field(value@, must_be_below_sixty),
{
    let parts = split_on(value, '.');
    let ghost pieces = text::texts(parts@);
    assert(pieces[0] == parts@[0]@);
    if parts.len() > 2 {
        return Err(AppError::about("秒数 `", value, "` 格式无效"));
    }
    let whole = match parse_integer(parts[0].as_str(), "秒") {
        Ok(whole) => whole,
        Err(error) => {
            return Err(error);
        },
    };
    if must_be_below_sixty && whole >= 60 {
        return Err(AppError::about("秒数 `", value, "` 必须小于 60"));
    }
    let mut thousandths: u64 = 0;
    if parts.len() == 2 {
        assert(pieces[1] == parts@[1]@);
        let text = parts[1].as_str();
        match parse_short_fraction(text) {
            Some(parsed) => {
                let power = ten_to_the(3 - text.unicode_len());
                proof {
                    text::lemma_power_of_ten_monotonic((3 - text@.len()) as nat, 3);
                    assert(text::power_of_ten(3) == 1_000) by {
                        reveal_with_fuel(text::power_of_ten, 4);
                    }
                    assert(parsed * power <= 999 * 1_000) by (nonlinear_arith)
                        requires
                            parsed <= 999,
                            power <= 1_000,
                    ;
                }
                thousandths = parsed * power;
            },
            None => {
                return Err(AppError::about("秒数 `", value, "` 最多支持 3 位小数"));
            },
        }
    }
    match whole.checked_mul(1_000) {
        Some(millis) => match millis.checked_add(thousandths) {
            Some(total) => Ok(total),
            None => Err(AppError::about("秒数 `", value, "` 过大")),
        },
        None => Err(AppError::about("秒数 `", value, "` 过大")),
    }
}

/// The milliseconds of `value` units of `multiplier` milliseconds and `tail` more.
pub fn checked_millis(value: u64, multiplier: u64, tail: u64) -> (r: Result<u64>)
    ensures
        error::seen_number(r) == millis_of(value as nat, multiplier as nat, tail as nat),
{
    match value.checked_mul(multiplier) {
        Some(millis) => match millis.checked_add(tail) {
            Some(total) => Ok(total),
            None => Err(AppError::new("时间点过大")),
        },
        None => Err(AppError::new("时间点过大")),
    }
}

fn parse_minutes_and_seconds(minutes: &str, seconds: &str) -> (r: Result<u64>)
    ensures
        error::seen_number(r) == minutes_and_seconds(minutes@, seconds@),
{
    let minutes = match parse_integer(minutes, "分钟") {
        Ok(minutes) => minutes,
        Err(error) => {
            return Err(error);
        },
    };
    match parse_seconds(seconds, true) {
        Ok(tail) => checked_millis(minutes, 60_000, tail),
        Err(error) => Err(error),
    }
}

fn parse_hours_minutes_and_seconds(
    hours: &str,
    minutes: &str,
    seconds: &str,
    value: &str,
) -> (r: Result<u64>)
    ensures
        error::seen_number(r) == hours_minutes_and_seconds(hours@, minutes@, seconds@, value@),
{
    let hours = match parse_integer(hours, "小时") {
        Ok(hours) => hours,
        Err(error) => {
            return Err(error);
        },
    };
    let minutes = match parse_integer(minutes, "分钟") {
        Ok(minutes) => minutes,
        Err(error) => {
            return Err(error);
        },
    };
    if minutes >= 60 {
        return Err(AppError::about("时间点 `", value, "` 中的分钟必须小于 60"));
    }
    let hour_millis = match hours.checked_mul(3_600_000) {
        Some(millis) => millis,
        None => {
            return Err(AppError::about("时间点 `", value, "` 过大"));
        },
    };
    let second_millis = match parse_seconds(seconds, true) {
        Ok(millis) => millis,
        Err(error) => {
            return Err(error);
        },
    };
    match hour_millis.checked_add(minutes * 60_000) {
        Some(total) => match total.checked_add(second_millis) {
            Some(total) => Ok(total),
            None => Err(AppError::about("时间点 `", value, "` 过大")),
        },
        None => Err(AppError::about("时间点 `", value, "` 过大")),
    }
}

fn parse_clock_fields(value: &str) -> (r: Result<u64>)
    ensures
        error::seen_number(r) == clock_fields(value@),
{
    let fields = split_on(value, ':');
    let ghost pieces = text::texts(fields@);
    assert(forall|i: int| 0 <= i < fields@.len() ==> pieces[i] == #[trigger] fields@[i]@);
    if fields.len() == 1 {
        parse_seconds(fields[0].as_str(), false)
    } else if fields.len() == 2 {
        parse_minutes_and_seconds(fields[0].as_str(), fields[1].as_str())
    } else if fields.len() == 3 {
        parse_hours_minutes_and_seconds(
            fields[0].as_str(),
            fields[1].as_str(),
            fields[2].as_str(),
            value,
        )
    } else {
        Err(AppError::about("无效时间点 `", value, "`，请使用 SS、MM:SS 或 HH:MM:SS"))
    }
}

/// A decimal number of units of `multiplier` milliseconds; `original` is the whole text.
pub fn parse_scaled_duration(number: &str, multiplier: u64, original: &str) -> (r: Result<u64>)
    ensures
        error::seen_number(r) == scaled_duration(number@, multiplier as nat, original@),
{
    let parts = split_on(number, '.');
    let ghost pieces = text::texts(parts@);
    assert(pieces[0] == parts@[0]@);
    if parts.len() > 2 {
        return Err(AppError::about("分段时长 `", original, "` 格式无效"));
    }
    let whole = match parse_integer(parts[0].as_str(), "时长") {
        Ok(whole) => whole,
        Err(error) => {
            return Err(error);
        },
    };
    let mut fraction: u64 = 0;
    if parts.len() == 2 {
        assert(pieces[1] == parts@[1]@);
        let digits = parts[1].as_str();
        match parse_short_fraction(digits) {
            Some(value) => {
                let divisor = ten_to_the(digits.unicode_len());
                proof {
                    text::lemma_power_of_ten_monotonic(0, digits@.len());
                }
                match value.checked_mul(multiplier) {
                    Some(scaled) => {
                        fraction = scaled / divisor;
                    },
                    None => {
                        return Err(AppError::about("分段时长 `", original, "` 过大"));
                    },
                }
            },
            None => {
                return Err(AppError::about("分段时长 `", original, "` 最多支持 3 位小数"));
            },
        }
    }
    match whole.checked_mul(multiplier) {
        Some(millis) => match millis.checked_add(fraction) {
            Some(total) => Ok(total),
            None => Err(AppError::about("分段时长 `", original, "` 过大")),
        },
        None => Err(AppError::about("分段时长 `", original, "` 过大")),
    }
}

/// Milliseconds as seconds with three decimals.
fn seconds_text(millis: u64) -> (r: String)
    ensures
        r@ == ffmpeg_seconds(millis as nat),
{
    let mut out = decimal_text((millis / 1_000) as u128);
    out.append(".");
    out.append(padded_text((millis % 1_000) as u128, 3).as_str());
    out
}

/// The hours, minutes and seconds of milliseconds, by way of the seconds.
proof fn lemma_clock_parts(millis: nat)
    ensures
        millis / 1_000 / 3_600 == millis / 3_600_000,
        millis / 1_000 % 3_600 / 60 == millis / 60_000 % 60,
{
    let seconds = millis / 1_000;
    let hours = seconds / 3_600;
    let minutes = seconds % 3_600 / 60;
    let rest = seconds % 3_600 % 60;
    assert(seconds == 3_600 * hours + 60 * minutes + rest);
    assert(millis / 60_000 == 60 * hours + minutes);
}

// ---------------------------------------------------------------------------
// Points in time
// ---------------------------------------------------------------------------

/// A point in time after the start of a video, to the millisecond.
#[derive(Clone, Copy, Debug, Eq, Ord, PartialEq, PartialOrd)]
pub struct Timestamp {
    millis: u64,
}

impl View for Timestamp {
    type V = nat;

    /// The milliseconds since the start.
    closed spec fn view(&self) -> nat {
        self.millis as nat
    }
}

impl Timestamp {
    /// No point in time is the start itself.
    #[verifier::type_invariant]
    spec fn after_start(self) -> bool {
        self.millis > 0
    }

    /// The milliseconds since the start of the video.
    pub fn millis(self) -> (r: u64)
        ensures
            r == self@,
            0 < r,
    {
        proof {
            use_type_invariant(self);
        }
        self.millis
    }

    /// As seconds with three decimals, the way FFmpeg reads them.
    pub fn as_ffmpeg_seconds(self) -> (r: String)
        ensures
            r@ == ffmpeg_seconds(self@),
    {
        seconds_text(self.millis)
    }

    /// The point in time that a text names.
    pub fn from_str(value: &str) -> (r: Result<Timestamp>)
        ensures
            error::seen(r) == timestamp_of(value@),
    {
        let value = trim(value);
        if value.is_empty() {
            return Err(AppError::new("时间点不能为空"));
        }
        match parse_clock_fields(value) {
            Ok(millis) => if millis == 0 {
                Err(AppError::new("拆分时间点必须大于 0"))
            } else {
                Ok(Timestamp { millis })
            },
            Err(error) => Err(error),
        }
    }

    /// The point in time as `HH:MM:SS.mmm`.
    pub fn to_string(&self) -> (r: String)
        ensures
            r@ == clock_text(self@),
    {
        let total_seconds = self.millis / 1_000;
        let hours = total_seconds / 3_600;
        let minutes = (total_seconds % 3_600) / 60;
        let seconds = total_seconds % 60;
        proof {
            lemma_clock_parts(self.millis as nat);
        }
        let mut out = padded_text(hours as u128, 2);
        out.append(":");
        out.append(padded_text(minutes as u128, 2).as_str());
        out.append(":");
        out.append(padded_text(seconds as u128, 2).as_str());
        out.append(".");
        out.append(padded_text((self.millis % 1_000) as u128, 3).as_str());
        out
    }
}

impl FromStr for Timestamp {
    type Err = AppError;

    fn from_str(value: &str) -> (r: std::result::Result<Timestamp, AppError>)
        ensures
            error::seen(r) == timestamp_of(value@),
    {
        Timestamp::from_str(value)
    }
}

// ---------------------------------------------------------------------------
// Durations
// ---------------------------------------------------------------------------

/// The length of a segment, to the millisecond.
#[derive(Clone, Copy, Debug, Eq, PartialEq)]
pub struct SegmentDuration {
    millis: u64,
}

impl View for SegmentDuration {
    type V = nat;

    /// The length in milliseconds.
    closed spec fn view(&self) -> nat {
        self.millis as nat
    }
}

impl SegmentDuration {
    /// A segment takes time.
    #[verifier::type_invariant]
    spec fn takes_time(self) -> bool {
        self.millis > 0
    }

    /// The length in milliseconds.
    pub fn millis(self) -> (r: u64)
        ensures
            r == self@,
            0 < r,
    {
        proof {
            use_type_invariant(self);
        }
        self.millis
    }

    /// As seconds with three decimals, the way FFmpeg reads them.
    pub fn as_ffmpeg_seconds(self) -> (r: String)
        ensures
            r@ == ffmpeg_seconds(self@),
    {
        seconds_text(self.millis)
    }

    /// The duration that a text names.
    pub fn from_str(value: &str) -> (r: Result<SegmentDuration>)
        ensures
            error::seen(r) == duration_of(value@),
    {
        let value = trim(value);
        if value.is_empty() {
            return Err(AppError::new("分段时长不能为空"));
        }
        let length = value.unicode_len();
        let unit = to_lower_char(value.get_char(length - 1));
        let multiplier: u64 = if unit == 's' {
            1_000
        } else if unit == 'm' {
            60_000
        } else if unit == 'h' {
            3_600_000
        } else {
            return match Timestamp::from_str(value) {
                Ok(timestamp) => Ok(SegmentDuration { millis: timestamp.millis() }),
                Err(_) => Err(
                    AppError::about(
                        "无效分段时长 `",
                        value,
                        "`；请使用 9m、540s、1h 或 00:09:00",
                    ),
                ),
            };
        };
        let number = value.substring_char(0, length - 1);
        assert(number@ == value@.drop_last());
        match parse_scaled_duration(number, multiplier, value) {
            Ok(millis) => if millis == 0 {
                Err(AppError::new("分段时长必须大于 0"))
            } else {
                Ok(SegmentDuration { millis })
            },
            Err(error) => Err(error),
        }
    }
}

impl FromStr for SegmentDuration {
    type Err = AppError;

    fn from_str(value: &str) -> (r: std::result::Result<SegmentDuration, AppError>)
        ensures
            error::seen(r) == duration_of(value@),
    {
        SegmentDuration::from_str(value)
    }
}

// ---------------------------------------------------------------------------
// Laws
// ---------------------------------------------------------------------------

/// Every point in time that a text can name comes after the start, and fits in 64 bits.
pub proof fn law_timestamp_range(text: Seq<char>)
    ensures
        timestamp_of(text) matches Ok(millis) ==> 0 < millis <= u64::MAX,
{
}

/// Every duration that a text can name takes time, and fits in 64 bits.
pub proof fn law_duration_range(text: Seq<char>)
    ensures
        duration_of(text) matches Ok(millis) ==> 0 < millis <= u64::MAX,
{
    law_timestamp_range(text::trimmed(text));
}

/// White space around a point in time or a duration does not count.
pub proof fn law_surrounding_space(text: Seq<char>)
    ensures
        timestamp_of(text) == timestamp_of(text::trimmed(text)),
        duration_of(text) == duration_of(text::trimmed(text)),
{
    text::law_trimmed_twice(text);
}

/// Digits, a point and three digits are read as seconds and thousandths.
proof fn lemma_seconds_field(whole: Seq<char>, millis: nat, must_be_below_sixty: bool)
    requires
        text::is_number(whole),
        must_be_below_sixty ==> text::number(whole) < 60,
        millis < 1_000,
        text::number(whole) * 1_000 + millis <= u64::MAX,
    ensures
        seconds_field(whole + "."@ + text::padded(millis, 3), must_be_below_sixty) == Ok::<
            nat,
            Seq<char>,
        >(text::number(whole) * 1_000 + millis),
{
    let fraction = text::padded(millis, 3);
    let value = whole + "."@ + fraction;
    reveal_strlit(".");
    assert(text::power_of_ten(3) == 1_000) by {
        reveal_with_fuel(text::power_of_ten, 4);
    }
    text::lemma_padded(millis, 3);
    text::lemma_padded_length(millis, 3);
    text::lemma_only_digits(whole, '.');
    text::lemma_only_digits(fraction, '.');
    text::law_split_without_separator(whole, '.');
    text::law_split_one_more(whole, '.', fraction);
    assert(value == whole.push('.') + fraction);
    assert(text::split(value, '.') == seq![whole, fraction]);
    let power = text::power_of_ten((3 - fraction.len()) as nat);
    assert(power == 1);
    assert(text::number(fraction) * power == millis) by (nonlinear_arith)
        requires
            text::number(fraction) == millis,
            power == 1,
    ;
}

/// A text that starts and ends with a digit is not changed by trimming.
proof fn lemma_digits_at_ends(value: Seq<char>)
    requires
        value.len() > 0,
        text::is_digit(value[0]),
        text::is_digit(value.last()),
    ensures
        text::trimmed(value) == value,
        unit_millis(value.last()) is None,
{
    text::law_trimmed_unchanged(value);
}

/// Reading the seconds that are written for FFmpeg gives the point in time back.
pub proof fn law_timestamp_of_ffmpeg_seconds(millis: nat)
    requires
        0 < millis <= u64::MAX,
    ensures
        timestamp_of(ffmpeg_seconds(millis)) == Ok::<nat, Seq<char>>(millis),
{
    let whole = text::decimal(millis / 1_000);
    let fraction = text::padded(millis % 1_000, 3);
    let value = ffmpeg_seconds(millis);
    reveal_strlit(".");
    text::lemma_decimal(millis / 1_000);
    text::lemma_padded(millis % 1_000, 3);
    lemma_seconds_field(whole, millis % 1_000, false);
    assert(value[0] == whole[0]);
    assert(value.last() == fraction.last());
    assert(text::is_digit(whole[0]));
    assert(text::is_digit(fraction[fraction.len() - 1]));
    lemma_digits_at_ends(value);
    assert(!value.contains(':')) by {
        text::lemma_only_digits(whole, ':');
        text::lemma_only_digits(fraction, ':');
        assert forall|i: int| 0 <= i < value.len() implies value[i] != ':' by {
            if i < whole.len() {
                assert(value[i] == whole[i]);
            } else if i > whole.len() {
                assert(value[i] == fraction[i - whole.len() - 1]);
            }
        }
    }
    text::law_split_without_separator(value, ':');
}

/// Reading the seconds that are written for FFmpeg gives the duration back.
pub proof fn law_duration_of_ffmpeg_seconds(millis: nat)
    requires
        0 < millis <= u64::MAX,
    ensures
        duration_of(ffmpeg_seconds(millis)) == Ok::<nat, Seq<char>>(millis),
{
    let whole = text::decimal(millis / 1_000);
    let fraction = text::padded(millis % 1_000, 3);
    let value = ffmpeg_seconds(millis);
    law_timestamp_of_ffmpeg_seconds(millis);
    text::lemma_decimal(millis / 1_000);
    text::lemma_padded(millis % 1_000, 3);
    assert(value[0] == whole[0]);
    assert(value.last() == fraction.last());
    assert(text::is_digit(whole[0]));
    assert(text::is_digit(fraction[fraction.len() - 1]));
    lemma_digits_at_ends(value);
}

/// Reading a point in time as it is shown gives it back, also as a duration.
pub proof fn law_timestamp_of_clock_text(millis: nat)
    requires
        0 < millis <= u64::MAX,
    ensures
        timestamp_of(clock_text(millis)) == Ok::<nat, Seq<char>>(millis),
        duration_of(clock_text(millis)) == Ok::<nat, Seq<char>>(millis),
{
    let hours = text::padded(millis / 3_600_000, 2);
    let minutes = text::padded(millis / 60_000 % 60, 2);
    let whole = text::padded(millis / 1_000 % 60, 2);
    let fraction = text::padded(millis % 1_000, 3);
    let seconds = whole + "."@ + fraction;
    let value = clock_text(millis);
    reveal_strlit(".");
    reveal_strlit(":");
    text::lemma_padded(millis / 3_600_000, 2);
    text::lemma_padded(millis / 60_000 % 60, 2);
    text::lemma_padded(millis / 1_000 % 60, 2);
    text::lemma_padded(millis % 1_000, 3);
    lemma_seconds_field(whole, millis % 1_000, true);
    assert(value[0] == hours[0]);
    assert(value.last() == fraction.last());
    assert(text::is_digit(hours[0]));
    assert(text::is_digit(fraction[fraction.len() - 1]));
    lemma_digits_at_ends(value);
    assert(text::split(value, ':') == seq![hours, minutes, seconds]) by {
        text::lemma_only_digits(hours, ':');
        text::lemma_only_digits(minutes, ':');
        text::lemma_only_digits(whole, ':');
        text::lemma_only_digits(fraction, ':');
        assert(!seconds.contains(':')) by {
            assert forall|i: int| 0 <= i < seconds.len() implies seconds[i] != ':' by {
                if i < whole.len() {
                    assert(seconds[i] == whole[i]);
                } else if i > whole.len() {
                    assert(seconds[i] == fraction[i - whole.len() - 1]);
                }
            }
        }
        text::law_split_without_separator(hours, ':');
        text::law_split_one_more(hours, ':', minutes);
        text::law_split_one_more(hours.push(':') + minutes, ':', seconds);
        assert(value == (hours.push(':') + minutes).push(':') + seconds);
        assert(seq![hours].push(minutes).push(seconds) == seq![hours, minutes, seconds]);
    }
    lemma_clock_sum(millis);
}

/// Hours, minutes, seconds and thousandths add up.
proof fn lemma_clock_sum(millis: nat)
    ensures
        millis / 3_600_000 * 3_600_000 + millis / 60_000 % 60 * 60_000 + (millis / 1_000 % 60
            * 1_000 + millis % 1_000) == millis,
{
    let seconds = millis / 1_000;
    let minutes = millis / 60_000;
    let hours = millis / 3_600_000;
    assert(minutes == seconds / 60);
    assert(hours == minutes / 60);
}

/// A whole number with the letter of a unit behind it is that many of the unit.
pub proof fn law_duration_of_units(count: nat, letter: char, unit: nat)
    requires
        unit_millis(letter) == Some(unit),
        0 < count * unit <= u64::MAX,
    ensures
        duration_of(text::decimal(count).push(letter)) == Ok::<nat, Seq<char>>(count * unit),
{
    let digits = text::decimal(count);
    let value = digits.push(letter);
    text::lemma_decimal(count);
    assert(text::is_digit(digits[0]));
    assert(value[0] == digits[0]);
    assert(!text::white_space(letter));
    text::law_trimmed_unchanged(value);
    assert(value.drop_last() == digits);
    text::lemma_only_digits(digits, '.');
    text::law_split_without_separator(digits, '.');
    assert(count <= count * unit) by (nonlinear_arith)
        requires
            unit >= 1,
            count >= 0,
    ;
}

// ---------------------------------------------------------------------------
// Laws of all forms of times
// ---------------------------------------------------------------------------

/// A decimal number: digits, and a point with more digits or none.
pub open spec fn decimal_form(whole: Seq<char>, fraction: Option<Seq<char>>) -> Seq<char> {
    match fraction {
        Some(digits) => whole.push('.') + digits,
        None => whole,
    }
}

/// Whether these are the digits of a decimal number with one to three decimals or none.
pub open spec fn is_decimal_form(whole: Seq<char>, fraction: Option<Seq<char>>) -> bool {
    &&& text::is_number(whole)
    &&& fraction matches Some(digits) ==> 1 <= digits.len() <= 3 && text::all_digits(digits)
}

/// A decimal number in thousandths: the number of its digits, those behind the point filled up to
/// three.
pub open spec fn thousandths(whole: Seq<char>, fraction: Option<Seq<char>>) -> nat {
    text::number(
        whole + (match fraction {
            Some(digits) => digits + text::zeros((3 - digits.len()) as nat),
            None => text::zeros(3),
        }),
    )
}

/// The digits behind the point.
pub open spec fn decimals(fraction: Option<Seq<char>>) -> Seq<char> {
    match fraction {
        Some(digits) => digits,
        None => Seq::empty(),
    }
}

/// What a decimal number is made of.
pub proof fn lemma_decimal_form(whole: Seq<char>, fraction: Option<Seq<char>>)
    requires
        is_decimal_form(whole, fraction),
    ensures
        text::split(decimal_form(whole, fraction), '.') == (match fraction {
            Some(digits) => seq![whole, digits],
            None => seq![whole],
        }),
        thousandths(whole, fraction) == text::number(whole) * 1_000 + (match fraction {
            Some(digits) => text::number(digits) * text::power_of_ten((3 - digits.len()) as nat),
            None => 0,
        }),
        !decimal_form(whole, fraction).contains(':'),
        decimal_form(whole, fraction).len() > 0,
        text::is_digit(decimal_form(whole, fraction)[0]),
        text::is_digit(decimal_form(whole, fraction).last()),
{
    let value = decimal_form(whole, fraction);
    assert(text::power_of_ten(3) == 1_000) by {
        reveal_with_fuel(text::power_of_ten, 4);
    }
    text::lemma_only_digits(whole, '.');
    text::lemma_only_digits(whole, ':');
    text::law_split_without_separator(whole, '.');
    assert(text::is_digit(whole[0]));
    assert(text::is_digit(whole[whole.len() - 1]));
    match fraction {
        Some(digits) => {
            let count = (3 - digits.len()) as nat;
            text::lemma_only_digits(digits, '.');
            text::lemma_only_digits(digits, ':');
            text::law_split_one_more(whole, '.', digits);
            text::law_trailing_zeros(digits, count);
            text::law_number_of_two(whole, digits + text::zeros(count));
            assert(value[0] == whole[0]);
            assert(value.last() == digits.last());
            assert(text::is_digit(digits[digits.len() - 1]));
            assert forall|i: int| 0 <= i < value.len() implies value[i] != ':' by {
                if i < whole.len() {
                    assert(value[i] == whole[i]);
                } else if i > whole.len() {
                    assert(value[i] == digits[i - whole.len() - 1]);
                }
            }
        },
        None => {
            let nothing = Seq::<char>::empty();
            text::lemma_leading_zeros(3, nothing);
            assert(text::zeros(3) + nothing == text::zeros(3));
            text::law_number_of_two(whole, text::zeros(3));
        },
    }
}

proof fn lemma_seconds_of_form(whole: Seq<char>, fraction: Option<Seq<char>>, below_sixty: bool)
    requires
        is_decimal_form(whole, fraction),
    ensures
        ({
            let read = seconds_field(decimal_form(whole, fraction), below_sixty);
            let millis = thousandths(whole, fraction);
            &&& millis <= u64::MAX && (below_sixty ==> text::number(whole) < 60) ==> read == Ok::<
                nat,
                Seq<char>,
            >(millis)
            &&& millis > u64::MAX || (below_sixty && text::number(whole) >= 60) ==> read is Err
        }),
{
    lemma_decimal_form(whole, fraction);
}

/// Whether what is read is this many milliseconds; and nothing where they are none, or more than
/// 64 bits hold.
pub open spec fn is_read_as(read: std::result::Result<nat, Seq<char>>, millis: nat) -> bool {
    &&& 0 < millis <= 0xffff_ffff_ffff_ffff ==> read == Ok::<nat, Seq<char>>(millis)
    &&& millis == 0 || millis > 0xffff_ffff_ffff_ffff ==> read is Err
}

/// `SS` and `SS.mmm`: as many milliseconds as the decimal number has thousandths.
pub proof fn law_seconds(whole: Seq<char>, fraction: Option<Seq<char>>)
    requires
        is_decimal_form(whole, fraction),
    ensures
        is_read_as(
            timestamp_of(decimal_form(whole, fraction)),
            thousandths(whole, fraction),
        ),
{
    let value = decimal_form(whole, fraction);
    lemma_decimal_form(whole, fraction);
    lemma_digits_at_ends(value);
    text::law_split_without_separator(value, ':');
    lemma_seconds_of_form(whole, fraction, false);
}

/// `MM:SS` and `MM:SS.mmm`: sixty seconds a minute, and less than sixty seconds besides.
pub proof fn law_minutes_and_seconds(
    minutes: Seq<char>,
    whole: Seq<char>,
    fraction: Option<Seq<char>>,
)
    requires
        text::is_number(minutes),
        is_decimal_form(whole, fraction),
    ensures
        text::number(whole) < 60 ==> is_read_as(
            timestamp_of(minutes.push(':') + decimal_form(whole, fraction)),
            text::number(minutes) * 60_000 + thousandths(whole, fraction),
        ),
        text::number(whole) >= 60 ==> timestamp_of(
            minutes.push(':') + decimal_form(whole, fraction),
        ) is Err,
{
    let seconds = decimal_form(whole, fraction);
    let value = minutes.push(':') + seconds;
    lemma_decimal_form(whole, fraction);
    assert(text::is_digit(minutes[0]));
    assert(value[0] == minutes[0]);
    assert(value.last() == seconds.last());
    lemma_digits_at_ends(value);
    text::lemma_only_digits(minutes, ':');
    text::law_split_without_separator(minutes, ':');
    text::law_split_one_more(minutes, ':', seconds);
    assert(text::split(value, ':') == seq![minutes, seconds]);
    lemma_seconds_of_form(whole, fraction, true);
}

/// `HH:MM:SS` and `HH:MM:SS.mmm`: sixty minutes an hour, and less than sixty minutes and seconds
/// besides.
pub proof fn law_hours_minutes_and_seconds(
    hours: Seq<char>,
    minutes: Seq<char>,
    whole: Seq<char>,
    fraction: Option<Seq<char>>,
)
    requires
        text::is_number(hours),
        text::is_number(minutes),
        is_decimal_form(whole, fraction),
    ensures
        text::number(minutes) < 60 && text::number(whole) < 60 ==> is_read_as(
            timestamp_of(
                (hours.push(':') + minutes).push(':') + decimal_form(whole, fraction),
            ),
            text::number(hours) * 3_600_000 + text::number(minutes) * 60_000 + thousandths(
                whole,
                fraction,
            ),
        ),
        text::number(minutes) >= 60 || text::number(whole) >= 60 ==> timestamp_of(
            (hours.push(':') + minutes).push(':') + decimal_form(whole, fraction),
        ) is Err,
{
    let seconds = decimal_form(whole, fraction);
    let front = hours.push(':') + minutes;
    let value = front.push(':') + seconds;
    lemma_decimal_form(whole, fraction);
    assert(text::is_digit(hours[0]));
    assert(value[0] == hours[0]);
    assert(value.last() == seconds.last());
    lemma_digits_at_ends(value);
    text::lemma_only_digits(hours, ':');
    text::lemma_only_digits(minutes, ':');
    text::law_split_without_separator(hours, ':');
    text::law_split_one_more(hours, ':', minutes);
    text::law_split_one_more(front, ':', seconds);
    assert(text::split(value, ':') == seq![hours, minutes, seconds]);
    lemma_seconds_of_form(whole, fraction, true);
}

/// Whether a text is a decimal number with one to three decimals or none.
pub open spec fn is_decimal_text(value: Seq<char>) -> bool {
    exists|whole: Seq<char>, fraction: Option<Seq<char>>|
        value == #[trigger] decimal_form(whole, fraction) && is_decimal_form(whole, fraction)
}

/// A number and a short fraction make a decimal number.
pub proof fn lemma_only_decimal_text(value: Seq<char>)
    requires
        text::split(value, '.').len() <= 2,
        text::is_number(text::split(value, '.')[0]),
        text::split(value, '.').len() == 2 ==> is_short_fraction(text::split(value, '.')[1]),
    ensures
        is_decimal_text(value),
{
    let parts = text::split(value, '.');
    text::law_join_split(value, '.');
    text::law_split_parts(value, '.');
    let whole = parts[0];
    let fraction = if parts.len() == 2 {
        Some(parts[1])
    } else {
        None
    };
    if parts.len() == 2 {
        reveal_with_fuel(text::join, 3);
        assert(parts.drop_last() == seq![whole]);
        assert(whole + seq!['.'] + parts[1] == whole.push('.') + parts[1]);
    }
    assert(value == decimal_form(whole, fraction));
    assert(is_decimal_form(whole, fraction));
}

/// Nothing else is a point in time: a text that names one is, but for white space around it, a
/// decimal number behind no, one or two whole numbers, with colons between them.
pub proof fn law_only_timestamps(input: Seq<char>)
    requires
        timestamp_of(input) is Ok,
    ensures
        ({
            let value = text::trimmed(input);
            let fields = text::split(value, ':');
            &&& 1 <= fields.len() <= 3
            &&& is_decimal_text(fields.last())
            &&& forall|i: int|
                0 <= i < fields.len() - 1 ==> text::is_number(#[trigger] fields[i])
        }),
{
    let value = text::trimmed(input);
    let fields = text::split(value, ':');
    text::law_split_parts(value, ':');
    lemma_only_decimal_text(fields.last());
}

/// What is told of a text that names no point in time.
pub proof fn law_timestamp_refusals(input: Seq<char>)
    ensures
        text::trimmed(input).len() == 0 ==> timestamp_of(input) == Err::<nat, Seq<char>>(
            "时间点不能为空"@,
        ),
        text::trimmed(input).len() > 0 && text::split(text::trimmed(input), ':').len() > 3
            ==> timestamp_of(input) == Err::<nat, Seq<char>>(
            "无效时间点 `"@ + text::trimmed(input) + "`，请使用 SS、MM:SS 或 HH:MM:SS"@,
        ),
{
    text::law_split_parts(text::trimmed(input), ':');
}

proof fn lemma_floor(whole: nat, part: nat, unit: nat, power: nat, result: nat)
    requires
        power > 0,
        result == whole * unit + part * unit / power,
    ensures
        result * power <= (whole * power + part) * unit < (result + 1) * power,
{
    let quotient = part * unit / power;
    let remainder = part * unit % power;
    assert(part * unit == power * quotient + remainder) by {
        vstd::arithmetic::div_mod::lemma_fundamental_div_mod(
            (part * unit) as int,
            power as int,
        );
    }
    assert(0 <= remainder < power) by {
        vstd::arithmetic::div_mod::lemma_mod_bound((part * unit) as int, power as int);
    }
    assert((whole * power + part) * unit == (whole * unit) * power + part * unit)
        by (nonlinear_arith);
    assert(result * power == (whole * unit) * power + power * quotient) by (nonlinear_arith)
        requires
            result == whole * unit + quotient,
    ;
    assert((result + 1) * power == result * power + power) by (nonlinear_arith);
}

/// Whether a number of milliseconds is what a decimal number of units comes to, without what is
/// less than a millisecond.
pub open spec fn is_share(
    millis: nat,
    whole: Seq<char>,
    fraction: Option<Seq<char>>,
    unit: nat,
) -> bool {
    let power = text::power_of_ten(decimals(fraction).len());
    millis * power <= text::number(whole + decimals(fraction)) * unit < (millis + 1) * power
}

/// A decimal number of units comes to its value times the unit, rounded down.
pub proof fn lemma_share(whole: Seq<char>, fraction: Option<Seq<char>>, unit: nat, result: nat)
    requires
        is_decimal_form(whole, fraction),
        result == text::number(whole) * unit + (match fraction {
            Some(digits) => text::number(digits) * unit / text::power_of_ten(digits.len()),
            None => 0,
        }),
    ensures
        is_share(result, whole, fraction, unit),
{
    let digits = decimals(fraction);
    text::law_number_of_two(whole, digits);
    text::lemma_power_of_ten_monotonic(0, digits.len());
    let power = text::power_of_ten(digits.len());
    match fraction {
        Some(_) => {},
        None => {
            assert(text::number(digits) == 0);
            assert(0 * unit == 0);
            assert(power == 1);
            assert((0 * unit) as nat / power == 0);
        },
    }
    lemma_floor(text::number(whole), text::number(digits), unit, power, result);
}

/// Two results for one share are the same.
pub proof fn law_share_is_one(
    a: nat,
    b: nat,
    whole: Seq<char>,
    fraction: Option<Seq<char>>,
    unit: nat,
)
    requires
        is_share(a, whole, fraction, unit),
        is_share(b, whole, fraction, unit),
    ensures
        a == b,
{
    let power = text::power_of_ten(decimals(fraction).len());
    let product = text::number(whole + decimals(fraction)) * unit;
    text::lemma_power_of_ten_monotonic(0, decimals(fraction).len());
    if a < b {
        assert((a + 1) * power <= b * power) by (nonlinear_arith)
            requires
                a + 1 <= b,
                power >= 0,
        ;
    }
    if b < a {
        assert((b + 1) * power <= a * power) by (nonlinear_arith)
            requires
                b + 1 <= a,
                power >= 0,
        ;
    }
}

/// A decimal number and `s`, `m` or `h`, or their capitals: that many seconds, minutes or hours,
/// without what is less than a millisecond.
pub proof fn law_duration_with_unit(
    whole: Seq<char>,
    fraction: Option<Seq<char>>,
    letter: char,
    unit: nat,
    millis: nat,
)
    requires
        is_decimal_form(whole, fraction),
        ((letter == 's' || letter == 'S') && unit == 1_000) || ((letter == 'm' || letter == 'M')
            && unit == 60_000) || ((letter == 'h' || letter == 'H') && unit == 3_600_000),
        is_share(millis, whole, fraction, unit),
    ensures
        is_read_as(duration_of(decimal_form(whole, fraction).push(letter)), millis),
{
    let number = decimal_form(whole, fraction);
    let value = number.push(letter);
    lemma_decimal_form(whole, fraction);
    assert(value[0] == number[0]);
    assert(!text::white_space(letter));
    text::law_trimmed_unchanged(value);
    assert(value.drop_last() == number);
    let result = text::number(whole) * unit + (match fraction {
        Some(digits) => text::number(digits) * unit / text::power_of_ten(digits.len()),
        None => 0,
    });
    lemma_share(whole, fraction, unit, result);
    law_share_is_one(millis, result, whole, fraction, unit);
    assert(text::number(whole) <= text::number(whole) * unit) by (nonlinear_arith)
        requires
            unit >= 1,
            text::number(whole) >= 0,
    ;
    match fraction {
        Some(digits) => {
            lemma_short_fraction(digits);
            assert(text::number(digits) * unit <= 999 * 3_600_000) by (nonlinear_arith)
                requires
                    text::number(digits) <= 999,
                    unit <= 3_600_000,
            ;
            text::lemma_power_of_ten_monotonic(0, digits.len());
            assert((text::number(digits) * unit) / text::power_of_ten(digits.len()) >= 0);
        },
        None => {},
    }
}

/// Without a unit, a duration is what names a point in time; what names none is told.
pub proof fn law_duration_without_unit(input: Seq<char>)
    requires
        ({
            let value = text::trimmed(input);
            value.len() > 0 ==> value.last() != 's' && value.last() != 'S' && value.last() != 'm'
                && value.last() != 'M' && value.last() != 'h' && value.last() != 'H'
        }),
    ensures
        text::trimmed(input).len() == 0 ==> duration_of(input) == Err::<nat, Seq<char>>(
            "分段时长不能为空"@,
        ),
        timestamp_of(input) is Ok ==> duration_of(input) == timestamp_of(input),
        timestamp_of(input) is Err && text::trimmed(input).len() > 0 ==> duration_of(input)
            == Err::<nat, Seq<char>>(
            "无效分段时长 `"@ + text::trimmed(input) + "`；请使用 9m、540s、1h 或 00:09:00"@,
        ),
{
    law_surrounding_space(input);
}

/// Nothing else is a duration with a unit: what stands before the letter is a decimal number.
pub proof fn law_only_durations(input: Seq<char>)
    requires
        duration_of(input) is Ok,
        ({
            let last = text::trimmed(input).last();
            last == 's' || last == 'S' || last == 'm' || last == 'M' || last == 'h' || last == 'H'
        }),
    ensures
        is_decimal_text(text::trimmed(input).drop_last()),
{
    let number = text::trimmed(input).drop_last();
    text::law_split_parts(number, '.');
    lemma_only_decimal_text(number);
}

/// Seconds for FFmpeg are written with exactly three decimals.
pub proof fn law_ffmpeg_seconds_form(millis: nat)
    ensures
        exists|whole: Seq<char>, digits: Seq<char>|
            ffmpeg_seconds(millis) == #[trigger] decimal_form(whole, Some(digits))
                && is_decimal_form(whole, Some(digits)) && digits.len() == 3 && thousandths(
                whole,
                Some(digits),
            ) == millis && !ffmpeg_seconds(millis).contains(','),
{
    let whole = text::decimal(millis / 1_000);
    let digits = text::padded(millis % 1_000, 3);
    reveal_strlit(".");
    assert(text::power_of_ten(3) == 1_000) by {
        reveal_with_fuel(text::power_of_ten, 4);
    }
    text::lemma_decimal(millis / 1_000);
    text::lemma_padded(millis % 1_000, 3);
    text::lemma_padded_length(millis % 1_000, 3);
    let value = ffmpeg_seconds(millis);
    assert(value == decimal_form(whole, Some(digits)));
    lemma_decimal_form(whole, Some(digits));
    let power = text::power_of_ten((3 - digits.len()) as nat);
    assert(power == 1);
    assert(text::number(digits) * power == text::number(digits)) by (nonlinear_arith)
        requires
            power == 1,
    ;
    text::lemma_only_digits(whole, ',');
    text::lemma_only_digits(digits, ',');
    assert forall|i: int| 0 <= i < value.len() implies value[i] != ',' by {
        if i < whole.len() {
            assert(value[i] == whole[i]);
        } else if i > whole.len() {
            assert(value[i] == digits[i - whole.len() - 1]);
        }
    }
}

/// A point in time is shown with at least two digits for the hours, two for the minutes, and two
/// and three decimals for the seconds.
pub proof fn law_clock_text_form(millis: nat)
    ensures
        ({
            let fields = text::split(clock_text(millis), ':');
            &&& fields.len() == 3
            &&& text::is_number(fields[0]) && fields[0].len() >= 2
            &&& text::is_number(fields[1]) && fields[1].len() == 2
            &&& fields[2].len() == 6 && fields[2][2] == '.'
        }),
{
    let hours = text::padded(millis / 3_600_000, 2);
    let minutes = text::padded(millis / 60_000 % 60, 2);
    let whole = text::padded(millis / 1_000 % 60, 2);
    let fraction = text::padded(millis % 1_000, 3);
    let seconds = whole + "."@ + fraction;
    let value = clock_text(millis);
    reveal_strlit(".");
    reveal_strlit(":");
    text::lemma_padded(millis / 3_600_000, 2);
    text::lemma_padded(millis / 60_000 % 60, 2);
    text::lemma_padded(millis / 1_000 % 60, 2);
    text::lemma_padded(millis % 1_000, 3);
    assert(text::power_of_ten(2) == 100 && text::power_of_ten(3) == 1_000) by {
        reveal_with_fuel(text::power_of_ten, 4);
    }
    text::lemma_padded_length(millis / 60_000 % 60, 2);
    text::lemma_padded_length(millis / 1_000 % 60, 2);
    text::lemma_padded_length(millis % 1_000, 3);
    text::lemma_only_digits(hours, ':');
    text::lemma_only_digits(minutes, ':');
    text::lemma_only_digits(whole, ':');
    text::lemma_only_digits(fraction, ':');
    assert(!seconds.contains(':')) by {
        assert forall|i: int| 0 <= i < seconds.len() implies seconds[i] != ':' by {
            if i < whole.len() {
                assert(seconds[i] == whole[i]);
            } else if i > whole.len() {
                assert(seconds[i] == fraction[i - whole.len() - 1]);
            }
        }
    }
    text::law_split_without_separator(hours, ':');
    text::law_split_one_more(hours, ':', minutes);
    text::law_split_one_more(hours.push(':') + minutes, ':', seconds);
    assert(value == (hours.push(':') + minutes).push(':') + seconds);
    assert(text::split(value, ':') == seq![hours, minutes, seconds]);
}

/// A whole number is the number of its digits, where 64 bits hold it; `label` names it where it is
/// told what is wrong.
pub proof fn law_integer_field(value: Seq<char>, label: Seq<char>)
    ensures
        text::is_number(value) && text::number(value) <= 0xffff_ffff_ffff_ffff ==> integer_field(
            value,
            label,
        ) == Ok::<nat, Seq<char>>(text::number(value)),
        text::is_number(value) && text::number(value) > 0xffff_ffff_ffff_ffff ==> integer_field(
            value,
            label,
        ) == Err::<nat, Seq<char>>(label + " `"@ + value + "` 过大"@),
        !text::is_number(value) ==> integer_field(value, label) == Err::<nat, Seq<char>>(
            label + " `"@ + value + "` 不是有效整数"@,
        ),
{
}

/// Units and what is left over add up, where 64 bits hold the sum.
pub proof fn law_millis_of(value: nat, multiplier: nat, tail: nat)
    ensures
        value * multiplier + tail <= 0xffff_ffff_ffff_ffff ==> millis_of(value, multiplier, tail)
            == Ok::<nat, Seq<char>>(value * multiplier + tail),
        value * multiplier + tail > 0xffff_ffff_ffff_ffff ==> millis_of(value, multiplier, tail)
            == Err::<nat, Seq<char>>("时间点过大"@),
{
}

/// Seconds with up to three decimals, by themselves or below sixty.
pub proof fn law_seconds_field(whole: Seq<char>, fraction: Option<Seq<char>>, below_sixty: bool)
    requires
        is_decimal_form(whole, fraction),
    ensures
        thousandths(whole, fraction) <= 0xffff_ffff_ffff_ffff && (below_sixty ==> text::number(
            whole,
        ) < 60) ==> seconds_field(decimal_form(whole, fraction), below_sixty) == Ok::<
            nat,
            Seq<char>,
        >(thousandths(whole, fraction)),
        thousandths(whole, fraction) > 0xffff_ffff_ffff_ffff || (below_sixty && text::number(whole)
            >= 60) ==> seconds_field(decimal_form(whole, fraction), below_sixty) is Err,
{
    lemma_seconds_of_form(whole, fraction, below_sixty);
}

/// A decimal number of units of any length comes to its share of milliseconds, where 64 bits hold
/// all that is computed.
pub proof fn law_scaled_duration(
    whole: Seq<char>,
    fraction: Option<Seq<char>>,
    unit: nat,
    original: Seq<char>,
    millis: nat,
)
    requires
        is_decimal_form(whole, fraction),
        is_share(millis, whole, fraction, unit),
        text::number(whole) <= 0xffff_ffff_ffff_ffff,
    ensures
        ({
            let read = scaled_duration(decimal_form(whole, fraction), unit, original);
            let fits = millis <= 0xffff_ffff_ffff_ffff && text::number(decimals(fraction)) * unit
                <= 0xffff_ffff_ffff_ffff;
            &&& fits ==> read == Ok::<nat, Seq<char>>(millis)
            &&& !fits ==> read == Err::<nat, Seq<char>>("分段时长 `"@ + original + "` 过大"@)
        }),
{
    lemma_decimal_form(whole, fraction);
    let result = text::number(whole) * unit + (match fraction {
        Some(digits) => text::number(digits) * unit / text::power_of_ten(digits.len()),
        None => 0,
    });
    lemma_share(whole, fraction, unit, result);
    law_share_is_one(millis, result, whole, fraction, unit);
    if fraction is None {
        assert(text::number(decimals(fraction)) == 0);
        assert(0 * unit == 0);
    }
}

// ---------------------------------------------------------------------------
// Laws of what is told of a time
// ---------------------------------------------------------------------------

/// Whether digits are a decimal fraction: one digit, two or three.
pub open spec fn is_fraction(digits: Seq<char>) -> bool {
    (digits.len() == 1 || digits.len() == 2 || digits.len() == 3) && forall|i: int|
        0 <= i < digits.len() ==> '0' <= #[trigger] digits[i] <= '9'
}

/// What is told of seconds: of more points than one; of a whole number as of any, by the name of
/// seconds; of sixty and more where there are minutes; of decimals; of what 64 bits do not hold.
pub proof fn law_seconds_refusals(value: Seq<char>, below_sixty: bool)
    ensures
        ({
            let parts = text::split(value, '.');
            let whole = parts[0];
            let read = seconds_field(value, below_sixty);
            let fits = text::is_number(whole) && text::number(whole) <= 0xffff_ffff_ffff_ffff;
            &&& parts.len() > 2 ==> read == Err::<nat, Seq<char>>(
                "秒数 `"@ + value + "` 格式无效"@,
            )
            &&& parts.len() <= 2 && !text::is_number(whole) ==> read == Err::<nat, Seq<char>>(
                "秒 `"@ + whole + "` 不是有效整数"@,
            )
            &&& parts.len() <= 2 && text::is_number(whole) && !fits ==> read == Err::<
                nat,
                Seq<char>,
            >("秒 `"@ + whole + "` 过大"@)
            &&& parts.len() <= 2 && fits && below_sixty && text::number(whole) >= 60 ==> read
                == Err::<nat, Seq<char>>("秒数 `"@ + value + "` 必须小于 60"@)
            &&& parts.len() == 2 && fits && !(below_sixty && text::number(whole) >= 60)
                && !is_fraction(parts[1]) ==> read == Err::<nat, Seq<char>>(
                "秒数 `"@ + value + "` 最多支持 3 位小数"@,
            )
            &&& parts.len() == 1 && fits && !below_sixty && text::number(whole) * 1_000
                > 0xffff_ffff_ffff_ffff ==> read == Err::<nat, Seq<char>>(
                "秒数 `"@ + value + "` 过大"@,
            )
        }),
{
    let parts = text::split(value, '.');
    text::law_split_parts(value, '.');
    lemma_seconds_words();
    if parts.len() == 2 && is_short_fraction(parts[1]) {
        assert forall|i: int| 0 <= i < parts[1].len() implies '0' <= #[trigger] parts[1][i]
            <= '9' by {
            assert(text::is_digit(parts[1][i]));
        }
    }
}

proof fn lemma_seconds_words()
    ensures
        forall|whole: Seq<char>| #[trigger]
            ("秒"@ + " `"@ + whole + "` 不是有效整数"@) == "秒 `"@ + whole + "` 不是有效整数"@,
        forall|whole: Seq<char>| #[trigger]
            ("秒"@ + " `"@ + whole + "` 过大"@) == "秒 `"@ + whole + "` 过大"@,
{
    reveal_strlit("秒");
    reveal_strlit(" `");
    reveal_strlit("秒 `");
    assert("秒"@ + " `"@ == "秒 `"@);
}

/// What is told of seconds with a fraction that 64 bits do not hold in milliseconds.
pub proof fn law_seconds_too_large(whole: Seq<char>, fraction: Option<Seq<char>>)
    requires
        is_decimal_form(whole, fraction),
        text::number(whole) <= 0xffff_ffff_ffff_ffff,
        thousandths(whole, fraction) > 0xffff_ffff_ffff_ffff,
    ensures
        seconds_field(decimal_form(whole, fraction), false) == Err::<nat, Seq<char>>(
            "秒数 `"@ + decimal_form(whole, fraction) + "` 过大"@,
        ),
{
    lemma_decimal_form(whole, fraction);
    lemma_seconds_of_form(whole, fraction, false);
    lemma_seconds_words();
}

/// A point in time is refused for the first of its fields, from the hours to the seconds, that is
/// wrong; then for what 64 bits do not hold; then for being nothing.
pub proof fn law_clock_refusals(input: Seq<char>, message: Seq<char>)
    requires
        text::trimmed(input).len() > 0,
    ensures
        ({
            let value = text::trimmed(input);
            let fields = text::split(value, ':');
            let refused = timestamp_of(input) == Err::<nat, Seq<char>>(message);
            &&& fields.len() == 1 && seconds_field(value, false) == Err::<nat, Seq<char>>(message)
                ==> refused
            &&& fields.len() == 1 && seconds_field(value, false) == Ok::<nat, Seq<char>>(0)
                && message == "拆分时间点必须大于 0"@ ==> refused
            &&& fields.len() == 2 && integer_field(fields[0], "分钟"@) == Err::<nat, Seq<char>>(
                message,
            ) ==> refused
            &&& fields.len() == 2 && integer_field(fields[0], "分钟"@) is Ok && seconds_field(
                fields[1],
                true,
            ) == Err::<nat, Seq<char>>(message) ==> refused
            &&& fields.len() == 3 && integer_field(fields[0], "小时"@) == Err::<nat, Seq<char>>(
                message,
            ) ==> refused
            &&& fields.len() == 3 && integer_field(fields[0], "小时"@) is Ok && integer_field(
                fields[1],
                "分钟"@,
            ) == Err::<nat, Seq<char>>(message) ==> refused
            &&& fields.len() == 3 && integer_field(fields[0], "小时"@) is Ok && integer_field(
                fields[1],
                "分钟"@,
            ) is Ok && text::number(fields[1]) >= 60 && message == "时间点 `"@ + value
                + "` 中的分钟必须小于 60"@ ==> refused
            &&& fields.len() == 3 && integer_field(fields[0], "小时"@) is Ok && integer_field(
                fields[1],
                "分钟"@,
            ) is Ok && text::number(fields[1]) < 60 && text::number(fields[0]) * 3_600_000
                <= 0xffff_ffff_ffff_ffff && seconds_field(fields[2], true) == Err::<
                nat,
                Seq<char>,
            >(message) ==> refused
            &&& fields.len() == 3 && integer_field(fields[0], "小时"@) is Ok && integer_field(
                fields[1],
                "分钟"@,
            ) is Ok && text::number(fields[1]) < 60 && text::number(fields[0]) * 3_600_000
                > 0xffff_ffff_ffff_ffff && message == "时间点 `"@ + value + "` 过大"@ ==> refused
        }),
{
    let value = text::trimmed(input);
    text::law_split_parts(value, ':');
    if text::split(value, ':').len() == 1 {
        text::law_join_split(value, ':');
        assert(text::split(value, ':')[0] == value);
    }
}

/// What is told where well-formed minutes or hours come to more than 64 bits hold, or to nothing.
pub proof fn law_clock_sums(input: Seq<char>, tail: nat)
    requires
        text::trimmed(input).len() > 0,
        text::split(text::trimmed(input), ':').len() == 2 || text::split(
            text::trimmed(input),
            ':',
        ).len() == 3,
        seconds_field(text::split(text::trimmed(input), ':').last(), true) == Ok::<nat, Seq<char>>(
            tail,
        ),
    ensures
        ({
            let value = text::trimmed(input);
            let fields = text::split(value, ':');
            let first = text::number(fields[0]);
            let second = text::number(fields[1]);
            &&& fields.len() == 2 && integer_field(fields[0], "分钟"@) is Ok && first * 60_000
                + tail > 0xffff_ffff_ffff_ffff ==> timestamp_of(input) == Err::<nat, Seq<char>>(
                "时间点过大"@,
            )
            &&& fields.len() == 2 && integer_field(fields[0], "分钟"@) is Ok && first * 60_000
                + tail == 0 ==> timestamp_of(input) == Err::<nat, Seq<char>>(
                "拆分时间点必须大于 0"@,
            )
            &&& fields.len() == 3 && integer_field(fields[0], "小时"@) is Ok && integer_field(
                fields[1],
                "分钟"@,
            ) is Ok && second < 60 && first * 3_600_000 + second * 60_000 + tail
                > 0xffff_ffff_ffff_ffff ==> timestamp_of(input) == Err::<nat, Seq<char>>(
                "时间点 `"@ + value + "` 过大"@,
            )
            &&& fields.len() == 3 && integer_field(fields[0], "小时"@) is Ok && integer_field(
                fields[1],
                "分钟"@,
            ) is Ok && first * 3_600_000 + second * 60_000 + tail == 0 ==> timestamp_of(input)
                == Err::<nat, Seq<char>>("拆分时间点必须大于 0"@)
        }),
{
}

/// What is told of a number of units: of more points than one, of its whole number, of its
/// decimals.
pub proof fn law_duration_refusals(number_text: Seq<char>, unit: nat, original: Seq<char>)
    ensures
        ({
            let parts = text::split(number_text, '.');
            let read = scaled_duration(number_text, unit, original);
            &&& parts.len() > 2 ==> read == Err::<nat, Seq<char>>(
                "分段时长 `"@ + original + "` 格式无效"@,
            )
            &&& parts.len() <= 2 && !text::is_number(parts[0]) ==> read == Err::<nat, Seq<char>>(
                "时长"@ + " `"@ + parts[0] + "` 不是有效整数"@,
            )
            &&& parts.len() <= 2 && text::is_number(parts[0]) && text::number(parts[0])
                > 0xffff_ffff_ffff_ffff ==> read == Err::<nat, Seq<char>>(
                "时长"@ + " `"@ + parts[0] + "` 过大"@,
            )
            &&& parts.len() == 2 && text::is_number(parts[0]) && text::number(parts[0])
                <= 0xffff_ffff_ffff_ffff && !is_fraction(parts[1]) ==> read == Err::<
                nat,
                Seq<char>,
            >("分段时长 `"@ + original + "` 最多支持 3 位小数"@)
        }),
{
    let parts = text::split(number_text, '.');
    text::law_split_parts(number_text, '.');
    if parts.len() == 2 && is_short_fraction(parts[1]) {
        assert forall|i: int| 0 <= i < parts[1].len() implies '0' <= #[trigger] parts[1][i]
            <= '9' by {
            assert(text::is_digit(parts[1][i]));
        }
    }
}

} // verus!
