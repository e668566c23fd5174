use vidsplice::time::{
    checked_millis, parse_integer, parse_scaled_duration, parse_seconds, SegmentDuration,
    Timestamp,
};

fn at(text: &str) -> u64 {
    Timestamp::from_str(text).unwrap().millis()
}

fn at_error(text: &str) -> String {
    Timestamp::from_str(text).unwrap_err().message().to_owned()
}

fn every(text: &str) -> u64 {
    SegmentDuration::from_str(text).unwrap().millis()
}

fn every_error(text: &str) -> String {
    SegmentDuration::from_str(text).unwrap_err().message().to_owned()
}

#[test]
fn points_in_time() {
    assert_eq!(at("30"), 30_000);
    assert_eq!(at("0.5"), 500);
    assert_eq!(at("0.05"), 50);
    assert_eq!(at("0.005"), 5);
    assert_eq!(at("90"), 90_000);
    assert_eq!(at("00:30"), 30_000);
    assert_eq!(at("01:20.500"), 80_500);
    assert_eq!(at("90:00"), 5_400_000);
    assert_eq!(at("01:02:03.4"), 3_723_400);
    assert_eq!(at(" 5 "), 5_000);
    assert_eq!("12:34".parse::<Timestamp>().unwrap().millis(), 754_000);
}

#[test]
fn points_in_time_that_are_none() {
    assert_eq!(at_error("  "), "时间点不能为空");
    assert_eq!(at_error("0"), "拆分时间点必须大于 0");
    assert_eq!(at_error("00:00:00.000"), "拆分时间点必须大于 0");
    assert_eq!(at_error("1:2:3:4"), "无效时间点 `1:2:3:4`，请使用 SS、MM:SS 或 HH:MM:SS");
    assert_eq!(at_error("a"), "秒 `a` 不是有效整数");
    assert_eq!(at_error("-1"), "秒 `-1` 不是有效整数");
    assert_eq!(at_error("+1"), "秒 `+1` 不是有效整数");
    assert_eq!(at_error(".5"), "秒 `` 不是有效整数");
    assert_eq!(at_error("x:10"), "分钟 `x` 不是有效整数");
    assert_eq!(at_error("x:1:10"), "小时 `x` 不是有效整数");
    assert_eq!(at_error("1:y:10"), "分钟 `y` 不是有效整数");
    assert_eq!(at_error("1:60"), "秒数 `60` 必须小于 60");
    assert_eq!(at_error("1:60:10"), "时间点 `1:60:10` 中的分钟必须小于 60");
    assert_eq!(at_error("1.2.3"), "秒数 `1.2.3` 格式无效");
    assert_eq!(at_error("1."), "秒数 `1.` 最多支持 3 位小数");
    assert_eq!(at_error("1.2345"), "秒数 `1.2345` 最多支持 3 位小数");
    assert_eq!(at_error("1.x"), "秒数 `1.x` 最多支持 3 位小数");
}

#[test]
fn points_in_time_that_are_too_large() {
    assert_eq!(at("18446744073709551.615"), u64::MAX);
    assert_eq!(at_error("18446744073709551.616"), "秒数 `18446744073709551.616` 过大");
    assert_eq!(at_error("18446744073709551616"), "秒 `18446744073709551616` 过大");
    assert_eq!(at_error("18446744073709551615:00"), "时间点过大");
    assert_eq!(
        at_error("5124095576031:00:00"),
        "时间点 `5124095576031:00:00` 过大"
    );
    assert_eq!(
        at_error("5124095576030:59:59.999"),
        "时间点 `5124095576030:59:59.999` 过大"
    );
    assert_eq!(
        at_error("18446744073709551616:00:00"),
        "小时 `18446744073709551616` 过大"
    );
}

#[test]
fn points_in_time_as_text() {
    let time = Timestamp::from_str("01:02:03.045").unwrap();
    assert_eq!(time.as_ffmpeg_seconds(), "3723.045");
    assert_eq!(time.to_string(), "01:02:03.045");
    let largest = Timestamp::from_str("18446744073709551.615").unwrap();
    assert_eq!(largest.to_string(), "5124095576030:25:51.615");
    assert_eq!(largest.as_ffmpeg_seconds(), "18446744073709551.615");
    assert!(Timestamp::from_str("1").unwrap() < Timestamp::from_str("2").unwrap());
}

#[test]
fn texts_of_points_in_time_are_read_back() {
    for text in ["0.001", "59.999", "1:00", "59:59.999", "1:00:00", "99:59:59.001"] {
        let time = Timestamp::from_str(text).unwrap();
        assert_eq!(Timestamp::from_str(&time.to_string()), Ok(time));
        assert_eq!(Timestamp::from_str(&time.as_ffmpeg_seconds()), Ok(time));
        assert_eq!(every(&time.to_string()), time.millis());
        assert_eq!(every(&time.as_ffmpeg_seconds()), time.millis());
    }
}

#[test]
fn durations() {
    assert_eq!(every("9m"), 540_000);
    assert_eq!(every("540s"), 540_000);
    assert_eq!(every("00:09:00"), 540_000);
    assert_eq!(every("1h"), 3_600_000);
    assert_eq!(every("1H"), 3_600_000);
    assert_eq!(every(" 1.5M "), 90_000);
    assert_eq!(every("0.001h"), 3_600);
    assert_eq!(every("0.125s"), 125);
    assert_eq!(every("7"), 7_000);
    assert_eq!("2m".parse::<SegmentDuration>().unwrap().as_ffmpeg_seconds(), "120.000");
}

#[test]
fn durations_that_are_none() {
    assert_eq!(every_error(""), "分段时长不能为空");
    assert_eq!(every_error("0s"), "分段时长必须大于 0");
    assert_eq!(every_error("0.000h"), "分段时长必须大于 0");
    assert_eq!(every_error("0"), "无效分段时长 `0`；请使用 9m、540s、1h 或 00:09:00");
    assert_eq!(every_error("5d"), "无效分段时长 `5d`；请使用 9m、540s、1h 或 00:09:00");
    assert_eq!(every_error("m"), "时长 `` 不是有效整数");
    assert_eq!(every_error("1.2.3m"), "分段时长 `1.2.3m` 格式无效");
    assert_eq!(every_error("1.2345m"), "分段时长 `1.2345m` 最多支持 3 位小数");
    assert_eq!(every_error("1.m"), "分段时长 `1.m` 最多支持 3 位小数");
    assert_eq!(
        every_error("18446744073709551615h"),
        "分段时长 `18446744073709551615h` 过大"
    );
    assert_eq!(
        every_error("18446744073709551616h"),
        "时长 `18446744073709551616` 过大"
    );
}

#[test]
fn whole_numbers_of_units() {
    for (letter, millis) in [('s', 1_000), ('m', 60_000), ('h', 3_600_000)] {
        for count in [1_u64, 17, 100_000] {
            assert_eq!(every(&format!("{count}{letter}")), count * millis);
        }
    }
}

#[test]
fn fields() {
    assert_eq!(parse_integer("012", "分钟"), Ok(12));
    assert_eq!(parse_seconds("59.9", true), Ok(59_900));
    assert_eq!(parse_seconds("61", false), Ok(61_000));
    assert_eq!(checked_millis(2, 60_000, 5), Ok(120_005));
    assert_eq!(checked_millis(u64::MAX, 2, 0).unwrap_err().message(), "时间点过大");
    assert_eq!(checked_millis(u64::MAX, 1, 1).unwrap_err().message(), "时间点过大");
    assert_eq!(parse_scaled_duration("1.25", 60_000, "1.25m"), Ok(75_000));
    assert_eq!(parse_scaled_duration("0.001", 500, "x"), Ok(0));
    assert_eq!(
        parse_scaled_duration("0.999", u64::MAX, "x").unwrap_err().message(),
        "分段时长 `x` 过大"
    );
}
