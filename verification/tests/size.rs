use vidsplice::size::{parse_decimal_bytes, TargetSize};

fn size(text: &str) -> u64 {
    TargetSize::from_str(text).unwrap().bytes()
}

fn size_error(text: &str) -> String {
    TargetSize::from_str(text).unwrap_err().message().to_owned()
}

#[test]
fn sizes() {
    assert_eq!(size("100MB"), 100_000_000);
    assert_eq!(size("100MiB"), 104_857_600);
    assert_eq!(size("1b"), 1);
    assert_eq!(size("2kb"), 2_000);
    assert_eq!(size("3GB"), 3_000_000_000);
    assert_eq!(size("2KIB"), 2_048);
    assert_eq!(size("1gib"), 1_073_741_824);
    assert_eq!(size(" 1.5kb "), 1_500);
    assert_eq!(size("0.001KiB"), 1);
    assert_eq!(size("1.999KiB"), 1_024 + 1_022);
    assert_eq!("7B".parse::<TargetSize>().unwrap().bytes(), 7);
    assert_eq!(size("18446744073709551615B"), u64::MAX);
}

#[test]
fn whole_numbers_of_size_units() {
    for (unit, bytes) in [("B", 1), ("kB", 1_000), ("MiB", 1_048_576), ("gb", 1_000_000_000)] {
        for count in [1_u64, 12, 9_999] {
            assert_eq!(size(&format!("{count}{unit}")), count * bytes);
            assert_eq!(size(&format!(" {count}{unit}\t")), count * bytes);
        }
    }
}

#[test]
fn sizes_that_are_none() {
    assert_eq!(size_error(" "), "目标分片大小不能为空");
    assert_eq!(size_error("0MB"), "目标分片大小必须大于 0 字节");
    assert_eq!(size_error("0.5B"), "目标分片大小必须大于 0 字节");
    assert_eq!(size_error("100"), "无效大小单位 ``；支持 B、KB、MB、GB、KiB、MiB、GiB");
    assert_eq!(size_error("1 MB"), "无效大小单位 ` MB`；支持 B、KB、MB、GB、KiB、MiB、GiB");
    assert_eq!(size_error("1TB"), "无效大小单位 `TB`；支持 B、KB、MB、GB、KiB、MiB、GiB");
    assert_eq!(size_error("-1MB"), "无效大小单位 `-1MB`；支持 B、KB、MB、GB、KiB、MiB、GiB");
    assert_eq!(size_error("MB"), "目标大小 `MB` 格式无效");
    assert_eq!(size_error(".5MB"), "目标大小 `.5MB` 格式无效");
    assert_eq!(size_error("1.2.3MB"), "目标大小 `1.2.3MB` 格式无效");
    assert_eq!(size_error("1.MB"), "目标大小 `1.MB` 最多支持 3 位小数");
    assert_eq!(size_error("1.2345MB"), "目标大小 `1.2345MB` 最多支持 3 位小数");
    assert_eq!(size_error("18446744073709551616B"), "目标大小 `18446744073709551616B` 过大");
    assert_eq!(size_error("18446744073709551615KB"), "目标大小 `18446744073709551615KB` 过大");
}

#[test]
fn decimal_bytes_at_the_limit() {
    assert_eq!(parse_decimal_bytes("1.5", 10, "x"), Ok(15));
    assert_eq!(
        parse_decimal_bytes("0.999", u64::MAX, "x").unwrap_err().message(),
        "目标大小 `x` 过大"
    );
    assert_eq!(
        parse_decimal_bytes("9223372036854775807.5", 2, "x"),
        Ok(u64::MAX)
    );
    assert_eq!(
        parse_decimal_bytes("9223372036854775808", 2, "x").unwrap_err().message(),
        "目标大小 `x` 过大"
    );
}
