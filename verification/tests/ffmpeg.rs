use vidsplice::ffmpeg::{
    display_command, ensure_available, ensure_program, parse_packet, parse_probe_time_micros,
    parse_reference_stream, parse_stream_number, probe_result, read_packet_layout, run_result,
    shell_quote, single_quote, start_error, stream_error, LayoutReader, PacketLayout,
    ProgramOutcome, StreamReport,
};

fn lines(texts: &[&str]) -> Vec<String> {
    texts.iter().map(|text| text.to_string()).collect()
}

fn packet(stream: u32, time: &str, size: u64, flags: &str) -> String {
    format!("stream_index={stream}|pts_time={time}|size={size}|flags={flags}")
}

fn layout_error(texts: &[&str]) -> String {
    read_packet_layout(&lines(texts), 0).unwrap_err().message().to_owned()
}

#[test]
fn times_of_packets() {
    assert_eq!(parse_probe_time_micros("1.5", 1), Ok(1_500_000));
    assert_eq!(parse_probe_time_micros("-0.000001", 1), Ok(-1));
    assert_eq!(parse_probe_time_micros("7", 1), Ok(7_000_000));
    assert_eq!(parse_probe_time_micros("7.", 1), Ok(7_000_000));
    assert_eq!(parse_probe_time_micros("0.123456", 1), Ok(123_456));
    assert_eq!(parse_probe_time_micros("9223372036854.775807", 1), Ok(i64::MAX));
    assert_eq!(parse_probe_time_micros("-9223372036854.775808", 1), Ok(i64::MIN));
}

#[test]
fn times_of_packets_that_are_none() {
    for value in ["", "-", ".5", "1.2.3", "1.0000001", "x", "1.x", "--1", "+1"] {
        assert_eq!(
            parse_probe_time_micros(value, 3).unwrap_err().message(),
            format!("第 3 个媒体包的时间戳 `{value}` 无效")
        );
    }
    for value in [
        "9223372036854.775808",
        "-9223372036854.775809",
        "99999999999999999999",
        "999999999999999999999999999999999999999999999999",
    ] {
        assert_eq!(
            parse_probe_time_micros(value, 12).unwrap_err().message(),
            format!("第 12 个媒体包的时间戳 `{value}` 过大")
        );
    }
}

#[test]
fn packets() {
    let read = parse_packet("stream_index=1|pts_time=0.04|size=12|flags=K__", 1).unwrap();
    assert_eq!(read.stream_index, 1);
    assert_eq!(read.pts_micros, Some(40_000));
    assert_eq!(read.size, 12);
    assert_eq!(read.flags, "K__");
    let read = parse_packet("other|x=1|size=+5|stream_index=2|pts_time=N/A|size=6", 1).unwrap();
    assert_eq!(read.stream_index, 2);
    assert_eq!(read.pts_micros, None);
    assert_eq!(read.size, 6);
    assert_eq!(read.flags, "");
    let read = parse_packet("stream_index=0|size=1|flags=a=b", 1).unwrap();
    assert_eq!(read.flags, "a=b");
    let read = parse_packet("stream_index=0|size=1|pts_time=1|pts_time=N/A", 1).unwrap();
    assert_eq!(read.pts_micros, Some(1_000_000));
}

#[test]
fn packets_that_are_none() {
    for (line, message) in [
        ("size=1", "第 4 个媒体包缺少流编号"),
        ("stream_index=1", "第 4 个媒体包缺少大小"),
        ("", "第 4 个媒体包缺少流编号"),
        ("stream_index=x|size=y", "第 4 个媒体包的流编号无效"),
        ("stream_index=4294967296|size=1", "第 4 个媒体包的流编号无效"),
        ("size=-1|stream_index=1", "第 4 个媒体包的大小无效"),
        ("size=18446744073709551616", "第 4 个媒体包的大小无效"),
        ("pts_time=a", "第 4 个媒体包的时间戳 `a` 无效"),
    ] {
        assert_eq!(parse_packet(line, 4).unwrap_err().message(), message);
    }
}

#[test]
fn layouts() {
    let report = lines(&[
        &packet(0, "10.000000", 100, "K__"),
        &packet(1, "10.000000", 7, "K__"),
        "",
        &packet(0, "10.500000", 50, "__"),
        &packet(0, "N/A", 1, "K__"),
        &packet(0, "12.000000", 200, "K__"),
        &packet(0, "11.000000", 10, "K__"),
        &packet(0, "9.000000", 10, "K__"),
        &packet(0, "14.000000", 5, "K__"),
    ]);
    let layout = read_packet_layout(&report, 0).unwrap();
    assert_eq!(layout.total_payload_bytes, 383);
    let found: Vec<(u64, u128)> = layout
        .keyframes
        .iter()
        .map(|boundary| (boundary.elapsed_micros, boundary.payload_offset))
        .collect();
    assert_eq!(found, vec![(2_000_000, 158), (4_000_000, 378)]);
    for pair in found.windows(2) {
        assert!(pair[0].0 < pair[1].0 && pair[0].1 <= pair[1].1);
    }
    let layout = read_packet_layout(&report, 1).unwrap();
    assert_eq!(layout.total_payload_bytes, 383);
    assert!(layout.keyframes.is_empty());
}

#[test]
fn the_time_since_the_first_key_frame_is_bounded() {
    let report = lines(&[
        &packet(0, "-9223372036854.775808", 1, "K"),
        &packet(0, "9223372036854.775807", 1, "K"),
    ]);
    let layout = read_packet_layout(&report, 0).unwrap();
    assert_eq!(layout.keyframes[0].elapsed_micros, i64::MAX as u64);
}

#[test]
fn layouts_that_are_none() {
    assert_eq!(layout_error(&[]), "ffprobe 未返回可用的媒体包");
    assert_eq!(layout_error(&["", ""]), "ffprobe 未返回可用的媒体包");
    assert_eq!(layout_error(&[&packet(0, "1", 0, "K")]), "ffprobe 未返回可用的媒体包");
    assert_eq!(layout_error(&[&packet(0, "1", 5, "_")]), "第一视频流中没有带时间戳的关键帧");
    assert_eq!(layout_error(&[&packet(0, "N/A", 5, "K")]), "第一视频流中没有带时间戳的关键帧");
    assert_eq!(layout_error(&[&packet(0, "1", 5, "K"), "", "x"]), "第 3 个媒体包缺少流编号");
}

#[test]
fn reading_line_by_line() {
    let reader = LayoutReader::new(3);
    assert_eq!(reader.reference_stream(), 3);
    assert_eq!(reader.packet_number(), 0);
    let reader = reader.read_line(&packet(3, "0", 9, "K")).unwrap();
    assert_eq!(reader.packet_number(), 1);
    assert_eq!(
        reader.read_failure("stream did not contain valid UTF-8").message(),
        "读取 ffprobe 第 2 个媒体包失败：stream did not contain valid UTF-8"
    );
    let layout = reader.finish().unwrap();
    assert_eq!(layout.total_payload_bytes, 9);
}

#[test]
fn programs() {
    let gone = ProgramOutcome::Failed("No such file".to_owned());
    let fine = ProgramOutcome::Exited(true, "exit status: 0".to_owned());
    let bad = ProgramOutcome::Exited(false, "exit status: 1".to_owned());
    assert_eq!(ensure_program("ffprobe", "ffprobe", "FFPROBE_BIN", &fine), Ok(()));
    assert_eq!(ensure_available("ffmpeg", &fine), Ok(()));
    assert_eq!(
        ensure_available("/x/ffmpeg", &gone).unwrap_err().message(),
        "无法运行 `/x/ffmpeg`：No such file。请安装 FFmpeg 或设置 FFMPEG_BIN"
    );
    assert_eq!(
        ensure_program("p", "ffprobe", "FFPROBE_BIN", &gone).unwrap_err().message(),
        "无法运行 `p`：No such file。请安装 ffprobe 或设置 FFPROBE_BIN"
    );
    assert_eq!(
        ensure_available("ffmpeg", &bad).unwrap_err().message(),
        "`ffmpeg` 不可用（退出状态：exit status: 1）"
    );
    assert_eq!(run_result("ffmpeg", &fine), Ok(()));
    assert_eq!(
        run_result("ffmpeg", &gone).unwrap_err().message(),
        "启动 `ffmpeg` 失败：No such file"
    );
    assert_eq!(start_error("a", "b").message(), "启动 `a` 失败：b");
    assert_eq!(
        run_result("ffmpeg", &bad).unwrap_err().message(),
        "FFmpeg 执行失败（退出状态：exit status: 1）"
    );
}

fn some_layout() -> PacketLayout {
    PacketLayout {
        total_payload_bytes: 5,
        keyframes: Vec::new(),
    }
}

#[test]
fn results_of_probing() {
    let gone = ProgramOutcome::Failed("gone".to_owned());
    let fine = ProgramOutcome::Exited(true, "exit status: 0".to_owned());
    let bad = ProgramOutcome::Exited(false, "signal: 9".to_owned());
    let unread = || parse_packet("", 1).map(|_| some_layout());
    assert_eq!(probe_result(Ok(some_layout()), &fine).unwrap().total_payload_bytes, 5);
    assert_eq!(
        probe_result(Ok(some_layout()), &bad).unwrap_err().message(),
        "ffprobe 分析失败（退出状态：signal: 9）"
    );
    assert_eq!(
        probe_result(Ok(some_layout()), &gone).unwrap_err().message(),
        "等待 ffprobe 结束失败：gone"
    );
    for outcome in [&fine, &bad] {
        assert_eq!(
            probe_result(unread(), outcome).unwrap_err().message(),
            "第 1 个媒体包缺少流编号"
        );
    }
    assert_eq!(
        probe_result(unread(), &gone).unwrap_err().message(),
        "等待 ffprobe 结束失败：gone"
    );
}

fn report(success: bool, stdout: &[u8], stderr: &[u8]) -> StreamReport {
    StreamReport::Finished {
        success,
        status: "exit status: 1".to_owned(),
        stdout: stdout.to_vec(),
        stderr: stderr.to_vec(),
    }
}

fn stream_failure(report: StreamReport) -> String {
    parse_reference_stream("ffprobe", report).unwrap_err().message().to_owned()
}

#[test]
fn reference_streams() {
    assert_eq!(parse_reference_stream("ffprobe", report(true, b"0\n", b"")), Ok(0));
    assert_eq!(parse_reference_stream("ffprobe", report(true, b"\r\n  2 \r\n3\n", b"")), Ok(2));
    assert_eq!(parse_stream_number("4294967295"), Ok(u32::MAX));
    assert_eq!(
        stream_failure(StreamReport::NotStarted("x".to_owned())),
        "启动 `ffprobe` 失败：x"
    );
    assert_eq!(stream_failure(report(true, b"\n \n", b"")), "按大小分片需要至少一个视频流");
    assert_eq!(stream_failure(report(true, b"", b"")), "按大小分片需要至少一个视频流");
    assert_eq!(stream_failure(report(true, b"v\n", b"")), "ffprobe 返回了无效的视频流编号");
    assert_eq!(
        stream_failure(report(true, b"4294967296\n", b"")),
        "ffprobe 返回了无效的视频流编号"
    );
    assert_eq!(
        stream_failure(report(true, b"0\xff\n", b"")),
        "ffprobe 返回了非 UTF-8 的视频流信息"
    );
    assert_eq!(
        stream_failure(report(true, "流\n".as_bytes(), b"")),
        "ffprobe 返回了无效的视频流编号"
    );
}

#[test]
fn error_output_of_ffprobe() {
    assert_eq!(
        stream_failure(report(false, b"0\n", " 打不开\n".as_bytes())),
        "ffprobe 无法读取视频流（退出状态：exit status: 1）：打不开"
    );
    assert_eq!(
        stream_failure(report(false, b"", b"bad \xff\xfe byte\n")),
        "ffprobe 无法读取视频流（退出状态：exit status: 1）：bad \u{fffd}\u{fffd} byte"
    );
    assert_eq!(
        stream_error("s", " d ").message(),
        "ffprobe 无法读取视频流（退出状态：s）：d"
    );
}

/// The words of a line, as a shell reads them.
fn words(line: &str) -> Vec<String> {
    let mut words = Vec::new();
    let mut word: Option<String> = None;
    let mut inside = false;
    let mut chars = line.chars();
    while let Some(c) = chars.next() {
        if c == '\'' {
            inside = !inside;
            word.get_or_insert_with(String::new);
        } else if inside {
            word.get_or_insert_with(String::new).push(c);
        } else if c == ' ' {
            words.extend(word.take());
        } else if c == '\\' {
            let next = chars.next().unwrap();
            word.get_or_insert_with(String::new).push(next);
        } else {
            word.get_or_insert_with(String::new).push(c);
        }
    }
    assert!(!inside);
    words.extend(word);
    words
}

#[test]
fn quoting() {
    assert_eq!(shell_quote("a-b_c./:=+,Z9"), "a-b_c./:=+,Z9");
    assert_eq!(shell_quote(""), "''");
    assert_eq!(shell_quote("a b"), "'a b'");
    assert_eq!(shell_quote("it's"), "'it'\\''s'");
    assert_eq!(shell_quote("影"), "'影'");
    assert_eq!(single_quote("plain"), "'plain'");
    assert_eq!(single_quote("''"), "''\\'''\\'''");
    for value in ["", "'", "a b", "it's 'so'", "\\", "x;$(y)", "-n"] {
        assert_eq!(words(&shell_quote(value)), vec![value.to_owned()]);
        assert_eq!(words(&single_quote(value)), vec![value.to_owned()]);
    }
}

#[test]
fn command_lines() {
    assert_eq!(display_command("ffmpeg", &[]), "ffmpeg");
    let args = lines(&["-i", "my movie.mp4", "it's.mp4", ""]);
    let line = display_command("/opt/ff mpeg", &args);
    assert_eq!(line, "'/opt/ff mpeg' -i 'my movie.mp4' 'it'\\''s.mp4' ''");
    let mut expected = vec!["/opt/ff mpeg".to_owned()];
    expected.extend(args);
    assert_eq!(words(&line), expected);
}
