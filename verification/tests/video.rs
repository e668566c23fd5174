use vidsplice::ffmpeg::{parse_probe_time_micros, KeyframeBoundary, PacketLayout};
use vidsplice::time::Timestamp;
use vidsplice::video::{
    choose_size_split_times, closest_boundary, discover_periodic_outputs,
    ensure_strictly_increasing, format_micros, matching_numbered_outputs, numbered_output_index,
    output_file_name, output_file_names, overwrite_flag, reject_split_input_collision,
    require_input_file, segment_pattern, utf8_component, NamePart,
};

fn layout(total: u128, boundaries: &[(u64, u128)]) -> PacketLayout {
    PacketLayout {
        total_payload_bytes: total,
        keyframes: boundaries
            .iter()
            .map(|(seconds, offset)| KeyframeBoundary {
                elapsed_micros: seconds * 1_000_000,
                payload_offset: *offset,
            })
            .collect(),
    }
}

fn cuts(total: u128, boundaries: &[(u64, u128)], target: u64, size: u64) -> Vec<String> {
    choose_size_split_times(&layout(total, boundaries), target, size).unwrap()
}

fn times(texts: &[&str]) -> Vec<Timestamp> {
    texts
        .iter()
        .map(|text| Timestamp::from_str(text).unwrap())
        .collect()
}

fn names(texts: &[&str]) -> Vec<Option<String>> {
    texts.iter().map(|text| Some(text.to_string())).collect()
}

#[test]
fn microseconds_as_text() {
    assert_eq!(format_micros(0), "0.000000");
    assert_eq!(format_micros(1_500_000), "1.500000");
    assert_eq!(format_micros(12), "0.000012");
    assert_eq!(format_micros(u64::MAX), "18446744073709.551615");
    for micros in [0, 1, 999_999, 1_000_000, i64::MAX as u64] {
        assert_eq!(
            parse_probe_time_micros(&format_micros(micros), 1),
            Ok(micros as i64)
        );
    }
}

#[test]
fn even_cuts() {
    let boundaries = [(1, 100), (2, 200), (3, 300), (4, 400), (5, 500)];
    assert_eq!(cuts(600, &boundaries, 200, 600), vec!["2.000000", "4.000000"]);
    assert_eq!(cuts(600, &boundaries, 100, 600).len(), 5);
    assert_eq!(cuts(600, &boundaries, 300, 600), vec!["3.000000"]);
    // The container is larger than its payload, so the goal is smaller than the target.
    assert_eq!(cuts(600, &boundaries, 400, 1_200), vec!["2.000000", "4.000000"]);
}

#[test]
fn a_small_file_is_not_cut() {
    assert!(cuts(600, &[(1, 300)], 600, 600).is_empty());
    assert!(cuts(0, &[], 7, 7).is_empty());
    assert!(cuts(600, &[], 10, 600).is_empty());
}

#[test]
fn the_closest_boundary_is_taken() {
    assert_eq!(cuts(1_000, &[(1, 390), (2, 450)], 400, 1_000)[0], "1.000000");
    assert_eq!(cuts(1_000, &[(1, 340), (2, 450)], 400, 1_000)[0], "2.000000");
    // Equally close: the earlier one.
    assert_eq!(cuts(1_000, &[(1, 350), (2, 450)], 400, 1_000)[0], "1.000000");
    assert_eq!(
        closest_boundary(&layout(0, &[(1, 350), (2, 450)]).keyframes, 400, Some(0), Some(1)),
        Some(0)
    );
    assert_eq!(
        closest_boundary(&layout(0, &[(1, 349), (2, 450)]).keyframes, 400, Some(0), Some(1)),
        Some(1)
    );
    assert_eq!(closest_boundary(&[], 400, None, None), None);
    assert_eq!(
        closest_boundary(&layout(0, &[(1, 349)]).keyframes, 400, None, Some(0)),
        Some(0)
    );
    assert_eq!(
        closest_boundary(&layout(0, &[(1, 349)]).keyframes, 400, Some(0), None),
        Some(0)
    );
}

#[test]
fn the_last_segment_is_not_too_short() {
    // The closest boundary leaves less than half of the goal, the one before it leaves enough.
    assert_eq!(cuts(1_000, &[(1, 600), (2, 850)], 800, 1_000), vec!["1.000000"]);
    // There is none before it.
    assert!(cuts(1_000, &[(2, 850)], 800, 1_000).is_empty());
    // The closest is the one before the goal.
    assert!(cuts(1_000, &[(1, 100), (2, 790)], 800, 1_000).is_empty());
    // Exactly half of the goal is enough.
    assert_eq!(cuts(1_000, &[(2, 600)], 800, 1_000), vec!["2.000000"]);
}

#[test]
fn boundaries_without_payload_between_them() {
    assert_eq!(
        cuts(400, &[(1, 0), (2, 200), (3, 200), (4, 300)], 100, 400),
        vec!["2.000000", "4.000000"]
    );
}

#[test]
fn goals_that_cannot_be_computed() {
    let message = "无法根据媒体包计算目标分片大小";
    assert_eq!(
        choose_size_split_times(&layout(0, &[]), 1, 2).unwrap_err().message(),
        message
    );
    assert_eq!(
        choose_size_split_times(&layout(1, &[]), 1, 2).unwrap_err().message(),
        message
    );
    assert_eq!(
        choose_size_split_times(&layout(u128::MAX, &[]), 2, 3).unwrap_err().message(),
        message
    );
}

#[test]
fn points_in_time_in_order() {
    assert_eq!(ensure_strictly_increasing(&[]), Ok(()));
    assert_eq!(ensure_strictly_increasing(&times(&["1"])), Ok(()));
    assert_eq!(ensure_strictly_increasing(&times(&["1", "2", "1:00"])), Ok(()));
    assert_eq!(
        ensure_strictly_increasing(&times(&["1", "3", "2", "1"])).unwrap_err().message(),
        "拆分点必须严格递增，但 00:00:03.000 不早于 00:00:02.000"
    );
    assert_eq!(
        ensure_strictly_increasing(&times(&["1.5", "1.5"])).unwrap_err().message(),
        "拆分点必须严格递增，但 00:00:01.500 不早于 00:00:01.500"
    );
}

#[test]
fn names_of_outputs() {
    assert_eq!(output_file_name("movie", 1, "mp4"), "movie-001.mp4");
    assert_eq!(output_file_name("movie", 1_000, "mp4"), "movie-1000.mp4");
    assert_eq!(output_file_names("m", &vec![2, 10], "ts"), vec!["m-002.ts", "m-010.ts"]);
    for index in [1_usize, 9, 99, 999, 1_000, usize::MAX] {
        let name = output_file_name("m", index as u128, "mp4");
        assert_eq!(numbered_output_index(&name, "m-", ".mp4"), Some(index));
    }
}

#[test]
fn names_that_are_no_outputs() {
    for name in [
        "m-000.mp4", "m-01.mp4", "m-0001.mp4", "m-.mp4", "m-0a1.mp4", "n-001.mp4", "m-001.mkv",
        "m-001", "M-001.mp4", "m-+01.mp4", "m-18446744073709551616.mp4", "", "m-１２３.mp4",
    ] {
        assert_eq!(numbered_output_index(name, "m-", ".mp4"), None, "{name}");
    }
}

#[test]
fn outputs_in_a_directory() {
    let mut found = names(&["m-010.mp4", "x", "m-002.mp4", "m-1000.mp4", "m-000.mp4"]);
    found.push(None);
    found.push(Some("m-001.mp4".to_owned()));
    assert_eq!(matching_numbered_outputs(&found, "m", "mp4"), vec![1, 2, 10, 1_000]);
    assert!(matching_numbered_outputs(&vec![None], "m", "mp4").is_empty());
}

#[test]
fn discovered_segments() {
    assert_eq!(
        discover_periodic_outputs(&names(&["m-002.mp4", "note", "m-001.mp4"]), "d", "m", "mp4"),
        Ok(vec!["m-001.mp4".to_owned(), "m-002.mp4".to_owned()])
    );
    assert_eq!(
        discover_periodic_outputs(&names(&["note"]), "out/d", "m", "mp4").unwrap_err().message(),
        "FFmpeg 未在 `out/d` 中生成任何分段"
    );
    assert_eq!(
        discover_periodic_outputs(&names(&["m-001.mp4", "m-003.mp4"]), "d", "m", "mp4")
            .unwrap_err()
            .message(),
        "输出分段编号不连续：预期 002，实际为 003"
    );
    assert_eq!(
        discover_periodic_outputs(&names(&["m-1000.mp4"]), "d", "m", "mp4")
            .unwrap_err()
            .message(),
        "输出分段编号不连续：预期 001，实际为 1000"
    );
}

/// A pattern with a number filled in, as FFmpeg does it.
fn filled_in(pattern: &str, number: usize) -> String {
    pattern
        .split("%%")
        .map(|part| part.replace("%03d", &format!("{number:03}")))
        .collect::<Vec<_>>()
        .join("%")
}

#[test]
fn patterns() {
    assert_eq!(
        segment_pattern(Some("out"), "/", "m", "mp4").unwrap(),
        "out/m-%03d.mp4"
    );
    let pattern = segment_pattern(Some("50% off"), "\\", "100%%", "m%4").unwrap();
    assert_eq!(pattern, "50%% off\\100%%%%-%03d.m%%4");
    assert_eq!(
        filled_in(&pattern, 7),
        format!("50% off\\{}", output_file_name("100%%", 7, "m%4"))
    );
    assert_eq!(
        segment_pattern(None, "/", "m", "mp4").unwrap_err().message(),
        "FFmpeg segment 输出目录必须是有效 UTF-8 路径"
    );
    assert_eq!(overwrite_flag(true), "-y");
    assert_eq!(overwrite_flag(false), "-n");
}

#[test]
fn components() {
    let text = NamePart::Text("mp4".to_owned());
    assert_eq!(utf8_component(&text, "none"), Ok("mp4".to_owned()));
    assert_eq!(
        utf8_component(&NamePart::Missing, "none").unwrap_err().message(),
        "none"
    );
    assert_eq!(
        utf8_component(&NamePart::NotUnicode, "none").unwrap_err().message(),
        "文件名和扩展名必须是有效 UTF-8 文本"
    );
}

#[test]
fn inputs() {
    assert_eq!(require_input_file("a", true), Ok(()));
    assert_eq!(
        require_input_file("a/b", false).unwrap_err().message(),
        "输入文件 `a/b` 不存在或不是普通文件"
    );
    let output = NamePart::Text("m-001.mp4".to_owned());
    let other = NamePart::Text("m.mp4".to_owned());
    assert_eq!(reject_split_input_collision("x", &other, true, "m", "mp4"), Ok(()));
    assert_eq!(reject_split_input_collision("x", &output, false, "m", "mp4"), Ok(()));
    assert_eq!(reject_split_input_collision("x", &output, true, "n", "mp4"), Ok(()));
    assert_eq!(
        reject_split_input_collision("d/m-001.mp4", &output, true, "m", "mp4")
            .unwrap_err()
            .message(),
        "输入文件 `d/m-001.mp4` 与拆分输出命名范围冲突；请更换 --output-dir 或 --prefix"
    );
    for part in [NamePart::Missing, NamePart::NotUnicode] {
        assert_eq!(
            reject_split_input_collision("x", &part, false, "m", "mp4").unwrap_err().message(),
            "输入文件名必须是有效 UTF-8 文本"
        );
    }
}
