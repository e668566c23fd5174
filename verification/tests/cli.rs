use std::path::PathBuf;

use vidsplice::cli::{
    parse, parse_concat, parse_split, validate_prefix, Action, Argument, Command, ConcatArgs,
    SplitArgs, SplitMode, HELP,
};

fn args(texts: &[&str]) -> Vec<Argument> {
    texts
        .iter()
        .map(|text| Argument {
            text: text.to_string(),
            unicode: true,
            path: PathBuf::from(text),
        })
        .collect()
}

fn broken(text: &str) -> Argument {
    Argument {
        text: text.to_string(),
        unicode: false,
        path: PathBuf::from(text),
    }
}

fn split(texts: &[&str]) -> SplitArgs {
    parse_split(&args(texts)).unwrap()
}

fn split_error(texts: &[&str]) -> String {
    parse_split(&args(texts)).unwrap_err().message().to_owned()
}

fn concat(texts: &[&str]) -> ConcatArgs {
    parse_concat(&args(texts)).unwrap()
}

fn concat_error(texts: &[&str]) -> String {
    parse_concat(&args(texts)).unwrap_err().message().to_owned()
}

fn times(request: &SplitArgs) -> Vec<u64> {
    match &request.mode {
        SplitMode::At(times) => times.iter().map(|time| time.millis()).collect(),
        other => panic!("{other:?}"),
    }
}

#[test]
fn split_at_points_in_time() {
    let request = split(&["movie.mp4", "--at", "00:30", "--at", "01:20.500"]);
    assert_eq!(request.input, PathBuf::from("movie.mp4"));
    assert_eq!(times(&request), vec![30_000, 80_500]);
    assert_eq!(request.output_dir, None);
    assert_eq!(request.prefix, None);
    assert!(!request.overwrite);
}

#[test]
fn points_in_time_with_commas_or_one_by_one() {
    let apart = split(&["-t", "1,2", "-t", "3", "movie.mp4"]);
    let together = split(&["-t", "1,2,3", "movie.mp4"]);
    assert_eq!(times(&apart), vec![1_000, 2_000, 3_000]);
    assert_eq!(times(&together), times(&apart));
    assert_eq!(split_error(&["-t", "1,x,y", "a"]), "秒 `x` 不是有效整数");
    assert_eq!(split_error(&["-t", "1", "-t", "x,y", "a"]), "秒 `x` 不是有效整数");
    assert_eq!(split_error(&["-t", "1,", "a"]), "时间点不能为空");
}

#[test]
fn split_by_duration_and_by_size() {
    match split(&["movie.mp4", "--every", "9m"]).mode {
        SplitMode::Every(duration) => assert_eq!(duration.millis(), 540_000),
        other => panic!("{other:?}"),
    }
    match split(&["movie.mp4", "--size", "100MB"]).mode {
        SplitMode::Size(size) => assert_eq!(size.bytes(), 100_000_000),
        other => panic!("{other:?}"),
    }
}

#[test]
fn other_options_of_split() {
    let request = split(&[
        "-o", "first", "--output-dir", "out", "--prefix", "p", "--prefix", "part", "-y", "-t",
        "1", "movie.mp4",
    ]);
    assert_eq!(request.output_dir, Some(PathBuf::from("out")));
    assert_eq!(request.prefix.as_deref(), Some("part"));
    assert!(request.overwrite);
    assert!(split(&["--overwrite", "-t", "1", "movie.mp4"]).overwrite);
}

#[test]
fn after_two_dashes_all_is_input() {
    let request = split(&["-t", "1", "--", "--every"]);
    assert_eq!(request.input, PathBuf::from("--every"));
    assert_eq!(times(&request), vec![1_000]);
    let request = split(&["-t", "1", "--", "--"]);
    assert_eq!(request.input, PathBuf::from("--"));
    assert_eq!(
        split_error(&["-t", "1", "--", "-y", "b"]),
        "split 只能指定一个输入视频"
    );
}

#[test]
fn an_option_takes_the_next_argument_whatever_it_is() {
    assert_eq!(
        split(&["-o", "--", "-t", "1", "a"]).output_dir,
        Some(PathBuf::from("--"))
    );
}

#[test]
fn exactly_one_mode() {
    assert_eq!(split_error(&["a"]), "split 必须指定 --at、--every 或 --size");
    for options in [
        ["-t", "1", "--every", "1s"],
        ["-t", "1", "--size", "1B"],
        ["--every", "1s", "--size", "1B"],
    ] {
        let mut all = vec!["a"];
        all.extend(options);
        assert_eq!(split_error(&all), "--at、--every 与 --size 不能同时使用");
    }
}

#[test]
fn what_split_refuses() {
    assert_eq!(split_error(&["-t", "1"]), "split 缺少输入视频");
    assert_eq!(split_error(&[]), "split 缺少输入视频");
    assert_eq!(split_error(&["a", "b", "-t", "1"]), "split 只能指定一个输入视频");
    assert_eq!(split_error(&["a", "-x"]), "split 的未知选项 `-x`");
    assert_eq!(split_error(&["a", "-"]), "split 的未知选项 `-`");
    for option in ["-t", "--at", "--every", "--size", "-o", "--output-dir", "--prefix"] {
        assert_eq!(split_error(&["a", option]), format!("选项 `{option}` 缺少值"));
    }
    assert_eq!(
        split_error(&["--every", "1s", "--every"]),
        "--every 只能指定一次"
    );
    assert_eq!(
        split_error(&["--size", "1B", "--size", "x"]),
        "--size 只能指定一次"
    );
    assert_eq!(split_error(&["--size", "0B"]), "目标分片大小必须大于 0 字节");
    assert_eq!(split_error(&["--every", "0s"]), "分段时长必须大于 0");
}

#[test]
fn values_that_are_not_unicode() {
    for (option, message) in [
        ("-t", "时间点必须是有效 UTF-8 文本"),
        ("--at", "时间点必须是有效 UTF-8 文本"),
        ("--every", "分段时长必须是有效 UTF-8 文本"),
        ("--size", "目标大小必须是有效 UTF-8 文本"),
        ("--prefix", "输出前缀必须是有效 UTF-8 文本"),
    ] {
        let mut all = args(&[option]);
        all.push(broken("1"));
        assert_eq!(parse_split(&all).unwrap_err().message(), message);
    }
    let mut all = args(&["-t", "1", "-o"]);
    all.push(broken("out\u{fffd}"));
    all.push(broken("in\u{fffd}"));
    let request = parse_split(&all).unwrap();
    assert_eq!(request.input, PathBuf::from("in\u{fffd}"));
}

#[test]
fn prefixes() {
    let message = "输出前缀不能为空、`.`、`..`，也不能包含路径分隔符";
    for prefix in ["", ".", "..", "a/b", "a\\b", "/"] {
        assert_eq!(validate_prefix(prefix).unwrap_err().message(), message);
        assert_eq!(split_error(&["a", "-t", "1", "--prefix", prefix]), message);
    }
    for prefix in ["a", "...", "-", "前缀", ".a"] {
        assert_eq!(validate_prefix(prefix), Ok(()));
        let request = split(&["a", "-t", "1", "--prefix", prefix]);
        assert_eq!(request.prefix.as_deref(), Some(prefix));
    }
}

#[test]
fn concat_takes_paths_in_order() {
    let request = concat(&["joined.mp4", "b.mp4", "a.mp4", "c.mp4"]);
    assert_eq!(request.output, PathBuf::from("joined.mp4"));
    assert_eq!(
        request.inputs,
        vec![
            PathBuf::from("b.mp4"),
            PathBuf::from("a.mp4"),
            PathBuf::from("c.mp4")
        ]
    );
    assert!(!request.overwrite);
    assert_eq!(concat(&["", "", ""]).inputs, vec![PathBuf::new(), PathBuf::new()]);
    assert!(concat(&["o", "-y", "a", "b"]).overwrite);
    assert!(concat(&["--overwrite", "o", "a", "b"]).overwrite);
    let request = concat(&["o", "--", "-y", "--"]);
    assert_eq!(request.inputs, vec![PathBuf::from("-y"), PathBuf::from("--")]);
    assert!(!request.overwrite);
}

#[test]
fn what_concat_refuses() {
    let message = "concat 需要一个输出视频和至少两个输入视频";
    assert_eq!(concat_error(&[]), message);
    assert_eq!(concat_error(&["o", "a"]), message);
    assert_eq!(concat_error(&["o", "a", "--"]), message);
    assert_eq!(concat_error(&["o", "--size", "a", "b"]), "concat 的未知选项 `--size`");
}

#[test]
fn help_and_version() {
    assert!(matches!(parse(&[]), Ok(Action::Help)));
    for first in ["-h", "--help", "help"] {
        assert!(matches!(parse(&args(&[first, "x"])), Ok(Action::Help)));
    }
    for first in ["-V", "--version", "version"] {
        assert!(matches!(parse(&args(&[first, "--help"])), Ok(Action::Version)));
    }
    assert!(matches!(parse(&args(&["split", "-x", "-h"])), Ok(Action::Help)));
    assert!(matches!(parse(&args(&["concat", "--", "--help"])), Ok(Action::Help)));
    assert!(matches!(parse(&args(&["unknown", "--help"])), Ok(Action::Help)));
    let mut all = args(&["concat"]);
    all.push(broken("-h"));
    assert!(parse(&all).is_err());
    assert!(HELP.starts_with("vidsplice - 使用 FFmpeg 无损拆分和拼接视频\n"));
    assert!(HELP.ends_with("  vidsplice concat joined.mp4 part-001.mp4 part-002.mp4\n"));
}

#[test]
fn commands() {
    match parse(&args(&["split", "movie.mp4", "--at", "1"])) {
        Ok(Action::Run(Command::Split(request))) => assert_eq!(times(&request), vec![1_000]),
        other => panic!("{other:?}"),
    }
    match parse(&args(&["concat", "o", "a", "b"])) {
        Ok(Action::Run(Command::Concat(request))) => assert_eq!(request.inputs.len(), 2),
        other => panic!("{other:?}"),
    }
    assert_eq!(
        parse(&args(&["cut", "movie.mp4"])).unwrap_err().message(),
        "未知命令 `cut`；运行 `vidsplice --help` 查看用法"
    );
    assert_eq!(
        parse(&args(&["concat", "o"])).unwrap_err().message(),
        "concat 需要一个输出视频和至少两个输入视频"
    );
    assert_eq!(
        parse(&args(&["split"])).unwrap_err().message(),
        "split 缺少输入视频"
    );
}
