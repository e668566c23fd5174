use vidsplice::cli::SplitMode;
use vidsplice::error::AppError;
use vidsplice::ffmpeg::{KeyframeBoundary, PacketLayout};
use vidsplice::size::TargetSize;
use vidsplice::split::{CommandPart, SplitAction, SplitAnswer, SplitJob, SplitSetup};
use vidsplice::time::{SegmentDuration, Timestamp};
use vidsplice::video::NamePart;

fn text(value: &str) -> NamePart {
    NamePart::Text(value.to_owned())
}

fn at(times: &[&str]) -> SplitMode {
    SplitMode::At(
        times
            .iter()
            .map(|time| Timestamp::from_str(time).unwrap())
            .collect(),
    )
}

fn every(duration: &str) -> SplitMode {
    SplitMode::Every(SegmentDuration::from_str(duration).unwrap())
}

fn by_size(size: &str) -> SplitMode {
    SplitMode::Size(TargetSize::from_str(size).unwrap())
}

fn setup(mode: SplitMode) -> SplitSetup {
    SplitSetup {
        input_shown: "in/movie.mp4".to_owned(),
        extension: text("mp4"),
        stem: text("movie"),
        file_name: text("movie.mp4"),
        mode,
        prefix: None,
        overwrite: false,
        output_dir_given: false,
        separator: "/".to_owned(),
    }
}

/// A world in which all goes well, except where it is told otherwise.
struct World {
    is_file: bool,
    directory: Option<String>,
    same_directory: bool,
    size: u64,
    boundaries: Vec<(u64, u128)>,
    files: Vec<String>,
    makes: Vec<String>,
    fails: Option<&'static str>,
    seen: Vec<String>,
    commands: Vec<String>,
}

fn world() -> World {
    World {
        is_file: true,
        directory: Some("out".to_owned()),
        same_directory: false,
        size: 600,
        boundaries: vec![(1, 100), (2, 200), (3, 300), (4, 400), (5, 500)],
        files: Vec::new(),
        makes: Vec::new(),
        fails: None,
        seen: Vec::new(),
        commands: Vec::new(),
    }
}

impl World {
    fn outcome(&self, action: &'static str) -> SplitAnswer {
        if self.fails == Some(action) {
            SplitAnswer::Failed("denied".to_owned())
        } else {
            SplitAnswer::Done
        }
    }

    fn answer(&mut self, action: SplitAction) -> SplitAnswer {
        match action {
            SplitAction::CheckInput => {
                self.seen.push("input".to_owned());
                SplitAnswer::InputFile(self.is_file)
            }
            SplitAction::CreateOutputDir(name) => {
                self.seen.push(format!("create {name:?}"));
                if self.fails == Some("create") {
                    return SplitAnswer::DirectoryFailed {
                        shown: "<out>".to_owned(),
                        cause: "denied".to_owned(),
                    };
                }
                SplitAnswer::Directory {
                    path: self.directory.clone(),
                    shown: "<out>".to_owned(),
                }
            }
            SplitAction::ResolveInputDir => self.outcome("input dir"),
            SplitAction::ResolveOutputDir => {
                if self.fails == Some("output dir") {
                    return self.outcome("output dir");
                }
                SplitAnswer::SameDirectory(self.same_directory)
            }
            SplitAction::MeasureInput => {
                if self.fails == Some("measure") {
                    return self.outcome("measure");
                }
                SplitAnswer::Size(self.size)
            }
            SplitAction::ProbeInput => {
                self.seen.push("probe".to_owned());
                if self.fails == Some("probe") {
                    return SplitAnswer::Refused(AppError::new("no probe"));
                }
                SplitAnswer::Layout(PacketLayout {
                    total_payload_bytes: 600,
                    keyframes: self
                        .boundaries
                        .iter()
                        .map(|(seconds, offset)| KeyframeBoundary {
                            elapsed_micros: seconds * 1_000_000,
                            payload_offset: *offset,
                        })
                        .collect(),
                })
            }
            SplitAction::EnsureOutputDir => self.outcome("ensure"),
            SplitAction::CheckOutput(name) => {
                self.seen.push(format!("check {name}"));
                SplitAnswer::Exists(self.files.contains(&name))
            }
            SplitAction::ListOutputs => match self.fails {
                Some("list") => SplitAnswer::Failed("denied".to_owned()),
                Some("entry") => SplitAnswer::EntryFailed("lost".to_owned()),
                _ => {
                    let mut names: Vec<Option<String>> =
                        self.files.iter().cloned().map(Some).collect();
                    names.push(None);
                    SplitAnswer::Listed(names)
                }
            },
            SplitAction::RemoveOutput(name) => {
                self.seen.push(format!("remove {name}"));
                if self.fails == Some("remove") {
                    return self.outcome("remove");
                }
                assert!(self.files.contains(&name));
                self.files.retain(|file| *file != name);
                SplitAnswer::Done
            }
            SplitAction::Run(command) => {
                self.seen.push("run".to_owned());
                self.commands = command
                    .into_iter()
                    .map(|part| match part {
                        CommandPart::Text(text) => text,
                        CommandPart::Input => "INPUT".to_owned(),
                        CommandPart::Output(name) => format!("OUT/{name}"),
                    })
                    .collect();
                if self.fails == Some("run") {
                    return SplitAnswer::Refused(AppError::new("no run"));
                }
                self.files.append(&mut self.makes);
                SplitAnswer::Done
            }
            SplitAction::CheckGenerated(name) => SplitAnswer::Generated(self.files.contains(&name)),
            SplitAction::ShowOutput(name) => SplitAnswer::Shown(format!("<out>/{name}")),
            SplitAction::Finish(_) => unreachable!(),
        }
    }

    fn run(&mut self, setup: SplitSetup) -> Result<Vec<String>, String> {
        let mut job = SplitJob::start(setup);
        loop {
            match job.action() {
                SplitAction::Finish(result) => {
                    // The end is the end, whatever is answered.
                    job = job.answer(SplitAnswer::Done);
                    assert!(matches!(job.action(), SplitAction::Finish(_)));
                    return result.map_err(|error| error.message().to_owned());
                }
                action => {
                    if !matches!(action, SplitAction::ShowOutput(_)) {
                        // An answer that does not fit changes nothing.
                        job = job.answer(SplitAnswer::Shown("".to_owned()));
                        assert_eq!(format!("{:?}", job.action()), format!("{action:?}"));
                    }
                    let answer = self.answer(action);
                    job = job.answer(answer);
                }
            }
        }
    }
}

fn names(list: &[&str]) -> Vec<String> {
    list.iter().map(|name| name.to_string()).collect()
}

#[test]
fn cutting_at_points_in_time() {
    let mut world = world();
    world.makes = names(&["movie-001.mp4", "movie-002.mp4", "movie-003.mp4"]);
    let outputs = world.run(setup(at(&["30", "1:20.5"]))).unwrap();
    assert_eq!(outputs, names(&["movie-001.mp4", "movie-002.mp4", "movie-003.mp4"]));
    assert_eq!(
        world.seen,
        names(&[
            "input",
            "create Some(\"movie_parts\")",
            "check movie-001.mp4",
            "check movie-002.mp4",
            "check movie-003.mp4",
            "run",
        ])
    );
    assert_eq!(
        world.commands,
        names(&[
            "-hide_banner", "-n", "-i", "INPUT", "-map", "0", "-c", "copy", "-f", "segment",
            "-segment_times", "30.000,80.500", "-reset_timestamps", "1",
            "-segment_start_number", "1", "out/movie-%03d.mp4",
        ])
    );
}

#[test]
fn the_default_directory_is_named_after_the_input() {
    let mut world = world();
    world.makes = names(&["foo-001.mp4", "foo-002.mp4"]);
    let mut setup = setup(at(&["30"]));
    setup.prefix = Some("foo".to_owned());
    assert_eq!(world.run(setup).unwrap(), names(&["foo-001.mp4", "foo-002.mp4"]));
    assert_eq!(world.seen[1], "create Some(\"movie_parts\")");
}

#[test]
fn cutting_by_duration() {
    let mut world = world();
    world.makes = names(&["part-002.mp4", "part-001.mp4", "other"]);
    let mut setup = setup(every("9m"));
    setup.prefix = Some("part".to_owned());
    setup.output_dir_given = true;
    setup.overwrite = true;
    assert_eq!(world.run(setup).unwrap(), names(&["part-001.mp4", "part-002.mp4"]));
    assert_eq!(world.seen, names(&["input", "create None", "run"]));
    assert_eq!(
        world.commands,
        names(&[
            "-hide_banner", "-y", "-i", "INPUT", "-map", "0", "-c", "copy", "-f", "segment",
            "-segment_time", "540.000", "-reset_timestamps", "1", "-segment_start_number", "1",
            "out/part-%03d.mp4",
        ])
    );
}

#[test]
fn cutting_by_size() {
    let mut world = world();
    world.makes = names(&["movie-001.mp4", "movie-002.mp4", "movie-003.mp4"]);
    assert_eq!(world.run(setup(by_size("200B"))).unwrap().len(), 3);
    assert_eq!(
        world.commands,
        names(&[
            "-hide_banner", "-n", "-i", "INPUT", "-map", "0", "-c", "copy", "-f", "segment",
            "-reference_stream", "v:0", "-segment_times", "2.000000,4.000000",
            "-segment_time_delta", "0.000001", "-reset_timestamps", "1",
            "-segment_start_number", "1", "out/movie-%03d.mp4",
        ])
    );
}

#[test]
fn a_small_video_is_copied_whole() {
    let mut world = world();
    world.makes = names(&["movie-001.mp4"]);
    assert_eq!(world.run(setup(by_size("600B"))).unwrap(), names(&["movie-001.mp4"]));
    assert_eq!(
        world.commands,
        names(&[
            "-hide_banner", "-n", "-i", "INPUT", "-map", "0", "-c", "copy", "OUT/movie-001.mp4",
        ])
    );
    let mut world = self::world();
    assert_eq!(
        world.run(setup(by_size("600B"))).unwrap_err(),
        "FFmpeg 未生成输出文件 `<out>/movie-001.mp4`"
    );
}

#[test]
fn outputs_in_the_way() {
    let mut world = world();
    world.files = names(&["movie-002.mp4"]);
    assert_eq!(
        world.run(setup(at(&["30"]))).unwrap_err(),
        "输出文件 `<out>/movie-002.mp4` 已存在；使用 --overwrite 覆盖"
    );
    for mode in [every("9m"), by_size("200B")] {
        let mut world = self::world();
        world.files = names(&["movie-010.mp4", "movie-003.mp4", "note.txt"]);
        assert_eq!(
            world.run(setup(mode)).unwrap_err(),
            "输出文件 `<out>/movie-003.mp4` 已存在；使用 --overwrite 覆盖该前缀的已有分段"
        );
        assert_eq!(world.files.len(), 3);
        assert!(!world.seen.contains(&"run".to_owned()));
    }
}

#[test]
fn outputs_are_removed_where_that_was_asked_for() {
    let mut world = world();
    world.files = names(&["movie-001.mp4", "movie-003.mp4", "note.txt"]);
    world.makes = names(&["movie-001.mp4", "movie-002.mp4"]);
    let mut at_setup = setup(at(&["30"]));
    at_setup.overwrite = true;
    assert_eq!(world.run(at_setup).unwrap().len(), 2);
    assert!(world.seen.contains(&"remove movie-001.mp4".to_owned()));
    assert!(!world.seen.contains(&"remove movie-003.mp4".to_owned()));

    let mut world = self::world();
    world.files = names(&["movie-010.mp4", "movie-003.mp4", "note.txt", "movie-01.mp4"]);
    world.makes = names(&["movie-001.mp4"]);
    let mut every_setup = setup(every("9m"));
    every_setup.overwrite = true;
    assert_eq!(world.run(every_setup).unwrap(), names(&["movie-001.mp4"]));
    assert_eq!(
        world.seen[2..],
        names(&["remove movie-003.mp4", "remove movie-010.mp4", "run"])
    );

    for mode in [at(&["30"]), every("9m")] {
        let mut world = self::world();
        world.files = names(&["movie-001.mp4"]);
        world.fails = Some("remove");
        let mut setup = setup(mode);
        setup.overwrite = true;
        assert_eq!(
            world.run(setup).unwrap_err(),
            "无法覆盖输出文件 `<out>/movie-001.mp4`：denied"
        );
    }
}

#[test]
fn outputs_that_are_missing() {
    let mut world = world();
    world.makes = names(&["movie-001.mp4"]);
    assert_eq!(
        world.run(setup(at(&["30", "60"]))).unwrap_err(),
        "预期生成 3 段，实际生成 1 段；请检查拆分点是否超过视频时长。已生成文件保留在 `<out>`"
    );
    let mut world = self::world();
    assert_eq!(
        world.run(setup(every("9m"))).unwrap_err(),
        "FFmpeg 未在 `<out>` 中生成任何分段"
    );
    let mut world = self::world();
    world.makes = names(&["movie-001.mp4", "movie-003.mp4"]);
    assert_eq!(
        world.run(setup(every("9m"))).unwrap_err(),
        "输出分段编号不连续：预期 002，实际为 003"
    );
    let mut world = self::world();
    world.makes = names(&["movie-001.mp4", "movie-002.mp4"]);
    assert_eq!(
        world.run(setup(by_size("200B"))).unwrap_err(),
        "按大小计算出 3 段，但 FFmpeg 实际生成 2 段；已生成文件保留在 `<out>`"
    );
}

#[test]
fn inputs_that_cannot_be_split() {
    let mut world = world();
    world.is_file = false;
    assert_eq!(
        world.run(setup(at(&["30"]))).unwrap_err(),
        "输入文件 `in/movie.mp4` 不存在或不是普通文件"
    );
    for (extension, stem, message) in [
        (NamePart::Missing, text("m"), "输入视频缺少文件扩展名"),
        (NamePart::NotUnicode, text("m"), "文件名和扩展名必须是有效 UTF-8 文本"),
        (text("mp4"), NamePart::Missing, "无法确定输入视频文件名"),
        (text("mp4"), NamePart::NotUnicode, "文件名和扩展名必须是有效 UTF-8 文本"),
    ] {
        let mut setup = setup(at(&["30"]));
        setup.extension = extension;
        setup.stem = stem;
        setup.prefix = Some("given".to_owned());
        assert_eq!(self::world().run(setup).unwrap_err(), message);
    }
    let mut setup = self::setup(at(&["30"]));
    setup.file_name = NamePart::NotUnicode;
    assert_eq!(
        self::world().run(setup).unwrap_err(),
        "输入文件名必须是有效 UTF-8 文本"
    );
    let mut world = self::world();
    world.size = 0;
    assert_eq!(
        world.run(self::setup(by_size("1B"))).unwrap_err(),
        "输入视频为空文件"
    );
    assert_eq!(
        self::world().run(self::setup(at(&["2", "1"]))).unwrap_err(),
        "拆分点必须严格递增，但 00:00:02.000 不早于 00:00:01.000"
    );
}

#[test]
fn the_input_is_no_output() {
    let mut collision = setup(at(&["30"]));
    collision.file_name = text("movie-007.mp4");
    collision.prefix = Some("movie".to_owned());
    collision.overwrite = true;
    let mut world = world();
    world.same_directory = true;
    assert_eq!(
        world.run(collision).unwrap_err(),
        "输入文件 `in/movie.mp4` 与拆分输出命名范围冲突；请更换 --output-dir 或 --prefix"
    );
    let mut elsewhere = setup(at(&["30"]));
    elsewhere.file_name = text("movie-007.mp4");
    elsewhere.prefix = Some("movie".to_owned());
    let mut world = self::world();
    world.makes = names(&["movie-001.mp4", "movie-002.mp4"]);
    assert!(world.run(elsewhere).is_ok());
}

#[test]
fn what_can_go_wrong() {
    for (fails, message) in [
        ("create", "无法创建输出目录 `<out>`：denied"),
        ("input dir", "无法解析输入目录 `in/movie.mp4`：denied"),
        ("output dir", "无法解析输出目录 `<out>`：denied"),
        ("measure", "无法读取 `in/movie.mp4` 的大小：denied"),
        ("probe", "no probe"),
        ("ensure", "无法创建输出目录 `<out>`：denied"),
        ("list", "无法读取输出目录 `<out>`：denied"),
        ("entry", "无法读取输出目录 `<out>` 中的项目：lost"),
        ("run", "no run"),
    ] {
        let mut world = world();
        world.fails = Some(fails);
        assert_eq!(world.run(setup(by_size("200B"))).unwrap_err(), message);
    }
    let mut world = world();
    world.directory = None;
    assert_eq!(
        world.run(setup(every("9m"))).unwrap_err(),
        "FFmpeg segment 输出目录必须是有效 UTF-8 路径"
    );
    let mut world = self::world();
    world.boundaries = Vec::new();
    world.size = u64::MAX;
    assert_eq!(
        world.run(setup(by_size("1B"))).unwrap_err(),
        "无法根据媒体包计算目标分片大小"
    );
}

#[test]
fn listing_after_the_run_can_fail() {
    for (answer, message) in [
        (SplitAnswer::Failed("x".to_owned()), "无法读取输出目录 `<out>`：x"),
        (SplitAnswer::EntryFailed("y".to_owned()), "无法读取输出目录 `<out>` 中的项目：y"),
    ] {
        let mut world = world();
        let mut job = SplitJob::start(setup(every("9m")));
        while !world.seen.contains(&"run".to_owned()) {
            let next = world.answer(job.action());
            job = job.answer(next);
        }
        job = job.answer(answer);
        match job.action() {
            SplitAction::Finish(Err(error)) => assert_eq!(error.message(), message),
            other => panic!("{other:?}"),
        }
    }
}
