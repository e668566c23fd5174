use vidsplice::concat::{
    concat_list_line, concat_list_name, concat_list_write_error, ConcatAction, ConcatAnswer,
    ConcatJob, ConcatPart, ConcatSetup, LIST_ATTEMPTS,
};
use vidsplice::error::AppError;

fn setup() -> ConcatSetup {
    ConcatSetup {
        has_extension: true,
        output_shown: "out/joined.mp4".to_owned(),
        output_absolute: false,
        parent_shown: Some("out".to_owned()),
        inputs_shown: vec!["b.mp4".to_owned(), "a.mp4".to_owned()],
        overwrite: false,
        process: 42,
        nonce: 1_700_000_000_000_000_000,
    }
}

/// A world in which all goes well, except where it is told otherwise.
struct World {
    exists: bool,
    paths: Vec<Option<String>>,
    same: Option<usize>,
    made: bool,
    taken: u8,
    fails: Option<&'static str>,
    seen: Vec<String>,
    list: String,
    command: Vec<String>,
}

fn world() -> World {
    World {
        exists: false,
        paths: vec![Some("/v/b.mp4".to_owned()), Some("/v/it's a.mp4".to_owned())],
        same: None,
        made: true,
        taken: 0,
        fails: None,
        seen: Vec::new(),
        list: String::new(),
        command: Vec::new(),
    }
}

impl World {
    fn outcome(&self, action: &'static str) -> ConcatAnswer {
        if self.fails == Some(action) {
            ConcatAnswer::Failed("denied".to_owned())
        } else {
            ConcatAnswer::Done
        }
    }

    fn answer(&mut self, action: ConcatAction) -> ConcatAnswer {
        self.seen.push(match &action {
            ConcatAction::Run(_) => "Run".to_owned(),
            ConcatAction::WriteList(_) => "WriteList".to_owned(),
            ConcatAction::CreateList(_) => "CreateList".to_owned(),
            other => format!("{other:?}"),
        });
        match action {
            ConcatAction::CheckOutput => ConcatAnswer::Exists(self.exists),
            ConcatAction::CheckInput(_) => ConcatAnswer::InputFile(self.fails != Some("input")),
            ConcatAction::ResolveInput(i) => {
                if self.fails == Some("resolve") {
                    return self.outcome("resolve");
                }
                ConcatAnswer::Resolved(self.paths[i].clone())
            }
            ConcatAction::ResolveOutput => self.outcome("output"),
            ConcatAction::JoinCurrentDir => self.outcome("current"),
            ConcatAction::CompareInput(i) => ConcatAnswer::SamePath(self.same == Some(i)),
            ConcatAction::CreateParent => self.outcome("parent"),
            ConcatAction::CreateList(name) => {
                if self.fails == Some("create") {
                    return ConcatAnswer::ListFailed {
                        shown: format!("/tmp/{name}"),
                        cause: "denied".to_owned(),
                    };
                }
                if self.taken > 0 {
                    self.taken -= 1;
                    return ConcatAnswer::ListExists;
                }
                ConcatAnswer::ListCreated(format!("/tmp/{name}"))
            }
            ConcatAction::WriteList(line) => {
                if self.fails == Some("header")
                    || (self.fails == Some("line") && !self.list.is_empty())
                {
                    return ConcatAnswer::Failed("full".to_owned());
                }
                self.list.push_str(&line);
                ConcatAnswer::Done
            }
            ConcatAction::FlushList => self.outcome("flush"),
            ConcatAction::Run(command) => {
                self.command = command
                    .into_iter()
                    .map(|part| match part {
                        ConcatPart::Text(text) => text,
                        ConcatPart::List => "LIST".to_owned(),
                        ConcatPart::Output => "OUTPUT".to_owned(),
                    })
                    .collect();
                if self.fails == Some("run") {
                    return ConcatAnswer::Refused(AppError::new("no run"));
                }
                ConcatAnswer::Done
            }
            ConcatAction::CheckGenerated => ConcatAnswer::Generated(self.made),
            ConcatAction::RemoveList => ConcatAnswer::Done,
            ConcatAction::Finish(_) => unreachable!(),
        }
    }

    fn run(&mut self, setup: ConcatSetup) -> Result<(), String> {
        let mut job = ConcatJob::start(setup);
        loop {
            match job.action() {
                ConcatAction::Finish(result) => {
                    job = job.answer(ConcatAnswer::Done);
                    assert!(matches!(job.action(), ConcatAction::Finish(_)));
                    return result.map_err(|error| error.message().to_owned());
                }
                action => {
                    let shown = format!("{action:?}");
                    if !matches!(action, ConcatAction::CheckGenerated) {
                        // An answer that does not fit changes nothing.
                        job = job.answer(ConcatAnswer::Generated(true));
                        assert_eq!(format!("{:?}", job.action()), shown);
                    }
                    let answer = self.answer(action);
                    job = job.answer(answer);
                }
            }
        }
    }

    fn saw(&self, action: &str) -> bool {
        self.seen.iter().any(|seen| seen == action)
    }
}

#[test]
fn joining() {
    let mut world = world();
    assert_eq!(world.run(setup()), Ok(()));
    assert_eq!(
        world.seen,
        vec![
            "CheckOutput",
            "CheckInput(0)",
            "ResolveInput(0)",
            "CheckInput(1)",
            "ResolveInput(1)",
            "CheckOutput",
            "JoinCurrentDir",
            "CompareInput(0)",
            "CompareInput(1)",
            "CreateParent",
            "CreateList",
            "WriteList",
            "WriteList",
            "WriteList",
            "FlushList",
            "Run",
            "CheckGenerated",
            "RemoveList",
        ]
    );
    assert_eq!(
        world.list,
        "ffconcat version 1.0\nfile '/v/b.mp4'\nfile '/v/it'\\''s a.mp4'\n"
    );
    assert_eq!(
        world.command,
        vec![
            "-hide_banner", "-n", "-f", "concat", "-safe", "0", "-i", "LIST", "-map", "0", "-c",
            "copy", "OUTPUT",
        ]
    );
}

#[test]
fn joining_over_a_file() {
    let mut world = world();
    world.exists = true;
    let mut setup = setup();
    setup.overwrite = true;
    setup.parent_shown = None;
    assert_eq!(world.run(setup), Ok(()));
    assert!(world.saw("ResolveOutput"));
    assert!(!world.saw("JoinCurrentDir"));
    assert!(!world.saw("CreateParent"));
    assert_eq!(world.command[1], "-y");
    let mut world = self::world();
    world.exists = true;
    assert_eq!(
        world.run(self::setup()).unwrap_err(),
        "输出文件 `out/joined.mp4` 已存在；使用 --overwrite 覆盖"
    );
    assert_eq!(world.seen.len(), 1);
}

#[test]
fn an_absolute_output_is_taken_as_it_is() {
    let mut world = world();
    let mut setup = setup();
    setup.output_absolute = true;
    assert_eq!(world.run(setup), Ok(()));
    assert!(!world.saw("ResolveOutput"));
    assert!(!world.saw("JoinCurrentDir"));
}

#[test]
fn the_output_is_no_input() {
    for same in 0..2 {
        let mut world = world();
        world.same = Some(same);
        assert_eq!(
            world.run(setup()).unwrap_err(),
            "输出文件不能同时作为输入文件"
        );
        assert!(!world.saw("Run"));
        assert!(!world.saw("CreateParent"));
    }
}

#[test]
fn names_of_lists() {
    assert_eq!(concat_list_name(7, 9, 0), "vidsplice-7-9-0.ffconcat");
    assert_ne!(concat_list_name(7, 9, 1), concat_list_name(7, 9, 11));
    let mut world = world();
    world.taken = LIST_ATTEMPTS - 1;
    assert_eq!(world.run(setup()), Ok(()));
    let mut world = self::world();
    world.taken = LIST_ATTEMPTS;
    assert_eq!(
        world.run(setup()).unwrap_err(),
        "无法分配唯一的临时拼接清单"
    );
    assert_eq!(world.taken, 0);
    assert_eq!(
        world.seen.iter().filter(|seen| *seen == "CreateList").count(),
        100
    );
}

#[test]
fn names_of_lists_count_the_attempts() {
    let mut world = world();
    world.fails = Some("create");
    assert_eq!(
        world.run(setup()).unwrap_err(),
        "无法创建临时拼接清单 `/tmp/vidsplice-42-1700000000000000000-0.ffconcat`：denied"
    );
}

#[test]
fn the_list_is_removed_once_ffmpeg_was_to_run() {
    let mut world = world();
    world.fails = Some("run");
    assert_eq!(world.run(setup()).unwrap_err(), "no run");
    assert_eq!(world.seen.last().unwrap(), "RemoveList");
    let mut world = self::world();
    world.made = false;
    assert_eq!(
        world.run(setup()).unwrap_err(),
        "FFmpeg 未生成输出文件 `out/joined.mp4`"
    );
    assert_eq!(world.seen.last().unwrap(), "RemoveList");
}

#[test]
fn what_can_go_wrong_when_joining() {
    let list = "/tmp/vidsplice-42-1700000000000000000-0.ffconcat";
    for (fails, message) in [
        ("input", "输入文件 `b.mp4` 不存在或不是普通文件".to_owned()),
        ("resolve", "无法解析输入文件 `b.mp4`：denied".to_owned()),
        ("current", "无法获取当前目录：denied".to_owned()),
        ("parent", "无法创建目录 `out`：denied".to_owned()),
        ("header", format!("写入临时拼接清单 `{list}` 失败：full")),
        ("line", format!("写入临时拼接清单 `{list}` 失败：full")),
        ("flush", format!("写入临时拼接清单 `{list}` 失败：denied")),
    ] {
        let mut world = world();
        world.fails = Some(fails);
        assert_eq!(world.run(setup()).unwrap_err(), message);
        assert!(!world.saw("Run"));
    }
    let mut world = world();
    world.exists = true;
    world.fails = Some("output");
    let mut over = setup();
    over.overwrite = true;
    assert_eq!(
        world.run(over).unwrap_err(),
        "无法解析输出文件路径 `out/joined.mp4`：denied"
    );
    let mut bare = setup();
    bare.has_extension = false;
    let mut world = self::world();
    assert_eq!(
        world.run(bare).unwrap_err(),
        "输出视频必须带文件扩展名，以确定封装格式"
    );
    assert!(world.seen.is_empty());
}

#[test]
fn paths_that_cannot_be_listed() {
    for (path, message) in [
        (None, "拼接输入路径必须是有效 UTF-8 文本"),
        (Some("/v/a\nb".to_owned()), "拼接输入路径不能包含换行符"),
        (Some("/v/a\rb".to_owned()), "拼接输入路径不能包含换行符"),
    ] {
        assert_eq!(concat_list_line(&path).unwrap_err().message(), message);
        let mut world = world();
        world.paths[1] = path;
        assert_eq!(world.run(setup()).unwrap_err(), message);
        assert_eq!(world.list, "ffconcat version 1.0\nfile '/v/b.mp4'\n");
    }
}

#[test]
fn lines_of_lists() {
    assert_eq!(
        concat_list_line(&Some("a".to_owned())),
        Ok("file 'a'\n".to_owned())
    );
    assert_eq!(
        concat_list_line(&Some("'".to_owned())),
        Ok("file ''\\'''\n".to_owned())
    );
    assert_eq!(
        concat_list_write_error("l", "c").message(),
        "写入临时拼接清单 `l` 失败：c"
    );
}
