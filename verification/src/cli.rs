//! The command line: what it asks for.

use std::path::PathBuf;

use vstd::prelude::*;
use vstd::string::StrSliceExecFns;

use crate::error;
use crate::error::{AppError, Result};
use crate::size;
use crate::size::TargetSize;
use crate::text;
use crate::text::{contains_char, same_text, split_on};
use crate::time;
use crate::time::{SegmentDuration, Timestamp};

verus! {

/// A path in the form of the operating system. Nothing is known of what is inside: the library
/// hands paths on and never looks into them.
#[verifier::external_type_specification]
#[verifier::external_body]
pub struct ExPathBuf(PathBuf);

/// `PathBuf::clone`: the copy is the same path.
pub assume_specification[ <PathBuf as Clone>::clone ](path: &PathBuf) -> (copy: PathBuf)
    ensures
        copy == *path,
;

/// What the program prints where help is asked for.
pub const HELP: &'static str = r#"vidsplice - 使用 FFmpeg 无损拆分和拼接视频

用法:
  vidsplice split <输入视频> (--at <时间点>... | --every <时长> | --size <大小>) [选项]
  vidsplice concat <输出视频> <输入视频> <输入视频>... [选项]
  vidsplice --help
  vidsplice --version

命令:
  split   按指定时间点、固定时长或目标大小拆分视频
  concat  按参数顺序拼接至少两个编码参数兼容的视频

split 选项:
  -t, --at <时间点>       拆分点；可重复，或用逗号分隔
      --every <时长>      按固定时长分段，如 9m、540s、1h 或 00:09:00
      --size <大小>       按目标大小近似分片，如 100MB 或 100MiB
  -o, --output-dir <目录> 输出目录（默认：输入文件旁的 <文件名>_parts）
      --prefix <名称>     输出文件名前缀（默认：输入文件名）
  -y, --overwrite         覆盖已有输出

  --at、--every 与 --size 必须且只能指定一个。

concat 选项:
  -y, --overwrite         覆盖已有输出

环境变量:
  FFMPEG_BIN              FFmpeg 可执行文件路径（默认：ffmpeg）
  FFPROBE_BIN             ffprobe 可执行文件路径（默认：ffprobe）

示例:
  vidsplice split movie.mp4 --size 100MB
  vidsplice split movie.mp4 --every 9m
  vidsplice split movie.mp4 --at 00:30 --at 01:20.500
  vidsplice concat joined.mp4 part-001.mp4 part-002.mp4
"#;

// ---------------------------------------------------------------------------
// Arguments and requests
// ---------------------------------------------------------------------------

/// One argument of the command line.
#[derive(Debug)]
pub struct Argument {
    /// The argument as text, with U+FFFD for what is not Unicode.
    pub text: String,
    /// Whether the argument is Unicode, so that `text` is all of it.
    pub unicode: bool,
    /// The argument taken as a path.
    pub path: PathBuf,
}

#[derive(Debug)]
pub enum Action {
    Help,
    Version,
    Run(Command),
}

#[derive(Debug)]
pub enum Command {
    Split(SplitArgs),
    Concat(ConcatArgs),
}

#[derive(Debug)]
pub enum SplitMode {
    At(Vec<Timestamp>),
    Every(SegmentDuration),
    Size(TargetSize),
}

#[derive(Debug)]
pub struct SplitArgs {
    pub input: PathBuf,
    pub mode: SplitMode,
    pub output_dir: Option<PathBuf>,
    pub prefix: Option<String>,
    pub overwrite: bool,
}

#[derive(Debug)]
pub struct ConcatArgs {
    pub output: PathBuf,
    pub inputs: Vec<PathBuf>,
    pub overwrite: bool,
}

/// An `Argument`, as the contracts see it.
pub struct ArgumentView {
    pub text: Seq<char>,
    pub unicode: bool,
    pub path: PathBuf,
}

/// An `Action`, as the contracts see it.
pub enum ActionView {
    Help,
    Version,
    Run(CommandView),
}

/// A `Command`, as the contracts see it.
pub enum CommandView {
    Split(SplitRequest),
    Concat(ConcatRequest),
}

/// A `SplitMode`, as the contracts see it: milliseconds or bytes.
pub enum ModeView {
    At(Seq<nat>),
    Every(nat),
    Size(nat),
}

/// A `SplitArgs`, as the contracts see it.
pub struct SplitRequest {
    pub input: PathBuf,
    pub mode: ModeView,
    pub output_dir: Option<PathBuf>,
    pub prefix: Option<Seq<char>>,
    pub overwrite: bool,
}

/// A `ConcatArgs`, as the contracts see it.
pub struct ConcatRequest {
    pub output: PathBuf,
    pub inputs: Seq<PathBuf>,
    pub overwrite: bool,
}

impl View for Argument {
    type V = ArgumentView;

    open spec fn view(&self) -> ArgumentView {
        ArgumentView { text: self.text@, unicode: self.unicode, path: self.path }
    }
}

impl View for Action {
    type V = ActionView;

    open spec fn view(&self) -> ActionView {
        match self {
            Action::Help => ActionView::Help,
            Action::Version => ActionView::Version,
            Action::Run(command) => ActionView::Run(command@),
        }
    }
}

impl View for Command {
    type V = CommandView;

    open spec fn view(&self) -> CommandView {
        match self {
            Command::Split(args) => CommandView::Split(args@),
            Command::Concat(args) => CommandView::Concat(args@),
        }
    }
}

impl View for SplitMode {
    type V = ModeView;

    open spec fn view(&self) -> ModeView {
        match self {
            SplitMode::At(times) => ModeView::At(millis_of_all(times@)),
            SplitMode::Every(duration) => ModeView::Every(duration@),
            SplitMode::Size(size) => ModeView::Size(size@),
        }
    }
}

impl View for SplitArgs {
    type V = SplitRequest;

    open spec fn view(&self) -> SplitRequest {
        SplitRequest {
            input: self.input,
            mode: self.mode@,
            output_dir: self.output_dir,
            prefix: text_of(self.prefix),
            overwrite: self.overwrite,
        }
    }
}

impl View for ConcatArgs {
    type V = ConcatRequest;

    open spec fn view(&self) -> ConcatRequest {
        ConcatRequest { output: self.output, inputs: self.inputs@, overwrite: self.overwrite }
    }
}

/// The milliseconds of points in time.
pub open spec fn millis_of_all(times: Seq<Timestamp>) -> Seq<nat> {
    times.map_values(|time: Timestamp| time@)
}

/// The text of a string, where there is one.
pub open spec fn text_of(value: Option<String>) -> Option<Seq<char>> {
    match value {
        Some(value) => Some(value@),
        None => None,
    }
}

/// Arguments, as the contracts see them.
pub open spec fn views(args: Seq<Argument>) -> Seq<ArgumentView> {
    args.map_values(|arg: Argument| arg@)
}

// ---------------------------------------------------------------------------
// What the arguments ask for
// ---------------------------------------------------------------------------

/// A prefix that names a file in the output directory itself.
pub open spec fn is_valid_prefix(prefix: Seq<char>) -> bool {
    &&& prefix.len() > 0
    &&& prefix != "."@
    &&& prefix != ".."@
    &&& !prefix.contains('/')
    &&& !prefix.contains('\\')
}

pub open spec fn invalid_prefix_message() -> Seq<char> {
    "输出前缀不能为空、`.`、`..`，也不能包含路径分隔符"@
}

/// The points in time that texts name, up to the first that names none.
pub open spec fn times_of(items: Seq<Seq<char>>) -> std::result::Result<Seq<nat>, Seq<char>>
    decreases items.len(),
{
    if items.len() == 0 {
        Ok(Seq::empty())
    } else {
        match times_of(items.drop_last()) {
            Err(message) => Err(message),
            Ok(times) => match time::timestamp_of(items.last()) {
                Err(message) => Err(message),
                Ok(millis) => Ok(times.push(millis)),
            },
        }
    }
}

/// What the arguments of `split` have said so far.
pub struct SplitScan {
    pub input: Option<PathBuf>,
    pub times: Seq<nat>,
    pub every: Option<nat>,
    pub size: Option<nat>,
    pub output_dir: Option<PathBuf>,
    pub prefix: Option<Seq<char>>,
    pub overwrite: bool,
    /// After `--` no argument is an option.
    pub positional_only: bool,
}

pub open spec fn empty_scan() -> SplitScan {
    SplitScan {
        input: None,
        times: Seq::empty(),
        every: None,
        size: None,
        output_dir: None,
        prefix: None,
        overwrite: false,
        positional_only: false,
    }
}

/// An option of `split` that takes no value, or an input video.
pub open spec fn scan_single(
    scan: SplitScan,
    arg: ArgumentView,
) -> std::result::Result<SplitScan, Seq<char>> {
    if !scan.positional_only && arg.text == "--"@ {
        Ok(SplitScan { positional_only: true, ..scan })
    } else if !scan.positional_only && (arg.text == "-y"@ || arg.text == "--overwrite"@) {
        Ok(SplitScan { overwrite: true, ..scan })
    } else if !scan.positional_only && arg.text.len() > 0 && arg.text[0] == '-' {
        Err("split 的未知选项 `"@ + arg.text + "`"@)
    } else if scan.input is Some {
        Err("split 只能指定一个输入视频"@)
    } else {
        Ok(SplitScan { input: Some(arg.path), ..scan })
    }
}

/// The options of `split` that take a value.
pub open spec fn takes_value(option: Seq<char>) -> bool {
    ||| option == "-t"@
    ||| option == "--at"@
    ||| option == "--every"@
    ||| option == "--size"@
    ||| option == "-o"@
    ||| option == "--output-dir"@
    ||| option == "--prefix"@
}

pub open spec fn missing_value_message(option: Seq<char>) -> Seq<char> {
    "选项 `"@ + option + "` 缺少值"@
}

/// An option of `split` that was given before and may be given once, or has no value.
pub open spec fn option_failure(
    scan: SplitScan,
    option: Seq<char>,
    has_value: bool,
) -> Option<Seq<char>> {
    if option == "--every"@ && scan.every is Some {
        Some("--every 只能指定一次"@)
    } else if option == "--size"@ && scan.size is Some {
        Some("--size 只能指定一次"@)
    } else if !has_value {
        Some(missing_value_message(option))
    } else {
        None
    }
}

/// An option of `split` with its value.
pub open spec fn scan_option(
    scan: SplitScan,
    option: Seq<char>,
    value: ArgumentView,
) -> std::result::Result<SplitScan, Seq<char>> {
    if option == "-t"@ || option == "--at"@ {
        if !value.unicode {
            Err("时间点必须是有效 UTF-8 文本"@)
        } else {
            match times_of(text::split(value.text, ',')) {
                Err(message) => Err(message),
                Ok(times) => Ok(SplitScan { times: scan.times + times, ..scan }),
            }
        }
    } else if option == "--every"@ {
        if !value.unicode {
            Err("分段时长必须是有效 UTF-8 文本"@)
        } else {
            match time::duration_of(value.text) {
                Err(message) => Err(message),
                Ok(millis) => Ok(SplitScan { every: Some(millis), ..scan }),
            }
        }
    } else if option == "--size"@ {
        if !value.unicode {
            Err("目标大小必须是有效 UTF-8 文本"@)
        } else {
            match size::size_of(value.text) {
                Err(message) => Err(message),
                Ok(bytes) => Ok(SplitScan { size: Some(bytes), ..scan }),
            }
        }
    } else if option == "--prefix"@ {
        if !value.unicode {
            Err("输出前缀必须是有效 UTF-8 文本"@)
        } else if !is_valid_prefix(value.text) {
            Err(invalid_prefix_message())
        } else {
            Ok(SplitScan { prefix: Some(value.text), ..scan })
        }
    } else {
        Ok(SplitScan { output_dir: Some(value.path), ..scan })
    }
}

/// What the arguments of `split` say, read from the first to the last after what `scan` holds.
pub open spec fn scan_split(
    scan: SplitScan,
    args: Seq<ArgumentView>,
) -> std::result::Result<SplitScan, Seq<char>>
    decreases args.len(),
{
    if args.len() == 0 {
        Ok(scan)
    } else if !scan.positional_only && takes_value(args[0].text) {
        match option_failure(scan, args[0].text, args.len() > 1) {
            Some(message) => Err(message),
            None => match scan_option(scan, args[0].text, args[1]) {
                Err(message) => Err(message),
                Ok(next) => scan_split(next, args.skip(2)),
            },
        }
    } else {
        match scan_single(scan, args[0]) {
            Err(message) => Err(message),
            Ok(next) => scan_split(next, args.skip(1)),
        }
    }
}

/// The request that a scan amounts to: one input and exactly one of the three modes.
pub open spec fn conclude(scan: SplitScan) -> std::result::Result<SplitRequest, Seq<char>> {
    let at: int = if scan.times.len() > 0 { 1 } else { 0 };
    let every: int = if scan.every is Some { 1 } else { 0 };
    let size: int = if scan.size is Some { 1 } else { 0 };
    if scan.input is None {
        Err("split 缺少输入视频"@)
    } else if at + every + size == 0 {
        Err("split 必须指定 --at、--every 或 --size"@)
    } else if at + every + size > 1 {
        Err("--at、--every 与 --size 不能同时使用"@)
    } else {
        Ok(
            SplitRequest {
                input: scan.input->0,
                mode: if at == 1 {
                    ModeView::At(scan.times)
                } else if every == 1 {
                    ModeView::Every(scan.every->0)
                } else {
                    ModeView::Size(scan.size->0)
                },
                output_dir: scan.output_dir,
                prefix: scan.prefix,
                overwrite: scan.overwrite,
            },
        )
    }
}

/// What the arguments after `split` ask for.
pub open spec fn split_request(args: Seq<ArgumentView>) -> std::result::Result<
    SplitRequest,
    Seq<char>,
> {
    match scan_split(empty_scan(), args) {
        Err(message) => Err(message),
        Ok(scan) => conclude(scan),
    }
}

/// What the arguments of `concat` have said so far.
pub struct ConcatScan {
    pub paths: Seq<PathBuf>,
    pub overwrite: bool,
    /// After `--` no argument is an option.
    pub positional_only: bool,
}

/// What the arguments of `concat` say, read from the first to the last.
pub open spec fn scan_concat(args: Seq<ArgumentView>) -> std::result::Result<ConcatScan, Seq<char>>
    decreases args.len(),
{
    if args.len() == 0 {
        Ok(ConcatScan { paths: Seq::empty(), overwrite: false, positional_only: false })
    } else {
        let arg = args.last();
        match scan_concat(args.drop_last()) {
            Err(message) => Err(message),
            Ok(scan) => if !scan.positional_only && arg.text == "--"@ {
                Ok(ConcatScan { positional_only: true, ..scan })
            } else if !scan.positional_only && (arg.text == "-y"@ || arg.text == "--overwrite"@) {
                Ok(ConcatScan { overwrite: true, ..scan })
            } else if !scan.positional_only && arg.text.len() > 0 && arg.text[0] == '-' {
                Err("concat 的未知选项 `"@ + arg.text + "`"@)
            } else {
                Ok(ConcatScan { paths: scan.paths.push(arg.path), ..scan })
            },
        }
    }
}

/// What the arguments after `concat` ask for.
pub open spec fn concat_request(args: Seq<ArgumentView>) -> std::result::Result<
    ConcatRequest,
    Seq<char>,
> {
    match scan_concat(args) {
        Err(message) => Err(message),
        Ok(scan) => if scan.paths.len() < 3 {
            Err("concat 需要一个输出视频和至少两个输入视频"@)
        } else {
            Ok(
                ConcatRequest {
                    output: scan.paths[0],
                    inputs: scan.paths.skip(1),
                    overwrite: scan.overwrite,
                },
            )
        },
    }
}

/// An argument that asks for help wherever it stands behind the first.
pub open spec fn is_help_flag(arg: ArgumentView) -> bool {
    arg.unicode && (arg.text == "-h"@ || arg.text == "--help"@)
}

/// What the arguments of the program ask for.
pub open spec fn action_of(args: Seq<ArgumentView>) -> std::result::Result<ActionView, Seq<char>> {
    if args.len() == 0 {
        Ok(ActionView::Help)
    } else if args[0].text == "-h"@ || args[0].text == "--help"@ || args[0].text == "help"@ {
        Ok(ActionView::Help)
    } else if args[0].text == "-V"@ || args[0].text == "--version"@ || args[0].text == "version"@ {
        Ok(ActionView::Version)
    } else if exists|i: int| 1 <= i < args.len() && is_help_flag(#[trigger] args[i]) {
        Ok(ActionView::Help)
    } else if args[0].text == "split"@ {
        match split_request(args.skip(1)) {
            Err(message) => Err(message),
            Ok(request) => Ok(ActionView::Run(CommandView::Split(request))),
        }
    } else if args[0].text == "concat"@ {
        match concat_request(args.skip(1)) {
            Err(message) => Err(message),
            Ok(request) => Ok(ActionView::Run(CommandView::Concat(request))),
        }
    } else {
        Err("未知命令 `"@ + args[0].text + "`；运行 `vidsplice --help` 查看用法"@)
    }
}

// ---------------------------------------------------------------------------
// Reading the arguments
// ---------------------------------------------------------------------------

/// Nothing, where a prefix names a file in the output directory itself.
pub fn validate_prefix(prefix: &str) -> (r: Result<()>)
    ensures
        r is Ok == is_valid_prefix(prefix@),
        r matches Err(error) ==> error@ == invalid_prefix_message(),
{
    if prefix.is_empty() || same_text(prefix, ".") || same_text(prefix, "..") || contains_char(
        prefix,
        '/',
    ) || contains_char(prefix, '\\') {
        return Err(
            AppError::new("输出前缀不能为空、`.`、`..`，也不能包含路径分隔符"),
        );
    }
    Ok(())
}

/// The argument behind the option at `index`.
fn required_value<'a>(args: &'a [Argument], index: usize, option: &str) -> (r: Result<&'a Argument>)
    requires
        index < args@.len(),
    ensures
        r is Ok == (index + 1 < args@.len()),
        r matches Ok(value) ==> *value == args@[index + 1],
        r matches Err(error) ==> error@ == missing_value_message(option@),
{
    if args.len() - index > 1 {
        Ok(&args[index + 1])
    } else {
        Err(AppError::about("选项 `", option, "` 缺少值"))
    }
}

/// Whether `text` starts like an option.
fn starts_with_dash(text: &str) -> (r: bool)
    ensures
        r == (text@.len() > 0 && text@[0] == '-'),
{
    text.unicode_len() > 0 && text.get_char(0) == '-'
}

fn is_value_option(option: &str) -> (r: bool)
    ensures
        r == takes_value(option@),
{
    same_text(option, "-t") || same_text(option, "--at") || same_text(option, "--every")
        || same_text(option, "--size") || same_text(option, "-o") || same_text(
        option,
        "--output-dir",
    ) || same_text(option, "--prefix")
}

/// The points in time in a list with commas.
fn parse_times(list: &str) -> (r: Result<Vec<Timestamp>>)
    ensures
        (match r {
            Ok(times) => Ok(millis_of_all(times@)),
            Err(error) => Err(error@),
        }) == times_of(text::split(list@, ',')),
{
    let items = split_on(list, ',');
    let ghost pieces = text::texts(items@);
    let mut times: Vec<Timestamp> = Vec::new();
    let mut i: usize = 0;
    assert(pieces.take(0) == Seq::<Seq<char>>::empty());
    assert(millis_of_all(times@) == Seq::<nat>::empty());
    while i < items.len()
        invariant
            i <= items.len(),
            pieces == text::texts(items@),
            pieces == text::split(list@, ','),
            times_of(pieces.take(i as int)) == Ok::<Seq<nat>, Seq<char>>(millis_of_all(times@)),
        decreases items.len() - i,
    {
        assert(pieces.take(i + 1).drop_last() == pieces.take(i as int));
        assert(pieces.take(i + 1).last() == items@[i as int]@);
        match Timestamp::from_str(items[i].as_str()) {
            Ok(time) => {
                let ghost before = millis_of_all(times@);
                times.push(time);
                assert(millis_of_all(times@) == before.push(time@));
            },
            Err(error) => {
                proof {
                    lemma_times_of_stops(pieces, i + 1);
                }
                return Err(error);
            },
        }
        i += 1;
    }
    assert(pieces.take(pieces.len() as int) == pieces);
    Ok(times)
}

/// A text that names no point in time decides the outcome, whatever follows it.
proof fn lemma_times_of_stops(items: Seq<Seq<char>>, length: int)
    requires
        0 <= length <= items.len(),
        times_of(items.take(length)) is Err,
    ensures
        times_of(items) == times_of(items.take(length)),
    decreases items.len() - length,
{
    if length == items.len() {
        assert(items.take(length) == items);
    } else {
        assert(items.take(length + 1).drop_last() == items.take(length));
        lemma_times_of_stops(items, length + 1);
    }
}

/// What the arguments of `split` have said so far.
struct Scan {
    input: Option<PathBuf>,
    times: Vec<Timestamp>,
    every: Option<SegmentDuration>,
    size: Option<TargetSize>,
    output_dir: Option<PathBuf>,
    prefix: Option<String>,
    overwrite: bool,
    positional_only: bool,
}

impl View for Scan {
    type V = SplitScan;

    closed spec fn view(&self) -> SplitScan {
        SplitScan {
            input: self.input,
            times: millis_of_all(self.times@),
            every: match self.every {
                Some(duration) => Some(duration@),
                None => None,
            },
            size: match self.size {
                Some(size) => Some(size@),
                None => None,
            },
            output_dir: self.output_dir,
            prefix: text_of(self.prefix),
            overwrite: self.overwrite,
            positional_only: self.positional_only,
        }
    }
}

impl Scan {
    fn new() -> (scan: Scan)
        ensures
            scan@ == empty_scan(),
    {
        let scan = Scan {
            input: None,
            times: Vec::new(),
            every: None,
            size: None,
            output_dir: None,
            prefix: None,
            overwrite: false,
            positional_only: false,
        };
        assert(scan@.times == Seq::<nat>::empty());
        scan
    }

    fn take_single(self, arg: &Argument) -> (r: Result<Scan>)
        ensures
            error::seen(r) == scan_single(self@, arg@),
    {
        let argument = arg.text.as_str();
        if !self.positional_only && same_text(argument, "--") {
            Ok(Scan { positional_only: true, ..self })
        } else if !self.positional_only && (same_text(argument, "-y") || same_text(
            argument,
            "--overwrite",
        )) {
            Ok(Scan { overwrite: true, ..self })
        } else if !self.positional_only && starts_with_dash(argument) {
            Err(AppError::about("split 的未知选项 `", argument, "`"))
        } else if self.input.is_some() {
            Err(AppError::new("split 只能指定一个输入视频"))
        } else {
            Ok(Scan { input: Some(arg.path.clone()), ..self })
        }
    }

    fn take_times(self, value: &Argument) -> (r: Result<Scan>)
        ensures
            error::seen(r) == scan_option(self@, "--at"@, value@),
    {
        if !value.unicode {
            return Err(AppError::new("时间点必须是有效 UTF-8 文本"));
        }
        match parse_times(value.text.as_str()) {
            Ok(mut more) => {
                let ghost new_times = millis_of_all(more@);
                let mut times = self.times;
                let ghost old_times = millis_of_all(times@);
                times.append(&mut more);
                assert(millis_of_all(times@) == old_times + new_times);
                Ok(Scan { times, ..self })
            },
            Err(error) => Err(error),
        }
    }

    fn take_option(self, option: &str, value: &Argument) -> (r: Result<Scan>)
        requires
            takes_value(option@),
        ensures
            error::seen(r) == scan_option(self@, option@, value@),
    {
        if same_text(option, "-t") || same_text(option, "--at") {
            self.take_times(value)
        } else if same_text(option, "--every") {
            if !value.unicode {
                return Err(AppError::new("分段时长必须是有效 UTF-8 文本"));
            }
            match SegmentDuration::from_str(value.text.as_str()) {
                Ok(duration) => Ok(Scan { every: Some(duration), ..self }),
                Err(error) => Err(error),
            }
        } else if same_text(option, "--size") {
            if !value.unicode {
                return Err(AppError::new("目标大小必须是有效 UTF-8 文本"));
            }
            match TargetSize::from_str(value.text.as_str()) {
                Ok(size) => Ok(Scan { size: Some(size), ..self }),
                Err(error) => Err(error),
            }
        } else if same_text(option, "--prefix") {
            if !value.unicode {
                return Err(AppError::new("输出前缀必须是有效 UTF-8 文本"));
            }
            match validate_prefix(value.text.as_str()) {
                Ok(()) => Ok(Scan { prefix: Some(value.text.clone()), ..self }),
                Err(error) => Err(error),
            }
        } else {
            Ok(Scan { output_dir: Some(value.path.clone()), ..self })
        }
    }

    fn conclude(self) -> (r: Result<SplitArgs>)
        ensures
            error::seen(r) == conclude(self@),
    {
        let input = match self.input {
            Some(input) => input,
            None => {
                return Err(AppError::new("split 缺少输入视频"));
            },
        };
        let at: bool = self.times.len() > 0;
        if !at && self.every.is_none() && self.size.is_none() {
            return Err(AppError::new("split 必须指定 --at、--every 或 --size"));
        }
        if (at && self.every.is_some()) || (at && self.size.is_some()) || (self.every.is_some()
            && self.size.is_some()) {
            return Err(AppError::new("--at、--every 与 --size 不能同时使用"));
        }
        let mode = match (self.every, self.size) {
            (Some(duration), _) => SplitMode::Every(duration),
            (None, Some(size)) => SplitMode::Size(size),
            (None, None) => SplitMode::At(self.times),
        };
        Ok(
            SplitArgs {
                input,
                mode,
                output_dir: self.output_dir,
                prefix: self.prefix,
                overwrite: self.overwrite,
            },
        )
    }
}

/// The arguments after `split`.
pub fn parse_split(args: &[Argument]) -> (r: Result<SplitArgs>)
    ensures
        error::seen(r) == split_request(views(args@)),
{
    let mut scan = Scan::new();
    let mut index: usize = 0;
    let ghost all = views(args@);
    assert(all.skip(0) == all);
    while index < args.len()
        invariant
            index <= args@.len(),
            all == views(args@),
            scan_split(empty_scan(), all) == scan_split(scan@, all.skip(index as int)),
        decreases args@.len() - index,
    {
        let argument = args[index].text.as_str();
        let ghost rest = all.skip(index as int);
        assert(rest[0] == args@[index as int]@);
        assert(rest.skip(1) == all.skip(index + 1));
        if !scan.positional_only && is_value_option(argument) {
            if scan.every.is_some() && same_text(argument, "--every") {
                return Err(AppError::new("--every 只能指定一次"));
            }
            if scan.size.is_some() && same_text(argument, "--size") {
                return Err(AppError::new("--size 只能指定一次"));
            }
            let value = match required_value(args, index, argument) {
                Ok(value) => value,
                Err(error) => {
                    return Err(error);
                },
            };
            assert(rest[1] == value@);
            assert(rest.skip(2) == all.skip(index + 2));
            scan = match scan.take_option(argument, value) {
                Ok(next) => next,
                Err(error) => {
                    return Err(error);
                },
            };
            index += 2;
        } else {
            scan = match scan.take_single(&args[index]) {
                Ok(next) => next,
                Err(error) => {
                    return Err(error);
                },
            };
            index += 1;
        }
    }
    scan.conclude()
}

/// A word that `concat` does not know decides the outcome, whatever follows it.
proof fn lemma_scan_concat_stops(args: Seq<ArgumentView>, length: int)
    requires
        0 <= length <= args.len(),
        scan_concat(args.take(length)) is Err,
    ensures
        scan_concat(args) == scan_concat(args.take(length)),
    decreases args.len() - length,
{
    if length == args.len() {
        assert(args.take(length) == args);
    } else {
        assert(args.take(length + 1).drop_last() == args.take(length));
        lemma_scan_concat_stops(args, length + 1);
    }
}

/// The arguments after `concat`.
pub fn parse_concat(args: &[Argument]) -> (r: Result<ConcatArgs>)
    ensures
        error::seen(r) == concat_request(views(args@)),
{
    let mut paths: Vec<PathBuf> = Vec::new();
    let mut overwrite: bool = false;
    let mut positional_only: bool = false;
    let mut index: usize = 0;
    let ghost all = views(args@);
    assert(all.take(0) == Seq::<ArgumentView>::empty());
    assert(paths@ == Seq::<PathBuf>::empty());
    while index < args.len()
        invariant
            index <= args@.len(),
            all == views(args@),
            scan_concat(all.take(index as int)) == Ok::<ConcatScan, Seq<char>>(
                (ConcatScan { paths: paths@, overwrite, positional_only }),
            ),
        decreases args@.len() - index,
    {
        let value = args[index].text.as_str();
        assert(all.take(index + 1).drop_last() == all.take(index as int));
        assert(all.take(index + 1).last() == args@[index as int]@);
        if !positional_only && same_text(value, "--") {
            positional_only = true;
        } else if !positional_only && (same_text(value, "-y") || same_text(value, "--overwrite")) {
            overwrite = true;
        } else if !positional_only && starts_with_dash(value) {
            proof {
                lemma_scan_concat_stops(all, index + 1);
            }
            return Err(AppError::about("concat 的未知选项 `", value, "`"));
        } else {
            paths.push(args[index].path.clone());
        }
        index += 1;
    }
    assert(all.take(all.len() as int) == all);
    if paths.len() < 3 {
        return Err(
            AppError::new("concat 需要一个输出视频和至少两个输入视频"),
        );
    }
    let ghost all_paths = paths@;
    let output = paths.remove(0);
    assert(paths@ == all_paths.skip(1));
    Ok(ConcatArgs { output, inputs: paths, overwrite })
}

/// What the arguments of the program, without its own name, ask for.
pub fn parse(args: &[Argument]) -> (r: Result<Action>)
    ensures
        error::seen(r) == action_of(views(args@)),
{
    if args.len() == 0 {
        return Ok(Action::Help);
    }
    let ghost all = views(args@);
    let first = args[0].text.as_str();
    assert(all[0] == args@[0]@);
    if same_text(first, "-h") || same_text(first, "--help") || same_text(first, "help") {
        return Ok(Action::Help);
    }
    if same_text(first, "-V") || same_text(first, "--version") || same_text(first, "version") {
        return Ok(Action::Version);
    }
    let mut index: usize = 1;
    while index < args.len()
        invariant
            1 <= index <= args@.len(),
            all == views(args@),
            all.len() > 0,
            first@ == all[0].text,
            first@ != "-V"@ && first@ != "--version"@ && first@ != "version"@,
            forall|i: int| 1 <= i < index ==> !is_help_flag(#[trigger] all[i]),
        decreases args@.len() - index,
    {
        let arg = &args[index];
        assert(all[index as int] == arg@);
        if arg.unicode && (same_text(arg.text.as_str(), "-h") || same_text(
            arg.text.as_str(),
            "--help",
        )) {
            assert(is_help_flag(all[index as int]));
            return Ok(Action::Help);
        }
        index += 1;
    }
    let rest = vstd::slice::slice_subrange(args, 1, args.len());
    assert(views(rest@) == all.skip(1));
    if same_text(first, "split") {
        match parse_split(rest) {
            Ok(args) => Ok(Action::Run(Command::Split(args))),
            Err(error) => Err(error),
        }
    } else if same_text(first, "concat") {
        match parse_concat(rest) {
            Ok(args) => Ok(Action::Run(Command::Concat(args))),
            Err(error) => Err(error),
        }
    } else {
        Err(
            AppError::about(
                "未知命令 `",
                first,
                "`；运行 `vidsplice --help` 查看用法",
            ),
        )
    }
}

// ---------------------------------------------------------------------------
// Laws
// ---------------------------------------------------------------------------

/// Without arguments, and wherever an argument asks for help, help is what is given; unless the
/// first asks for the version.
pub proof fn law_help(args: Seq<ArgumentView>)
    ensures
        args.len() == 0 ==> action_of(args) == Ok::<ActionView, Seq<char>>(ActionView::Help),
        (exists|i: int| 1 <= i < args.len() && is_help_flag(#[trigger] args[i])) && args[0].text
            != "-V"@ && args[0].text != "--version"@ && args[0].text != "version"@ ==> action_of(
            args,
        ) == Ok::<ActionView, Seq<char>>(ActionView::Help),
{
}

/// The words that ask for help: `help` in the first place, and `-h` or `--help` in any.
pub proof fn law_help_words(args: Seq<ArgumentView>)
    ensures
        args.len() > 0 && (args[0].text == "-h"@ || args[0].text == "--help"@ || args[0].text
            == "help"@) ==> action_of(args) == Ok::<ActionView, Seq<char>>(ActionView::Help),
        (exists|i: int|
            1 <= i < args.len() && (#[trigger] args[i]).unicode && (args[i].text == "-h"@
                || args[i].text == "--help"@)) && args[0].text != "-V"@ && args[0].text
            != "--version"@ && args[0].text != "version"@ ==> action_of(args) == Ok::<
            ActionView,
            Seq<char>,
        >(ActionView::Help),
{
    if exists|i: int|
        1 <= i < args.len() && (#[trigger] args[i]).unicode && (args[i].text == "-h"@
            || args[i].text == "--help"@) {
        let i = choose|i: int|
            1 <= i < args.len() && (#[trigger] args[i]).unicode && (args[i].text == "-h"@
                || args[i].text == "--help"@);
        assert(is_help_flag(args[i]));
    }
}

/// A scan ends in a request exactly where it has an input and one of the three modes, and the
/// request has that mode.
pub proof fn law_exactly_one_mode(scan: SplitScan)
    ensures
        conclude(scan) is Ok <==> scan.input is Some && (scan.times.len() > 0 || scan.every is Some
            || scan.size is Some) && !(scan.times.len() > 0 && scan.every is Some) && !(
        scan.times.len() > 0 && scan.size is Some) && !(scan.every is Some && scan.size is Some),
        conclude(scan) matches Ok(request) ==> {
            &&& scan.times.len() > 0 ==> request.mode == ModeView::At(scan.times)
            &&& scan.every matches Some(millis) ==> request.mode == ModeView::Every(millis)
            &&& scan.size matches Some(bytes) ==> request.mode == ModeView::Size(bytes)
        },
{
}

/// Whether all that was scanned makes sense: times and sizes are more than nothing and fit in 64
/// bits, and the prefix names a file in the output directory.
pub open spec fn is_sound_scan(scan: SplitScan) -> bool {
    &&& forall|i: int| 0 <= i < scan.times.len() ==> 0 < #[trigger] scan.times[i] <= u64::MAX
    &&& scan.every matches Some(millis) ==> 0 < millis <= u64::MAX
    &&& scan.size matches Some(bytes) ==> 0 < bytes <= u64::MAX
    &&& scan.prefix matches Some(prefix) ==> is_valid_prefix(prefix)
}

proof fn lemma_times_positive(items: Seq<Seq<char>>)
    ensures
        times_of(items) matches Ok(times) ==> times.len() == items.len() && forall|i: int|
            0 <= i < times.len() ==> 0 < #[trigger] times[i] <= u64::MAX,
    decreases items.len(),
{
    if items.len() > 0 {
        lemma_times_positive(items.drop_last());
        time::law_timestamp_range(items.last());
    }
}

proof fn lemma_sound_scan(scan: SplitScan, args: Seq<ArgumentView>)
    requires
        is_sound_scan(scan),
    ensures
        scan_split(scan, args) matches Ok(end) ==> is_sound_scan(end),
    decreases args.len(),
{
    if args.len() > 0 {
        if !scan.positional_only && takes_value(args[0].text) {
            if option_failure(scan, args[0].text, args.len() > 1) is None {
                lemma_times_positive(text::split(args[1].text, ','));
                time::law_duration_range(args[1].text);
                size::law_size_range(args[1].text);
                match scan_option(scan, args[0].text, args[1]) {
                    Ok(next) => {
                        assert(is_sound_scan(next));
                        lemma_sound_scan(next, args.skip(2));
                    },
                    Err(_) => {},
                }
            }
        } else {
            match scan_single(scan, args[0]) {
                Ok(next) => {
                    lemma_sound_scan(next, args.skip(1));
                },
                Err(_) => {},
            }
        }
    }
}

/// A request makes sense: there is at least one point in time where points in time are asked for;
/// times and sizes are more than nothing and fit in 64 bits; and the prefix names a file in the
/// output directory.
pub proof fn law_split_request(args: Seq<ArgumentView>)
    ensures
        split_request(args) matches Ok(request) ==> {
            &&& match request.mode {
                ModeView::At(times) => times.len() > 0 && forall|i: int|
                    0 <= i < times.len() ==> 0 < #[trigger] times[i] <= u64::MAX,
                ModeView::Every(millis) => 0 < millis <= u64::MAX,
                ModeView::Size(bytes) => 0 < bytes <= u64::MAX,
            }
            &&& request.prefix matches Some(prefix) ==> is_valid_prefix(prefix)
        },
{
    lemma_sound_scan(empty_scan(), args);
}

proof fn lemma_times_of_both(first: Seq<Seq<char>>, second: Seq<Seq<char>>)
    ensures
        times_of(first + second) == (match times_of(first) {
            Err(message) => Err(message),
            Ok(times) => match times_of(second) {
                Err(message) => Err(message),
                Ok(more) => Ok(times + more),
            },
        }),
    decreases second.len(),
{
    let both = first + second;
    if second.len() == 0 {
        assert(both == first);
        match times_of(first) {
            Ok(times) => {
                assert(times + Seq::<nat>::empty() == times);
            },
            Err(_) => {},
        }
    } else {
        lemma_times_of_both(first, second.drop_last());
        assert(both.drop_last() == first + second.drop_last());
        assert(both.last() == second.last());
        match (times_of(first), times_of(second.drop_last()), time::timestamp_of(second.last())) {
            (Ok(times), Ok(more), Ok(millis)) => {
                assert((times + more).push(millis) == times + more.push(millis));
            },
            _ => {},
        }
    }
}

/// Points in time that are given are added to those that are known.
proof fn lemma_scan_times(
    scan: SplitScan,
    option: ArgumentView,
    value: ArgumentView,
    rest: Seq<ArgumentView>,
)
    requires
        !scan.positional_only,
        option.text == "-t"@ || option.text == "--at"@,
        value.unicode,
    ensures
        scan_split(scan, seq![option, value] + rest) == (match times_of(
            text::split(value.text, ','),
        ) {
            Err(message) => Err(message),
            Ok(times) => scan_split((SplitScan { times: scan.times + times, ..scan }), rest),
        }),
{
    let args = seq![option, value] + rest;
    assert(option.text != "--every"@ && option.text != "--size"@) by {
        reveal_strlit("-t");
        reveal_strlit("--at");
        reveal_strlit("--every");
        reveal_strlit("--size");
        assert("--every"@.len() == 7 && "--size"@.len() == 6);
    }
    assert(args[0] == option && args[1] == value);
    assert(args.skip(2) == rest);
}

/// Points in time may be given one by one or with commas between them.
pub proof fn law_times_with_commas(
    scan: SplitScan,
    option: ArgumentView,
    first: ArgumentView,
    second: ArgumentView,
    both: ArgumentView,
    rest: Seq<ArgumentView>,
)
    requires
        !scan.positional_only,
        option.text == "-t"@ || option.text == "--at"@,
        first.unicode && second.unicode && both.unicode,
        both.text == first.text.push(',') + second.text,
    ensures
        scan_split(scan, seq![option, first, option, second] + rest) == scan_split(
            scan,
            seq![option, both] + rest,
        ),
{
    text::law_split_two(first.text, ',', second.text);
    lemma_times_of_both(text::split(first.text, ','), text::split(second.text, ','));
    lemma_scan_times(scan, option, both, rest);
    lemma_scan_times_twice(scan, option, first, second, rest);
}

/// Points in time that are given twice are added to those that are known, one after the other.
proof fn lemma_scan_times_twice(
    scan: SplitScan,
    option: ArgumentView,
    first: ArgumentView,
    second: ArgumentView,
    rest: Seq<ArgumentView>,
)
    requires
        !scan.positional_only,
        option.text == "-t"@ || option.text == "--at"@,
        first.unicode && second.unicode,
    ensures
        scan_split(scan, seq![option, first, option, second] + rest) == (match times_of(
            text::split(first.text, ','),
        ) {
            Err(message) => Err(message),
            Ok(times) => match times_of(text::split(second.text, ',')) {
                Err(message) => Err(message),
                Ok(more) => scan_split(
                    (SplitScan { times: scan.times + (times + more), ..scan }),
                    rest,
                ),
            },
        }),
{
    let tail = seq![option, second] + rest;
    assert(seq![option, first, option, second] + rest == seq![option, first] + tail);
    lemma_scan_times(scan, option, first, tail);
    match times_of(text::split(first.text, ',')) {
        Ok(times) => {
            let next = SplitScan { times: scan.times + times, ..scan };
            lemma_scan_times(next, option, second, rest);
            match times_of(text::split(second.text, ',')) {
                Ok(more) => {
                    assert(scan.times + times + more == scan.times + (times + more));
                },
                Err(_) => {},
            }
        },
        Err(_) => {},
    }
}

/// After `--` an argument is the input, however it is spelled.
pub proof fn law_input_after_dashes(scan: SplitScan, dashes: ArgumentView, input: ArgumentView)
    requires
        !scan.positional_only,
        scan.input is None,
        dashes.text == "--"@,
    ensures
        scan_split(scan, seq![dashes, input]) == Ok::<SplitScan, Seq<char>>(
            (SplitScan { input: Some(input.path), positional_only: true, ..scan }),
        ),
{
    reveal_strlit("--");
    reveal_strlit("-t");
    reveal_strlit("--at");
    reveal_strlit("--every");
    reveal_strlit("--size");
    reveal_strlit("-o");
    reveal_strlit("--output-dir");
    reveal_strlit("--prefix");
    let args = seq![dashes, input];
    assert(dashes.text[1] == '-');
    assert(!takes_value(dashes.text)) by {
        assert(dashes.text.len() == 2);
        assert("-t"@[1] == 't');
        assert("-o"@[1] == 'o');
    }
    let next = SplitScan { positional_only: true, ..scan };
    assert(args.skip(1) == seq![input]);
    assert(seq![input].skip(1) == Seq::<ArgumentView>::empty());
    reveal_with_fuel(scan_split, 3);
}

pub open spec fn starts_with_a_dash(arg: ArgumentView) -> bool {
    arg.text.len() > 0 && arg.text[0] == '-'
}

/// Arguments that do not start with a dash are the output and the inputs, in their order.
pub proof fn law_concat_in_order(args: Seq<ArgumentView>)
    requires
        forall|i: int|
            0 <= i < args.len() ==> !starts_with_a_dash(#[trigger] args[i]),
        args.len() >= 3,
    ensures
        concat_request(args) == Ok::<ConcatRequest, Seq<char>>(
            (ConcatRequest {
                output: args[0].path,
                inputs: args.skip(1).map_values(|arg: ArgumentView| arg.path),
                overwrite: false,
            }),
        ),
{
    lemma_concat_paths(args);
    let paths = args.map_values(|arg: ArgumentView| arg.path);
    assert(paths.skip(1) == args.skip(1).map_values(|arg: ArgumentView| arg.path));
}

proof fn lemma_concat_paths(args: Seq<ArgumentView>)
    requires
        forall|i: int|
            0 <= i < args.len() ==> !starts_with_a_dash(#[trigger] args[i]),
    ensures
        scan_concat(args) == Ok::<ConcatScan, Seq<char>>(
            (ConcatScan {
                paths: args.map_values(|arg: ArgumentView| arg.path),
                overwrite: false,
                positional_only: false,
            }),
        ),
    decreases args.len(),
{
    let paths = args.map_values(|arg: ArgumentView| arg.path);
    if args.len() == 0 {
        assert(paths == Seq::<PathBuf>::empty());
    } else {
        let front = args.drop_last();
        assert forall|i: int| 0 <= i < front.len() implies !starts_with_a_dash(
            #[trigger] front[i],
        ) by {
            assert(front[i] == args[i]);
        }
        lemma_concat_paths(front);
        let last = args.last();
        assert(last == args[args.len() - 1]);
        reveal_strlit("--");
        reveal_strlit("-y");
        reveal_strlit("--overwrite");
        assert(last.text != "--"@ && last.text != "-y"@ && last.text != "--overwrite"@) by {
            assert("--"@[0] == '-' && "-y"@[0] == '-' && "--overwrite"@[0] == '-');
        }
        assert(paths == front.map_values(|arg: ArgumentView| arg.path).push(last.path));
    }
}

/// Whatever is joined, there is one output and at least two inputs.
pub proof fn law_concat_at_least_two(args: Seq<ArgumentView>)
    ensures
        concat_request(args) matches Ok(request) ==> request.inputs.len() >= 2,
{
}

/// A request hands on what was scanned, in each of the three modes.
pub proof fn law_request_hands_on(scan: SplitScan)
    ensures
        conclude(scan) matches Ok(request) ==> {
            &&& scan.input == Some(request.input)
            &&& request.output_dir == scan.output_dir
            &&& request.prefix == scan.prefix
            &&& request.overwrite == scan.overwrite
        },
        scan.input is None ==> conclude(scan) == Err::<SplitRequest, Seq<char>>(
            "split 缺少输入视频"@,
        ),
        scan.input is Some && scan.times.len() == 0 && scan.every is None && scan.size is None
            ==> conclude(scan) == Err::<SplitRequest, Seq<char>>(
            "split 必须指定 --at、--every 或 --size"@,
        ),
        scan.input is Some && ((scan.times.len() > 0 && scan.every is Some) || (scan.times.len() > 0
            && scan.size is Some) || (scan.every is Some && scan.size is Some)) ==> conclude(scan)
            == Err::<SplitRequest, Seq<char>>("--at、--every 与 --size 不能同时使用"@),
{
}

/// A request is what the scan of all arguments amounts to, from a scan that holds nothing.
pub proof fn law_request_of_scan(args: Seq<ArgumentView>, scan: SplitScan)
    requires
        scan_split(
            (SplitScan {
                input: None,
                times: Seq::empty(),
                every: None,
                size: None,
                output_dir: None,
                prefix: None,
                overwrite: false,
                positional_only: false,
            }),
            args,
        ) == Ok::<SplitScan, Seq<char>>(scan),
    ensures
        split_request(args) == conclude(scan),
        scan_split(scan, Seq::empty()) == Ok::<SplitScan, Seq<char>>(scan),
{
}

/// What a scan refuses is refused.
pub proof fn law_request_refused(args: Seq<ArgumentView>, message: Seq<char>)
    requires
        scan_split(
            (SplitScan {
                input: None,
                times: Seq::empty(),
                every: None,
                size: None,
                output_dir: None,
                prefix: None,
                overwrite: false,
                positional_only: false,
            }),
            args,
        ) == Err::<SplitScan, Seq<char>>(message),
    ensures
        split_request(args) == Err::<SplitRequest, Seq<char>>(message),
{
}

/// An option that takes a value, with the value behind it.
proof fn lemma_option_first(
    scan: SplitScan,
    option: ArgumentView,
    value: ArgumentView,
    rest: Seq<ArgumentView>,
)
    requires
        !scan.positional_only,
        takes_value(option.text),
    ensures
        scan_split(scan, seq![option, value] + rest) == (match option_failure(
            scan,
            option.text,
            true,
        ) {
            Some(message) => Err(message),
            None => match scan_option(scan, option.text, value) {
                Err(message) => Err(message),
                Ok(next) => scan_split(next, rest),
            },
        }),
{
    let args = seq![option, value] + rest;
    assert(args[0] == option && args[1] == value);
    assert(args.skip(2) == rest);
}

/// The names of the options differ.
proof fn lemma_options()
    ensures
        "-t"@ != "-o"@,
        "-t"@ != "--"@,
        "-o"@ != "--"@,
        "-t"@ != "-y"@,
        "-o"@ != "-y"@,
        "--"@ != "-y"@,
        "-t"@.len() == 2,
        "-o"@.len() == 2,
        "--"@.len() == 2,
        "-y"@.len() == 2,
        "--at"@.len() == 4,
        "--every"@.len() == 7,
        "--size"@.len() == 6,
        "--output-dir"@.len() == 12,
        "--prefix"@.len() == 8,
        "--overwrite"@.len() == 11,
        "-t"@[0] == '-',
        "-o"@[0] == '-',
        "--"@[0] == '-',
        "-y"@[0] == '-',
        "--at"@[0] == '-',
        "--every"@[0] == '-',
        "--size"@[0] == '-',
        "--output-dir"@[0] == '-',
        "--prefix"@[0] == '-',
        "--overwrite"@[0] == '-',
{
    reveal_strlit("-t");
    reveal_strlit("-o");
    reveal_strlit("--");
    reveal_strlit("-y");
    reveal_strlit("--at");
    reveal_strlit("--every");
    reveal_strlit("--size");
    reveal_strlit("--output-dir");
    reveal_strlit("--prefix");
    reveal_strlit("--overwrite");
    assert("-t"@[1] == 't' && "-o"@[1] == 'o' && "--"@[1] == '-' && "-y"@[1] == 'y');
}

/// `-o` and `--output-dir` set the output directory to the path behind them, whatever was known
/// before, and nothing else.
pub proof fn law_output_dir(
    scan: SplitScan,
    option: ArgumentView,
    value: ArgumentView,
    rest: Seq<ArgumentView>,
)
    requires
        !scan.positional_only,
        option.text == "-o"@ || option.text == "--output-dir"@,
    ensures
        scan_split(scan, seq![option, value] + rest) == scan_split(
            (SplitScan { output_dir: Some(value.path), ..scan }),
            rest,
        ),
{
    lemma_options();
    lemma_option_first(scan, option, value, rest);
}

/// `--prefix` sets the prefix to the text behind it, whatever was known before, and nothing else;
/// where that is Unicode, not empty, not `.` or `..`, and holds no slash or backslash.
pub proof fn law_prefix(
    scan: SplitScan,
    option: ArgumentView,
    value: ArgumentView,
    rest: Seq<ArgumentView>,
)
    requires
        !scan.positional_only,
        option.text == "--prefix"@,
    ensures
        ({
            let fits = value.text.len() > 0 && value.text != "."@ && value.text != ".."@
                && !value.text.contains('/') && !value.text.contains('\\');
            let end = scan_split(scan, seq![option, value] + rest);
            &&& value.unicode && fits ==> end == scan_split(
                (SplitScan { prefix: Some(value.text), ..scan }),
                rest,
            )
            &&& value.unicode && !fits ==> end == Err::<SplitScan, Seq<char>>(
                "输出前缀不能为空、`.`、`..`，也不能包含路径分隔符"@,
            )
            &&& !value.unicode ==> end == Err::<SplitScan, Seq<char>>(
                "输出前缀必须是有效 UTF-8 文本"@,
            )
        }),
{
    lemma_options();
    lemma_option_first(scan, option, value, rest);
}

/// `--every` sets the duration to the one that is named behind it, once, and nothing else.
pub proof fn law_every(
    scan: SplitScan,
    option: ArgumentView,
    value: ArgumentView,
    rest: Seq<ArgumentView>,
)
    requires
        !scan.positional_only,
        option.text == "--every"@,
    ensures
        ({
            let end = scan_split(scan, seq![option, value] + rest);
            &&& scan.every is Some ==> end == Err::<SplitScan, Seq<char>>("--every 只能指定一次"@)
            &&& scan.every is None && !value.unicode ==> end == Err::<SplitScan, Seq<char>>(
                "分段时长必须是有效 UTF-8 文本"@,
            )
            &&& scan.every is None && value.unicode ==> match time::duration_of(value.text) {
                Ok(millis) => end == scan_split((SplitScan { every: Some(millis), ..scan }), rest),
                Err(message) => end == Err::<SplitScan, Seq<char>>(message),
            }
        }),
{
    lemma_options();
    lemma_option_first(scan, option, value, rest);
}

/// `--size` sets the size to the one that is named behind it, once, and nothing else.
pub proof fn law_size(
    scan: SplitScan,
    option: ArgumentView,
    value: ArgumentView,
    rest: Seq<ArgumentView>,
)
    requires
        !scan.positional_only,
        option.text == "--size"@,
    ensures
        ({
            let end = scan_split(scan, seq![option, value] + rest);
            &&& scan.size is Some ==> end == Err::<SplitScan, Seq<char>>("--size 只能指定一次"@)
            &&& scan.size is None && !value.unicode ==> end == Err::<SplitScan, Seq<char>>(
                "目标大小必须是有效 UTF-8 文本"@,
            )
            &&& scan.size is None && value.unicode ==> match size::size_of(value.text) {
                Ok(bytes) => end == scan_split((SplitScan { size: Some(bytes), ..scan }), rest),
                Err(message) => end == Err::<SplitScan, Seq<char>>(message),
            }
        }),
{
    lemma_options();
    lemma_option_first(scan, option, value, rest);
}

/// `-t` and `--at` add the points in time that are named behind them, as many as there are texts
/// between commas and each at its place, and nothing else; up to the first that names none, whose
/// message is given.
pub proof fn law_at(
    scan: SplitScan,
    option: ArgumentView,
    value: ArgumentView,
    times: Seq<nat>,
    rest: Seq<ArgumentView>,
)
    requires
        !scan.positional_only,
        option.text == "-t"@ || option.text == "--at"@,
        value.unicode,
        times.len() == text::split(value.text, ',').len(),
        forall|i: int|
            0 <= i < times.len() ==> time::timestamp_of(#[trigger] text::split(value.text, ',')[i])
                == Ok::<nat, Seq<char>>(times[i]),
    ensures
        scan_split(scan, seq![option, value] + rest) == scan_split(
            (SplitScan { times: scan.times + times, ..scan }),
            rest,
        ),
{
    lemma_scan_times(scan, option, value, rest);
    lemma_times_of_each(text::split(value.text, ','), times);
}

proof fn lemma_times_of_each(items: Seq<Seq<char>>, times: Seq<nat>)
    requires
        times.len() == items.len(),
        forall|i: int|
            0 <= i < times.len() ==> time::timestamp_of(#[trigger] items[i]) == Ok::<
                nat,
                Seq<char>,
            >(times[i]),
    ensures
        times_of(items) == Ok::<Seq<nat>, Seq<char>>(times),
    decreases items.len(),
{
    if items.len() > 0 {
        let front = items.drop_last();
        let earlier = times.drop_last();
        assert forall|i: int| 0 <= i < earlier.len() implies time::timestamp_of(#[trigger] front[i])
            == Ok::<nat, Seq<char>>(earlier[i]) by {
            assert(front[i] == items[i]);
        }
        lemma_times_of_each(front, earlier);
        assert(items.last() == items[items.len() - 1]);
        assert(earlier.push(times.last()) == times);
    } else {
        assert(times == Seq::<nat>::empty());
    }
}

/// A point in time that is none is told, the first of them.
pub proof fn law_at_fails(
    scan: SplitScan,
    option: ArgumentView,
    value: ArgumentView,
    bad: int,
    message: Seq<char>,
    rest: Seq<ArgumentView>,
)
    requires
        !scan.positional_only,
        option.text == "-t"@ || option.text == "--at"@,
        value.unicode ==> 0 <= bad < text::split(value.text, ',').len() && time::timestamp_of(
            text::split(value.text, ',')[bad],
        ) == Err::<nat, Seq<char>>(message) && forall|i: int|
            0 <= i < bad ==> time::timestamp_of(#[trigger] text::split(value.text, ',')[i]) is Ok,
    ensures
        value.unicode ==> scan_split(scan, seq![option, value] + rest) == Err::<
            SplitScan,
            Seq<char>,
        >(message),
        !value.unicode ==> scan_split(scan, seq![option, value] + rest) == Err::<
            SplitScan,
            Seq<char>,
        >("时间点必须是有效 UTF-8 文本"@),
{
    lemma_options();
    if value.unicode {
        lemma_scan_times(scan, option, value, rest);
        lemma_times_of_bad(text::split(value.text, ','), bad, message);
    } else {
        lemma_option_first(scan, option, value, rest);
    }
}

proof fn lemma_times_of_bad(items: Seq<Seq<char>>, bad: int, message: Seq<char>)
    requires
        0 <= bad < items.len(),
        time::timestamp_of(items[bad]) == Err::<nat, Seq<char>>(message),
        forall|i: int| 0 <= i < bad ==> time::timestamp_of(#[trigger] items[i]) is Ok,
    ensures
        times_of(items) == Err::<Seq<nat>, Seq<char>>(message),
    decreases items.len(),
{
    let front = items.drop_last();
    assert forall|i: int| 0 <= i < bad implies time::timestamp_of(#[trigger] front[i]) is Ok by {
        assert(front[i] == items[i]);
    }
    if bad < items.len() - 1 {
        assert(front[bad] == items[bad]);
        lemma_times_of_bad(front, bad, message);
    } else {
        assert(items.last() == items[bad]);
        lemma_times_of_good(front);
    }
}

proof fn lemma_times_of_good(items: Seq<Seq<char>>)
    requires
        forall|i: int| 0 <= i < items.len() ==> time::timestamp_of(#[trigger] items[i]) is Ok,
    ensures
        times_of(items) is Ok,
    decreases items.len(),
{
    if items.len() > 0 {
        let front = items.drop_last();
        assert forall|i: int| 0 <= i < front.len() implies time::timestamp_of(
            #[trigger] front[i],
        ) is Ok by {
            assert(front[i] == items[i]);
        }
        assert(items.last() == items[items.len() - 1]);
        lemma_times_of_good(front);
    }
}

/// An option that takes a value and is the last argument is told.
pub proof fn law_missing_value(scan: SplitScan, option: ArgumentView)
    requires
        !scan.positional_only,
        option.text == "-t"@ || option.text == "--at"@ || option.text == "-o"@ || option.text
            == "--output-dir"@ || option.text == "--prefix"@ || (option.text == "--every"@
            && scan.every is None) || (option.text == "--size"@ && scan.size is None),
    ensures
        scan_split(scan, seq![option]) == Err::<SplitScan, Seq<char>>(
            "选项 `"@ + option.text + "` 缺少值"@,
        ),
{
    lemma_options();
    assert(seq![option].len() == 1);
}

/// `-y` and `--overwrite` allow overwriting, `--` ends the options, and nothing else.
pub proof fn law_flags(scan: SplitScan, flag: ArgumentView, rest: Seq<ArgumentView>)
    requires
        !scan.positional_only,
    ensures
        flag.text == "-y"@ || flag.text == "--overwrite"@ ==> scan_split(scan, seq![flag] + rest)
            == scan_split((SplitScan { overwrite: true, ..scan }), rest),
        flag.text == "--"@ ==> scan_split(scan, seq![flag] + rest) == scan_split(
            (SplitScan { positional_only: true, ..scan }),
            rest,
        ),
{
    lemma_options();
    let args = seq![flag] + rest;
    assert(args[0] == flag);
    assert(args.skip(1) == rest);
}

/// Any other argument is the input, the first of them, and nothing else; where it does not start
/// with a dash, or stands behind `--`. Else it is an unknown option.
pub proof fn law_input(scan: SplitScan, input: ArgumentView, rest: Seq<ArgumentView>)
    ensures
        ({
            let end = scan_split(scan, seq![input] + rest);
            let dashed = input.text.len() > 0 && input.text[0] == '-';
            let known = input.text == "-t"@ || input.text == "--at"@ || input.text == "--every"@
                || input.text == "--size"@ || input.text == "-o"@ || input.text == "--output-dir"@
                || input.text == "--prefix"@ || input.text == "-y"@ || input.text == "--overwrite"@
                || input.text == "--"@;
            &&& (scan.positional_only || !dashed) && scan.input is None ==> end == scan_split(
                (SplitScan { input: Some(input.path), ..scan }),
                rest,
            )
            &&& (scan.positional_only || !dashed) && scan.input is Some ==> end == Err::<
                SplitScan,
                Seq<char>,
            >("split 只能指定一个输入视频"@)
            &&& !scan.positional_only && dashed && !known ==> end == Err::<SplitScan, Seq<char>>(
                "split 的未知选项 `"@ + input.text + "`"@,
            )
        }),
{
    lemma_options();
    let args = seq![input] + rest;
    assert(args[0] == input);
    assert(args.skip(1) == rest);
}

/// Whether one of the arguments has this text.
pub open spec fn mentions(args: Seq<ArgumentView>, option: Seq<char>) -> bool {
    exists|i: int| 0 <= i < args.len() && (#[trigger] args[i]).text == option
}

proof fn lemma_mentions_rest(args: Seq<ArgumentView>, from: int, option: Seq<char>)
    requires
        0 <= from <= args.len(),
        !mentions(args, option),
    ensures
        !mentions(args.skip(from), option),
{
    let rest = args.skip(from);
    if mentions(rest, option) {
        let i = choose|i: int| 0 <= i < rest.len() && (#[trigger] rest[i]).text == option;
        assert(args[i + from].text == option);
    }
}

/// What no argument mentions stays as it was: an option sets only what it is for.
pub proof fn law_untouched(scan: SplitScan, args: Seq<ArgumentView>)
    ensures
        scan_split(scan, args) matches Ok(end) ==> {
            &&& !mentions(args, "-o"@) && !mentions(args, "--output-dir"@) ==> end.output_dir
                == scan.output_dir
            &&& !mentions(args, "--prefix"@) ==> end.prefix == scan.prefix
            &&& !mentions(args, "--every"@) ==> end.every == scan.every
            &&& !mentions(args, "--size"@) ==> end.size == scan.size
            &&& !mentions(args, "-t"@) && !mentions(args, "--at"@) ==> end.times == scan.times
            &&& !mentions(args, "-y"@) && !mentions(args, "--overwrite"@) ==> end.overwrite
                == scan.overwrite
            &&& scan.input is Some ==> end.input == scan.input
            &&& scan.overwrite ==> end.overwrite
        },
    decreases args.len(),
{
    lemma_options();
    if args.len() > 0 {
        assert(args[0].text == args[0].text);
        if !scan.positional_only && takes_value(args[0].text) {
            if option_failure(scan, args[0].text, args.len() > 1) is None {
                match scan_option(scan, args[0].text, args[1]) {
                    Ok(next) => {
                        law_untouched(next, args.skip(2));
                        lemma_untouched_rest(args, 2);
                    },
                    Err(_) => {},
                }
            }
        } else {
            match scan_single(scan, args[0]) {
                Ok(next) => {
                    law_untouched(next, args.skip(1));
                    lemma_untouched_rest(args, 1);
                },
                Err(_) => {},
            }
        }
    }
}

proof fn lemma_untouched_rest(args: Seq<ArgumentView>, from: int)
    requires
        0 <= from <= args.len(),
    ensures
        forall|option: Seq<char>|
            !(#[trigger] mentions(args, option)) ==> !mentions(args.skip(from), option),
{
    assert forall|option: Seq<char>| !(#[trigger] mentions(args, option)) implies !mentions(
        args.skip(from),
        option,
    ) by {
        lemma_mentions_rest(args, from, option);
    }
}

/// The output directory is that of the last `-o` or `--output-dir`.
pub proof fn law_last_output_dir(
    scan: SplitScan,
    option: ArgumentView,
    value: ArgumentView,
    rest: Seq<ArgumentView>,
)
    requires
        !scan.positional_only,
        option.text == "-o"@ || option.text == "--output-dir"@,
        !mentions(rest, "-o"@),
        !mentions(rest, "--output-dir"@),
    ensures
        scan_split(scan, seq![option, value] + rest) matches Ok(end) ==> end.output_dir == Some(
            value.path,
        ),
{
    law_output_dir(scan, option, value, rest);
    law_untouched((SplitScan { output_dir: Some(value.path), ..scan }), rest);
}

/// The first argument is the command: the others are handed to it where none asks for help.
pub proof fn law_commands(args: Seq<ArgumentView>)
    requires
        args.len() > 0,
    ensures
        args[0].text == "-h"@ || args[0].text == "--help"@ || args[0].text == "help"@ ==> action_of(
            args,
        ) == Ok::<ActionView, Seq<char>>(ActionView::Help),
        args[0].text == "-V"@ || args[0].text == "--version"@ || args[0].text == "version"@
            ==> action_of(args) == Ok::<ActionView, Seq<char>>(ActionView::Version),
        !(exists|i: int|
            1 <= i < args.len() && (#[trigger] args[i]).unicode && (args[i].text == "-h"@
                || args[i].text == "--help"@)) ==> {
            &&& args[0].text == "split"@ ==> action_of(args) == (match split_request(args.skip(1)) {
                Ok(request) => Ok(ActionView::Run(CommandView::Split(request))),
                Err(message) => Err(message),
            })
            &&& args[0].text == "concat"@ ==> action_of(args) == (match concat_request(
                args.skip(1),
            ) {
                Ok(request) => Ok(ActionView::Run(CommandView::Concat(request))),
                Err(message) => Err(message),
            })
            &&& args[0].text != "split"@ && args[0].text != "concat"@ && args[0].text != "-h"@
                && args[0].text != "--help"@ && args[0].text != "help"@ && args[0].text != "-V"@
                && args[0].text != "--version"@ && args[0].text != "version"@ ==> action_of(args)
                == Err::<ActionView, Seq<char>>(
                "未知命令 `"@ + args[0].text + "`；运行 `vidsplice --help` 查看用法"@,
            )
        },
{
    reveal_strlit("-h");
    reveal_strlit("--help");
    reveal_strlit("help");
    reveal_strlit("-V");
    reveal_strlit("--version");
    reveal_strlit("version");
    reveal_strlit("split");
    reveal_strlit("concat");
    assert("-h"@[1] == 'h' && "-V"@[1] == 'V' && "-h"@.len() == 2 && "-V"@.len() == 2
        && "--help"@.len() == 6 && "help"@.len() == 4 && "--version"@.len() == 9 && "version"@.len()
        == 7 && "split"@.len() == 5 && "concat"@.len() == 6);
    assert("concat"@[0] == 'c' && "--help"@[0] == '-');
    if exists|i: int| 1 <= i < args.len() && is_help_flag(#[trigger] args[i]) {
        let i = choose|i: int| 1 <= i < args.len() && is_help_flag(#[trigger] args[i]);
        assert(args[i].unicode && (args[i].text == "-h"@ || args[i].text == "--help"@));
    }
}

/// What one more argument says to `concat`: a path where it does not start with a dash or stands
/// behind `--`; `-y` and `--overwrite` allow overwriting; `--` ends the options; and nothing else.
pub proof fn law_concat_argument(args: Seq<ArgumentView>, arg: ArgumentView, scan: ConcatScan)
    requires
        scan_concat(args) == Ok::<ConcatScan, Seq<char>>(scan),
    ensures
        ({
            let end = scan_concat(args.push(arg));
            let dashed = arg.text.len() > 0 && arg.text[0] == '-';
            &&& scan.positional_only || !dashed ==> end == Ok::<ConcatScan, Seq<char>>(
                (ConcatScan { paths: scan.paths.push(arg.path), ..scan }),
            )
            &&& !scan.positional_only && arg.text == "--"@ ==> end == Ok::<ConcatScan, Seq<char>>(
                (ConcatScan { positional_only: true, ..scan }),
            )
            &&& !scan.positional_only && (arg.text == "-y"@ || arg.text == "--overwrite"@) ==> end
                == Ok::<ConcatScan, Seq<char>>((ConcatScan { overwrite: true, ..scan }))
            &&& !scan.positional_only && dashed && arg.text != "--"@ && arg.text != "-y"@ && arg.text
                != "--overwrite"@ ==> end == Err::<ConcatScan, Seq<char>>(
                "concat 的未知选项 `"@ + arg.text + "`"@,
            )
        }),
{
    lemma_options();
    assert(args.push(arg).drop_last() == args);
}

/// The first path is the output, the others are the inputs, at least two of them.
pub proof fn law_concat_request(args: Seq<ArgumentView>, scan: ConcatScan)
    requires
        scan_concat(args) == Ok::<ConcatScan, Seq<char>>(scan),
    ensures
        scan.paths.len() < 3 ==> concat_request(args) == Err::<ConcatRequest, Seq<char>>(
            "concat 需要一个输出视频和至少两个输入视频"@,
        ),
        scan.paths.len() >= 3 ==> (concat_request(args) matches Ok(request) && seq![request.output]
            + request.inputs == scan.paths && request.overwrite == scan.overwrite),
        scan_concat(Seq::empty()) == Ok::<ConcatScan, Seq<char>>(
            (ConcatScan { paths: Seq::empty(), overwrite: false, positional_only: false }),
        ),
{
    if scan.paths.len() >= 3 {
        assert(seq![scan.paths[0]] + scan.paths.skip(1) == scan.paths);
    }
}

/// What `concat` refuses at one argument it refuses whatever follows.
pub proof fn law_concat_refused(args: Seq<ArgumentView>, more: ArgumentView, message: Seq<char>)
    requires
        scan_concat(args) == Err::<ConcatScan, Seq<char>>(message),
    ensures
        scan_concat(args.push(more)) == Err::<ConcatScan, Seq<char>>(message),
        concat_request(args) == Err::<ConcatRequest, Seq<char>>(message),
{
    assert(args.push(more).drop_last() == args);
}

/// What the contracts see of arguments and requests is all that they hold.
pub proof fn law_cli_views(
    args: Seq<Argument>,
    i: int,
    split: SplitArgs,
    concat: ConcatArgs,
    times: Vec<Timestamp>,
    duration: SegmentDuration,
    size: TargetSize,
)
    requires
        0 <= i < args.len(),
    ensures
        views(args).len() == args.len(),
        views(args)[i] == (ArgumentView {
            text: args[i].text@,
            unicode: args[i].unicode,
            path: args[i].path,
        }),
        split@.input == split.input,
        split@.mode == split.mode@,
        split@.output_dir == split.output_dir,
        split@.overwrite == split.overwrite,
        split.prefix matches Some(prefix) ==> split@.prefix == Some(prefix@),
        split.prefix is None ==> split@.prefix is None,
        concat@.output == concat.output,
        concat@.inputs == concat.inputs@,
        concat@.overwrite == concat.overwrite,
        SplitMode::Every(duration)@ == ModeView::Every(duration@),
        SplitMode::Size(size)@ == ModeView::Size(size@),
        SplitMode::At(times)@ == ModeView::At(
            Seq::new(times@.len(), |k: int| times@[k]@),
        ),
        Action::Help@ == ActionView::Help,
        Action::Version@ == ActionView::Version,
        Action::Run(Command::Split(split))@ == ActionView::Run(CommandView::Split(split@)),
        Action::Run(Command::Concat(concat))@ == ActionView::Run(CommandView::Concat(concat@)),
{
    assert(millis_of_all(times@) == Seq::new(times@.len(), |k: int| times@[k]@));
}

} // verus!
