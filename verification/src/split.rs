//! Splitting a video: what to do next, and what the answers mean.
//!
//! A `SplitJob` says what it wants done in `action`; whoever runs it does that and tells the job
//! how it went with `answer`, until the action is to finish.

use vstd::prelude::*;
use vstd::string::StringExecFns;

use crate::cli;
use crate::cli::SplitMode;
use crate::error::{AppError, Result};
use crate::ffmpeg;
use crate::ffmpeg::PacketLayout;
use crate::text;
use crate::text::{decimal_text, join_texts};
use crate::time;
use crate::time::Timestamp;
use crate::video;
use crate::video::{
    choose_size_split_times, discover_periodic_outputs, ensure_strictly_increasing,
    matching_numbered_outputs, output_file_name, output_file_names, overwrite_flag,
    reject_split_input_collision, require_input_file, segment_pattern, utf8_component, NamePart,
};

verus! {

// ---------------------------------------------------------------------------
// Actions and answers
// ---------------------------------------------------------------------------

/// One argument of FFmpeg.
#[derive(Debug)]
pub enum CommandPart {
    Text(String),
    /// The path of the input video.
    Input,
    /// The path of the file with this name in the output directory.
    Output(String),
}

/// What a job wants done.
#[derive(Debug)]
pub enum SplitAction {
    /// Look whether the input is a file. The answer is `InputFile`.
    CheckInput,
    /// Create the output directory: the one that was asked for, or the one of this name beside the
    /// input. The answer is `Directory` or `DirectoryFailed`.
    CreateOutputDir(Option<String>),
    /// Resolve the directory of the input. The answer is `Done` or `Failed`.
    ResolveInputDir,
    /// Resolve the output directory, and compare it with that of the input. The answer is
    /// `SameDirectory` or `Failed`.
    ResolveOutputDir,
    /// Measure the input. The answer is `Size` or `Failed`.
    MeasureInput,
    /// Probe the packets of the input. The answer is `Layout` or `Refused`.
    ProbeInput,
    /// Make sure that the output directory is there. The answer is `Done` or `Failed`.
    EnsureOutputDir,
    /// Look whether something of this name is in the output directory. The answer is `Exists`.
    CheckOutput(String),
    /// List the names in the output directory. The answer is `Listed`, `Failed` or `EntryFailed`.
    ListOutputs,
    /// Remove the file of this name from the output directory. The answer is `Done` or `Failed`.
    RemoveOutput(String),
    /// Run FFmpeg. The answer is `Done` or `Refused`.
    Run(Vec<CommandPart>),
    /// Look whether a file of this name is in the output directory. The answer is `Generated`.
    CheckGenerated(String),
    /// Say how the path of this name in the output directory is shown. The answer is `Shown`.
    ShowOutput(String),
    /// Nothing more: the names of the outputs in the output directory, or why there are none.
    Finish(Result<Vec<String>>),
}

/// How what a job wanted done went.
#[derive(Debug)]
pub enum SplitAnswer {
    /// Whether the input is a file.
    InputFile(bool),
    /// The output directory was created; its text where it is Unicode, and how it is shown.
    Directory { path: Option<String>, shown: String },
    /// The output directory, shown like this, was not created; the cause.
    DirectoryFailed { shown: String, cause: String },
    /// It went well.
    Done,
    /// It did not go well; the cause.
    Failed(String),
    /// Whether the input lies in the output directory.
    SameDirectory(bool),
    /// The size of the input in bytes.
    Size(u64),
    /// The layout of the input.
    Layout(PacketLayout),
    /// FFmpeg or ffprobe did not do it.
    Refused(AppError),
    /// Whether there is something of that name.
    Exists(bool),
    /// The names in the output directory, those that are not Unicode as none.
    Listed(Vec<Option<String>>),
    /// A name in the output directory could not be read; the cause.
    EntryFailed(String),
    /// Whether there is a file of that name.
    Generated(bool),
    /// How the path is shown.
    Shown(String),
}

/// What a job is about.
#[derive(Debug)]
pub struct SplitSetup {
    /// How the path of the input is shown.
    pub input_shown: String,
    /// The extension of the input.
    pub extension: NamePart,
    /// The file name of the input without its extension.
    pub stem: NamePart,
    /// The file name of the input.
    pub file_name: NamePart,
    pub mode: SplitMode,
    /// The prefix that was asked for.
    pub prefix: Option<String>,
    pub overwrite: bool,
    /// Whether an output directory was asked for.
    pub output_dir_given: bool,
    /// What stands between a directory and what is in it.
    pub separator: String,
}

/// What is wrong with an output.
#[derive(Clone, Copy, Debug)]
pub enum Complaint {
    /// It exists and may not be overwritten.
    Exists,
    /// It exists, with others maybe, and may not be overwritten.
    SegmentsExist,
    /// It could not be removed.
    CannotRemove,
    /// FFmpeg did not make it.
    NotGenerated,
}

// ---------------------------------------------------------------------------
// As the contracts see them
// ---------------------------------------------------------------------------

/// A `CommandPart`, as the contracts see it.
pub enum PartView {
    Text(Seq<char>),
    Input,
    Output(Seq<char>),
}

impl View for CommandPart {
    type V = PartView;

    open spec fn view(&self) -> PartView {
        match self {
            CommandPart::Text(part) => PartView::Text(part@),
            CommandPart::Input => PartView::Input,
            CommandPart::Output(name) => PartView::Output(name@),
        }
    }
}

/// Arguments, as the contracts see them.
pub open spec fn parts(list: Seq<CommandPart>) -> Seq<PartView> {
    list.map_values(|part: CommandPart| part@)
}

/// A `SplitAction`, as the contracts see it.
pub enum ActionView {
    CheckInput,
    CreateOutputDir(Option<Seq<char>>),
    ResolveInputDir,
    ResolveOutputDir,
    MeasureInput,
    ProbeInput,
    EnsureOutputDir,
    CheckOutput(Seq<char>),
    ListOutputs,
    RemoveOutput(Seq<char>),
    Run(Seq<PartView>),
    CheckGenerated(Seq<char>),
    ShowOutput(Seq<char>),
    Finish(std::result::Result<Seq<Seq<char>>, Seq<char>>),
}

impl View for SplitAction {
    type V = ActionView;

    open spec fn view(&self) -> ActionView {
        match self {
            SplitAction::CheckInput => ActionView::CheckInput,
            SplitAction::CreateOutputDir(name) => ActionView::CreateOutputDir(cli::text_of(*name)),
            SplitAction::ResolveInputDir => ActionView::ResolveInputDir,
            SplitAction::ResolveOutputDir => ActionView::ResolveOutputDir,
            SplitAction::MeasureInput => ActionView::MeasureInput,
            SplitAction::ProbeInput => ActionView::ProbeInput,
            SplitAction::EnsureOutputDir => ActionView::EnsureOutputDir,
            SplitAction::CheckOutput(name) => ActionView::CheckOutput(name@),
            SplitAction::ListOutputs => ActionView::ListOutputs,
            SplitAction::RemoveOutput(name) => ActionView::RemoveOutput(name@),
            SplitAction::Run(command) => ActionView::Run(parts(command@)),
            SplitAction::CheckGenerated(name) => ActionView::CheckGenerated(name@),
            SplitAction::ShowOutput(name) => ActionView::ShowOutput(name@),
            SplitAction::Finish(result) => ActionView::Finish(video::seen_names(*result)),
        }
    }
}

/// A `SplitAnswer`, as the contracts see it.
pub enum AnswerView {
    InputFile(bool),
    Directory { path: Option<Seq<char>>, shown: Seq<char> },
    DirectoryFailed { shown: Seq<char>, cause: Seq<char> },
    Done,
    Failed(Seq<char>),
    SameDirectory(bool),
    Size(nat),
    Layout(ffmpeg::LayoutView),
    Refused(Seq<char>),
    Exists(bool),
    Listed(Seq<Option<Seq<char>>>),
    EntryFailed(Seq<char>),
    Generated(bool),
    Shown(Seq<char>),
}

impl View for SplitAnswer {
    type V = AnswerView;

    open spec fn view(&self) -> AnswerView {
        match self {
            SplitAnswer::InputFile(yes) => AnswerView::InputFile(*yes),
            SplitAnswer::Directory { path, shown } => AnswerView::Directory {
                path: cli::text_of(*path),
                shown: shown@,
            },
            SplitAnswer::DirectoryFailed { shown, cause } => AnswerView::DirectoryFailed {
                shown: shown@,
                cause: cause@,
            },
            SplitAnswer::Done => AnswerView::Done,
            SplitAnswer::Failed(cause) => AnswerView::Failed(cause@),
            SplitAnswer::SameDirectory(yes) => AnswerView::SameDirectory(*yes),
            SplitAnswer::Size(bytes) => AnswerView::Size(*bytes as nat),
            SplitAnswer::Layout(layout) => AnswerView::Layout(layout@),
            SplitAnswer::Refused(error) => AnswerView::Refused(error@),
            SplitAnswer::Exists(yes) => AnswerView::Exists(*yes),
            SplitAnswer::Listed(names) => AnswerView::Listed(video::name_texts(names@)),
            SplitAnswer::EntryFailed(cause) => AnswerView::EntryFailed(cause@),
            SplitAnswer::Generated(yes) => AnswerView::Generated(*yes),
            SplitAnswer::Shown(shown) => AnswerView::Shown(shown@),
        }
    }
}

/// A `SplitSetup`, as the contracts see it.
pub struct SetupView {
    pub input_shown: Seq<char>,
    pub extension: video::NamePartView,
    pub stem: video::NamePartView,
    pub file_name: video::NamePartView,
    pub mode: cli::ModeView,
    pub prefix: Option<Seq<char>>,
    pub overwrite: bool,
    pub output_dir_given: bool,
    pub separator: Seq<char>,
}

impl View for SplitSetup {
    type V = SetupView;

    open spec fn view(&self) -> SetupView {
        SetupView {
            input_shown: self.input_shown@,
            extension: self.extension@,
            stem: self.stem@,
            file_name: self.file_name@,
            mode: self.mode@,
            prefix: cli::text_of(self.prefix),
            overwrite: self.overwrite,
            output_dir_given: self.output_dir_given,
            separator: self.separator@,
        }
    }
}

/// What a job waits for.
pub enum PhaseView {
    Input,
    OutputDir,
    InputDir,
    OutputDirPath,
    Measure,
    Probe,
    PrepareDir,
    /// Whether the output at this place is there.
    Check(nat),
    /// What is in the output directory before FFmpeg runs.
    List,
    /// That the output at this place is removed.
    Remove(nat),
    Run,
    /// Whether the output at this place was made.
    Generated(nat),
    /// Whether the only output was made.
    Single,
    /// What is in the output directory after FFmpeg ran.
    Discover,
    /// How the output that something is wrong with is shown.
    Explain(Complaint),
    /// Nothing: it failed.
    Failed,
    /// Nothing: it is done.
    Finished,
}

/// A `SplitJob`, as the contracts see it.
pub struct JobView {
    pub setup: SetupView,
    pub phase: PhaseView,
    /// What the names of the outputs begin with.
    pub prefix: Seq<char>,
    /// The extension of the outputs.
    pub extension: Seq<char>,
    /// The output directory, where it is Unicode.
    pub directory: Option<Seq<char>>,
    /// How the output directory is shown.
    pub directory_shown: Seq<char>,
    /// Whether the input lies in the output directory.
    pub same_directory: bool,
    /// The size of the input in bytes.
    pub input_size: nat,
    /// Where to cut, as FFmpeg reads it.
    pub cuts: Seq<Seq<char>>,
    /// The outputs that are expected, that are in the way, or that were made.
    pub files: Seq<Seq<char>>,
    /// How many of the expected outputs were made.
    pub found: nat,
    /// The output that something is wrong with.
    pub subject: Seq<char>,
    /// What is wrong.
    pub cause: Seq<char>,
}

// ---------------------------------------------------------------------------
// What a job does
// ---------------------------------------------------------------------------

/// A job before its first action.
pub open spec fn fresh_job(setup: SetupView) -> JobView {
    JobView {
        setup,
        phase: PhaseView::Input,
        prefix: Seq::empty(),
        extension: Seq::empty(),
        directory: None,
        directory_shown: Seq::empty(),
        same_directory: false,
        input_size: 0,
        cuts: Seq::empty(),
        files: Seq::empty(),
        found: 0,
        subject: Seq::empty(),
        cause: Seq::empty(),
    }
}

/// Whether where the outputs go is settled, and FFmpeg has not run yet.
pub open spec fn is_settled(phase: PhaseView) -> bool {
    match phase {
        PhaseView::Measure => true,
        PhaseView::Probe => true,
        PhaseView::PrepareDir => true,
        PhaseView::Check(_) => true,
        PhaseView::List => true,
        PhaseView::Remove(_) => true,
        PhaseView::Run => true,
        _ => false,
    }
}

/// A job that has failed.
pub open spec fn failed(job: JobView, message: Seq<char>) -> JobView {
    JobView { phase: PhaseView::Failed, cause: message, ..job }
}

/// A job that is done.
pub open spec fn finished(job: JobView, files: Seq<Seq<char>>) -> JobView {
    JobView { phase: PhaseView::Finished, files, ..job }
}

/// A job that is about to complain about an output.
pub open spec fn complaining(job: JobView, complaint: Complaint, subject: Seq<char>) -> JobView {
    JobView { phase: PhaseView::Explain(complaint), subject, ..job }
}

/// Arguments that are texts.
pub open spec fn words(list: Seq<Seq<char>>) -> Seq<PartView> {
    list.map_values(|word: Seq<char>| PartView::Text(word))
}

/// What every command for FFmpeg begins with: the input, all of whose streams are copied.
pub open spec fn copy_command(overwrite: bool) -> Seq<PartView> {
    words(seq!["-hide_banner"@, video::overwrite_option(overwrite), "-i"@]).push(PartView::Input)
        + words(seq!["-map"@, "0"@, "-c"@, "copy"@])
}

/// What every command for segments ends with: numbers from one, and the path of the segments.
pub open spec fn segment_numbers(pattern: Seq<char>) -> Seq<PartView> {
    words(
        seq!["-reset_timestamps"@, "1"@, "-segment_start_number"@, "1"@, pattern],
    )
}

/// Where FFmpeg is told to cut.
pub open spec fn cut_options(job: JobView) -> Seq<PartView> {
    match job.setup.mode {
        cli::ModeView::At(_) => words(seq!["-segment_times"@, text::join(job.cuts, ","@)]),
        cli::ModeView::Every(millis) => words(seq!["-segment_time"@, time::ffmpeg_seconds(millis)]),
        cli::ModeView::Size(_) => words(
            seq![
                "-reference_stream"@,
                "v:0"@,
                "-segment_times"@,
                text::join(job.cuts, ","@),
                "-segment_time_delta"@,
                "0.000001"@,
            ],
        ),
    }
}

/// Whether the video is copied as a whole: it is to be cut by size, and nowhere.
pub open spec fn is_single(job: JobView) -> bool {
    job.setup.mode is Size && job.cuts.len() == 0
}

/// The name of the first output.
pub open spec fn first_output(job: JobView) -> Seq<char> {
    video::output_name(job.prefix, 1, job.extension)
}

/// The command for FFmpeg.
pub open spec fn command_of(job: JobView) -> Seq<PartView> {
    if is_single(job) {
        copy_command(job.setup.overwrite).push(PartView::Output(first_output(job)))
    } else {
        copy_command(job.setup.overwrite) + words(seq!["-f"@, "segment"@]) + cut_options(job)
            + segment_numbers(
            video::pattern_of(
                job.directory->0,
                job.setup.separator,
                job.prefix,
                job.extension,
            ),
        )
    }
}

/// The name of the output directory where none was asked for: that of the input without its
/// extension, whatever the prefix of the outputs is.
pub open spec fn default_directory(setup: SetupView) -> Seq<char> {
    setup.stem->0 + "_parts"@
}

/// What a job wants done.
pub open spec fn action_of(job: JobView) -> ActionView {
    match job.phase {
        PhaseView::Input => ActionView::CheckInput,
        PhaseView::OutputDir => ActionView::CreateOutputDir(
            if job.setup.output_dir_given {
                None
            } else {
                Some(default_directory(job.setup))
            },
        ),
        PhaseView::InputDir => ActionView::ResolveInputDir,
        PhaseView::OutputDirPath => ActionView::ResolveOutputDir,
        PhaseView::Measure => ActionView::MeasureInput,
        PhaseView::Probe => ActionView::ProbeInput,
        PhaseView::PrepareDir => ActionView::EnsureOutputDir,
        PhaseView::Check(i) => ActionView::CheckOutput(job.files[i as int]),
        PhaseView::List => ActionView::ListOutputs,
        PhaseView::Remove(i) => ActionView::RemoveOutput(job.files[i as int]),
        PhaseView::Run => ActionView::Run(command_of(job)),
        PhaseView::Generated(i) => ActionView::CheckGenerated(job.files[i as int]),
        PhaseView::Single => ActionView::CheckGenerated(first_output(job)),
        PhaseView::Discover => ActionView::ListOutputs,
        PhaseView::Explain(_) => ActionView::ShowOutput(job.subject),
        PhaseView::Failed => ActionView::Finish(Err(job.cause)),
        PhaseView::Finished => ActionView::Finish(Ok(job.files)),
    }
}

/// After it was said whether the input is a file: the names of the outputs are settled.
pub open spec fn after_input(job: JobView, is_file: bool) -> JobView {
    if !is_file {
        failed(job, video::missing_input_message(job.setup.input_shown))
    } else {
        match video::component(
            job.setup.extension,
            "输入视频缺少文件扩展名"@,
        ) {
            Err(message) => failed(job, message),
            Ok(extension) => match video::component(
                job.setup.stem,
                "无法确定输入视频文件名"@,
            ) {
                Err(message) => failed(job, message),
                Ok(stem) => JobView {
                    phase: PhaseView::OutputDir,
                    extension,
                    prefix: match job.setup.prefix {
                        Some(prefix) => prefix,
                        None => stem,
                    },
                    ..job
                },
            },
        }
    }
}

pub open spec fn creation_message(shown: Seq<char>, cause: Seq<char>) -> Seq<char> {
    "无法创建输出目录 `"@ + shown + "`："@ + cause
}

/// The times at which to cut, as FFmpeg reads them.
pub open spec fn time_texts(times: Seq<nat>) -> Seq<Seq<char>> {
    times.map_values(|millis: nat| time::ffmpeg_seconds(millis))
}

/// After it was said whether the input lies in the output directory: no output may take its place.
pub open spec fn after_directories(job: JobView, same: bool) -> JobView {
    let next = JobView { same_directory: same, ..job };
    match video::collision_failure(
        job.setup.input_shown,
        job.setup.file_name,
        same,
        job.prefix,
        job.extension,
    ) {
        Some(message) => failed(next, message),
        None => if job.directory is None {
            failed(next, "FFmpeg segment 输出目录必须是有效 UTF-8 路径"@)
        } else {
            match job.setup.mode {
                cli::ModeView::At(times) => match video::order_failure(times) {
                    Some(message) => failed(next, message),
                    None => JobView {
                        phase: PhaseView::PrepareDir,
                        cuts: time_texts(times),
                        files: video::names_of(
                            job.prefix,
                            video::one_to(times.len() + 1),
                            job.extension,
                        ),
                        ..next
                    },
                },
                cli::ModeView::Every(_) => JobView { phase: PhaseView::PrepareDir, ..next },
                cli::ModeView::Size(_) => JobView { phase: PhaseView::Measure, ..next },
            }
        },
    }
}

/// After the layout of the input is known.
pub open spec fn after_probe(job: JobView, layout: ffmpeg::LayoutView) -> JobView {
    match job.setup.mode {
        cli::ModeView::Size(target) => match video::size_cuts(layout, target, job.input_size) {
            Err(message) => failed(job, message),
            Ok(cuts) => JobView {
                phase: PhaseView::PrepareDir,
                cuts: video::cut_times(layout.keyframes, cuts),
                ..job
            },
        },
        _ => job,
    }
}

/// A job that has seen to the outputs before `i`.
pub open spec fn checking(job: JobView, i: nat) -> JobView {
    if i < job.files.len() {
        JobView { phase: PhaseView::Check(i), ..job }
    } else {
        JobView { phase: PhaseView::Run, ..job }
    }
}

/// A job that has removed the outputs before `i`.
pub open spec fn removing(job: JobView, i: nat) -> JobView {
    if i < job.files.len() {
        JobView { phase: PhaseView::Remove(i), ..job }
    } else {
        JobView { phase: PhaseView::Run, ..job }
    }
}

/// After it was said whether the output at `i` is there.
pub open spec fn after_check(job: JobView, i: nat, exists: bool) -> JobView {
    if exists && !job.setup.overwrite {
        complaining(job, Complaint::Exists, job.files[i as int])
    } else if exists {
        JobView { phase: PhaseView::Remove(i), ..job }
    } else {
        checking(job, i + 1)
    }
}

/// After the names in the output directory are known, before FFmpeg runs.
pub open spec fn after_list(job: JobView, names: Seq<Option<Seq<char>>>) -> JobView {
    let files = video::names_of(
        job.prefix,
        video::numbers_in(names, job.prefix, job.extension),
        job.extension,
    );
    if files.len() > 0 && !job.setup.overwrite {
        complaining(job, Complaint::SegmentsExist, files[0])
    } else {
        removing(JobView { files, ..job }, 0)
    }
}

/// After FFmpeg did its work.
pub open spec fn after_run(job: JobView) -> JobView {
    match job.setup.mode {
        cli::ModeView::At(_) => if job.files.len() > 0 {
            JobView { phase: PhaseView::Generated(0), found: 0, ..job }
        } else {
            finished(job, job.files)
        },
        cli::ModeView::Every(_) => JobView { phase: PhaseView::Discover, ..job },
        cli::ModeView::Size(_) => if is_single(job) {
            JobView { phase: PhaseView::Single, ..job }
        } else {
            JobView { phase: PhaseView::Discover, ..job }
        },
    }
}

/// After it was said whether the output at `i` was made.
pub open spec fn after_generated(job: JobView, i: nat, yes: bool) -> JobView {
    let found = if yes {
        job.found + 1
    } else {
        job.found
    };
    if i + 1 < job.files.len() {
        JobView { phase: PhaseView::Generated(i + 1), found, ..job }
    } else if found == job.files.len() {
        finished(JobView { found, ..job }, job.files)
    } else {
        failed(
            JobView { found, ..job },
            "预期生成 "@ + text::decimal(job.files.len()) + " 段，实际生成 "@ + text::decimal(
                found,
            ) + " 段；请检查拆分点是否超过视频时长。已生成文件保留在 `"@ + job.directory_shown
                + "`"@,
        )
    }
}

/// After the names in the output directory are known, once FFmpeg ran.
pub open spec fn after_discovery(job: JobView, names: Seq<Option<Seq<char>>>) -> JobView {
    match video::discovered(names, job.directory_shown, job.prefix, job.extension) {
        Err(message) => failed(job, message),
        Ok(files) => if job.setup.mode is Size && files.len() != job.cuts.len() + 1 {
            failed(
                job,
                "按大小计算出 "@ + text::decimal(job.cuts.len() + 1)
                    + " 段，但 FFmpeg 实际生成 "@ + text::decimal(files.len())
                    + " 段；已生成文件保留在 `"@ + job.directory_shown + "`"@,
            )
        } else {
            finished(job, files)
        },
    }
}

/// After it is known how the output that something is wrong with is shown.
pub open spec fn after_explanation(
    job: JobView,
    complaint: Complaint,
    shown: Seq<char>,
) -> JobView {
    failed(
        job,
        match complaint {
            Complaint::Exists => "输出文件 `"@ + shown
                + "` 已存在；使用 --overwrite 覆盖"@,
            Complaint::SegmentsExist => "输出文件 `"@ + shown
                + "` 已存在；使用 --overwrite 覆盖该前缀的已有分段"@,
            Complaint::CannotRemove => "无法覆盖输出文件 `"@ + shown + "`："@ + job.cause,
            Complaint::NotGenerated => "FFmpeg 未生成输出文件 `"@ + shown + "`"@,
        },
    )
}

pub open spec fn listing_message(directory: Seq<char>, cause: Seq<char>) -> Seq<char> {
    "无法读取输出目录 `"@ + directory + "`："@ + cause
}

pub open spec fn entry_message(directory: Seq<char>, cause: Seq<char>) -> Seq<char> {
    "无法读取输出目录 `"@ + directory + "` 中的项目："@ + cause
}

/// A job after an answer. One that does not fit what the job waits for changes nothing.
pub open spec fn step(job: JobView, answer: AnswerView) -> JobView {
    match (job.phase, answer) {
        (PhaseView::Input, AnswerView::InputFile(yes)) => after_input(job, yes),
        (PhaseView::OutputDir, AnswerView::Directory { path, shown }) => JobView {
            phase: PhaseView::InputDir,
            directory: path,
            directory_shown: shown,
            ..job
        },
        (PhaseView::OutputDir, AnswerView::DirectoryFailed { shown, cause }) => failed(
            job,
            creation_message(shown, cause),
        ),
        (PhaseView::InputDir, AnswerView::Done) => JobView {
            phase: PhaseView::OutputDirPath,
            ..job
        },
        (PhaseView::InputDir, AnswerView::Failed(cause)) => failed(
            job,
            "无法解析输入目录 `"@ + job.setup.input_shown + "`："@ + cause,
        ),
        (PhaseView::OutputDirPath, AnswerView::SameDirectory(same)) => after_directories(job, same),
        (PhaseView::OutputDirPath, AnswerView::Failed(cause)) => failed(
            job,
            "无法解析输出目录 `"@ + job.directory_shown + "`："@ + cause,
        ),
        (PhaseView::Measure, AnswerView::Size(bytes)) => if bytes == 0 {
            failed(job, "输入视频为空文件"@)
        } else {
            JobView { phase: PhaseView::Probe, input_size: bytes, ..job }
        },
        (PhaseView::Measure, AnswerView::Failed(cause)) => failed(
            job,
            "无法读取 `"@ + job.setup.input_shown + "` 的大小："@ + cause,
        ),
        (PhaseView::Probe, AnswerView::Layout(layout)) => after_probe(job, layout),
        (PhaseView::Probe, AnswerView::Refused(message)) => failed(job, message),
        (PhaseView::PrepareDir, AnswerView::Done) => if job.setup.mode is At {
            checking(job, 0)
        } else {
            JobView { phase: PhaseView::List, ..job }
        },
        (PhaseView::PrepareDir, AnswerView::Failed(cause)) => failed(
            job,
            creation_message(job.directory_shown, cause),
        ),
        (PhaseView::Check(i), AnswerView::Exists(yes)) => after_check(job, i, yes),
        (PhaseView::List, AnswerView::Listed(names)) => after_list(job, names),
        (PhaseView::List, AnswerView::Failed(cause)) => failed(
            job,
            listing_message(job.directory_shown, cause),
        ),
        (PhaseView::List, AnswerView::EntryFailed(cause)) => failed(
            job,
            entry_message(job.directory_shown, cause),
        ),
        (PhaseView::Remove(i), AnswerView::Done) => if job.setup.mode is At {
            checking(job, i + 1)
        } else {
            removing(job, i + 1)
        },
        (PhaseView::Remove(i), AnswerView::Failed(cause)) => complaining(
            JobView { cause, ..job },
            Complaint::CannotRemove,
            job.files[i as int],
        ),
        (PhaseView::Run, AnswerView::Done) => after_run(job),
        (PhaseView::Run, AnswerView::Refused(message)) => failed(job, message),
        (PhaseView::Generated(i), AnswerView::Generated(yes)) => after_generated(job, i, yes),
        (PhaseView::Single, AnswerView::Generated(yes)) => if yes {
            finished(job, seq![first_output(job)])
        } else {
            complaining(job, Complaint::NotGenerated, first_output(job))
        },
        (PhaseView::Discover, AnswerView::Listed(names)) => after_discovery(job, names),
        (PhaseView::Discover, AnswerView::Failed(cause)) => failed(
            job,
            listing_message(job.directory_shown, cause),
        ),
        (PhaseView::Discover, AnswerView::EntryFailed(cause)) => failed(
            job,
            entry_message(job.directory_shown, cause),
        ),
        (PhaseView::Explain(complaint), AnswerView::Shown(shown)) => after_explanation(
            job,
            complaint,
            shown,
        ),
        _ => job,
    }
}

// ---------------------------------------------------------------------------
// The job
// ---------------------------------------------------------------------------

/// What a job waits for.
#[derive(Clone, Copy, Debug)]
enum Phase {
    Input,
    OutputDir,
    InputDir,
    OutputDirPath,
    Measure,
    Probe,
    PrepareDir,
    /// Whether the output at this place is there.
    Check(usize),
    /// What is in the output directory before FFmpeg runs.
    List,
    /// That the output at this place is removed.
    Remove(usize),
    Run,
    /// Whether the output at this place was made.
    Generated(usize),
    /// Whether the only output was made.
    Single,
    /// What is in the output directory after FFmpeg ran.
    Discover,
    /// How the output that something is wrong with is shown.
    Explain(Complaint),
    /// Nothing: it failed.
    Failed,
    /// Nothing: it is done.
    Finished,
}

impl View for Phase {
    type V = PhaseView;

    closed spec fn view(&self) -> PhaseView {
        match self {
            Phase::Input => PhaseView::Input,
            Phase::OutputDir => PhaseView::OutputDir,
            Phase::InputDir => PhaseView::InputDir,
            Phase::OutputDirPath => PhaseView::OutputDirPath,
            Phase::Measure => PhaseView::Measure,
            Phase::Probe => PhaseView::Probe,
            Phase::PrepareDir => PhaseView::PrepareDir,
            Phase::Check(i) => PhaseView::Check(*i as nat),
            Phase::List => PhaseView::List,
            Phase::Remove(i) => PhaseView::Remove(*i as nat),
            Phase::Run => PhaseView::Run,
            Phase::Generated(i) => PhaseView::Generated(*i as nat),
            Phase::Single => PhaseView::Single,
            Phase::Discover => PhaseView::Discover,
            Phase::Explain(complaint) => PhaseView::Explain(*complaint),
            Phase::Failed => PhaseView::Failed,
            Phase::Finished => PhaseView::Finished,
        }
    }
}

/// A video that is being split.
#[derive(Debug)]
pub struct SplitJob {
    setup: SplitSetup,
    phase: Phase,
    prefix: String,
    extension: String,
    directory: Option<String>,
    directory_shown: String,
    same_directory: bool,
    input_size: u64,
    cuts: Vec<String>,
    files: Vec<String>,
    found: usize,
    subject: String,
    cause: String,
}

impl View for SplitJob {
    type V = JobView;

    closed spec fn view(&self) -> JobView {
        JobView {
            setup: self.setup@,
            phase: self.phase@,
            prefix: self.prefix@,
            extension: self.extension@,
            directory: cli::text_of(self.directory),
            directory_shown: self.directory_shown@,
            same_directory: self.same_directory,
            input_size: self.input_size as nat,
            cuts: text::texts(self.cuts@),
            files: text::texts(self.files@),
            found: self.found as nat,
            subject: self.subject@,
            cause: self.cause@,
        }
    }
}

/// The texts of a list, once more.
fn copy_texts(list: &Vec<String>) -> (copy: Vec<String>)
    ensures
        text::texts(copy@) == text::texts(list@),
{
    let mut copy: Vec<String> = Vec::new();
    let mut i: usize = 0;
    while i < list.len()
        invariant
            i <= list@.len(),
            copy@.len() == i,
            forall|k: int| 0 <= k < i ==> #[trigger] copy@[k]@ == list@[k]@,
        decreases list@.len() - i,
    {
        copy.push(list[i].clone());
        i += 1;
    }
    assert(text::texts(copy@) == text::texts(list@));
    copy
}

fn push_word(command: &mut Vec<CommandPart>, word: &str)
    ensures
        parts(final(command)@) == parts(old(command)@).push(PartView::Text(word@)),
{
    command.push(CommandPart::Text(word.to_owned()));
    assert(parts(command@) == parts(old(command)@).push(PartView::Text(word@)));
}

fn push_part(command: &mut Vec<CommandPart>, part: CommandPart)
    ensures
        parts(final(command)@) == parts(old(command)@).push(part@),
{
    command.push(part);
    assert(parts(command@) == parts(old(command)@).push(part@));
}

/// The times at which to cut, as FFmpeg reads them.
fn seconds_of_all(times: &Vec<Timestamp>) -> (r: Vec<String>)
    ensures
        text::texts(r@) == time_texts(cli::millis_of_all(times@)),
{
    let mut list: Vec<String> = Vec::new();
    let mut i: usize = 0;
    while i < times.len()
        invariant
            i <= times@.len(),
            list@.len() == i,
            forall|k: int| 0 <= k < i ==> #[trigger] list@[k]@ == time::ffmpeg_seconds(times@[k]@),
        decreases times@.len() - i,
    {
        list.push(times[i].as_ffmpeg_seconds());
        i += 1;
    }
    assert(text::texts(list@) == time_texts(cli::millis_of_all(times@)));
    list
}

/// The names of the outputs from the first to one more than `cuts`.
fn expected_outputs(prefix: &str, cuts: usize, extension: &str) -> (r: Vec<String>)
    ensures
        text::texts(r@) == video::names_of(
            prefix@,
            video::one_to((cuts + 1) as nat),
            extension@,
        ),
{
    let count: u128 = cuts as u128 + 1;
    let mut names: Vec<String> = Vec::new();
    let mut i: u128 = 0;
    while i < count
        invariant
            i <= count == cuts + 1,
            names@.len() == i,
            forall|k: int|
                0 <= k < i ==> #[trigger] names@[k]@ == video::output_name(
                    prefix@,
                    (k + 1) as nat,
                    extension@,
                ),
        decreases count - i,
    {
        names.push(output_file_name(prefix, i + 1, extension));
        i += 1;
    }
    assert(text::texts(names@) == video::names_of(
        prefix@,
        video::one_to(count as nat),
        extension@,
    ));
    names
}

impl SplitJob {
    #[verifier::type_invariant]
    spec fn is_sound(self) -> bool {
        &&& is_settled(self.phase@) ==> self.directory is Some
        &&& match self.phase {
            Phase::OutputDir => self.setup.stem is Text,
            Phase::Check(i) => i < self.files@.len(),
            Phase::Remove(i) => i < self.files@.len(),
            Phase::Generated(i) => i < self.files@.len() && self.found <= i,
            _ => true,
        }
    }

    /// A job before its first action.
    pub fn start(setup: SplitSetup) -> (job: SplitJob)
        ensures
            job@ == fresh_job(setup@),
    {
        let job = SplitJob {
            setup,
            phase: Phase::Input,
            prefix: String::new(),
            extension: String::new(),
            directory: None,
            directory_shown: String::new(),
            same_directory: false,
            input_size: 0,
            cuts: Vec::new(),
            files: Vec::new(),
            found: 0,
            subject: String::new(),
            cause: String::new(),
        };
        assert(job@.cuts == Seq::<Seq<char>>::empty());
        assert(job@.files == Seq::<Seq<char>>::empty());
        job
    }

    fn failed(self, error: AppError) -> (next: SplitJob)
        ensures
            next@ == failed(self@, error@),
    {
        SplitJob { phase: Phase::Failed, cause: error.message().to_owned(), ..self }
    }

    fn complaining(self, complaint: Complaint, subject: String) -> (next: SplitJob)
        ensures
            next@ == complaining(self@, complaint, subject@),
    {
        SplitJob { phase: Phase::Explain(complaint), subject, ..self }
    }

    fn after_input(self, is_file: bool) -> (next: SplitJob)
        ensures
            next@ == after_input(self@, is_file),
    {
        if let Err(error) = require_input_file(self.setup.input_shown.as_str(), is_file) {
            return self.failed(error);
        }
        let extension = match utf8_component(
            &self.setup.extension,
            "输入视频缺少文件扩展名",
        ) {
            Ok(extension) => extension,
            Err(error) => {
                return self.failed(error);
            },
        };
        let stem = match utf8_component(
            &self.setup.stem,
            "无法确定输入视频文件名",
        ) {
            Ok(stem) => stem,
            Err(error) => {
                return self.failed(error);
            },
        };
        let prefix = match &self.setup.prefix {
            Some(prefix) => prefix.clone(),
            None => stem,
        };
        SplitJob { phase: Phase::OutputDir, extension, prefix, ..self }
    }

    fn after_directories(self, same: bool) -> (next: SplitJob)
        ensures
            next@ == after_directories(self@, same),
    {
        let job = SplitJob { phase: Phase::OutputDirPath, same_directory: same, ..self };
        if let Err(error) = reject_split_input_collision(
            job.setup.input_shown.as_str(),
            &job.setup.file_name,
            same,
            job.prefix.as_str(),
            job.extension.as_str(),
        ) {
            return job.failed(error);
        }
        if let Err(error) = job.pattern() {
            return job.failed(error);
        }
        let outputs;
        let cuts = match &job.setup.mode {
            SplitMode::At(times) => {
                if let Err(error) = ensure_strictly_increasing(times.as_slice()) {
                    return job.failed(error);
                }
                outputs = expected_outputs(
                    job.prefix.as_str(),
                    times.len(),
                    job.extension.as_str(),
                );
                seconds_of_all(times)
            },
            SplitMode::Every(_) => {
                return SplitJob { phase: Phase::PrepareDir, ..job };
            },
            SplitMode::Size(_) => {
                return SplitJob { phase: Phase::Measure, ..job };
            },
        };
        SplitJob { phase: Phase::PrepareDir, cuts, files: outputs, ..job }
    }

    /// The path of the segments.
    fn pattern(&self) -> (r: Result<String>)
        ensures
            r is Ok == self@.directory is Some,
            r matches Ok(pattern) ==> pattern@ == video::pattern_of(
                self@.directory->0,
                self@.setup.separator,
                self@.prefix,
                self@.extension,
            ),
            r matches Err(error) ==> error@
                == "FFmpeg segment 输出目录必须是有效 UTF-8 路径"@,
    {
        let directory = match &self.directory {
            Some(directory) => Some(directory.as_str()),
            None => None,
        };
        segment_pattern(
            directory,
            self.setup.separator.as_str(),
            self.prefix.as_str(),
            self.extension.as_str(),
        )
    }

    fn after_probe(self, layout: &PacketLayout) -> (next: SplitJob)
        requires
            self@.directory is Some,
        ensures
            next@ == after_probe(self@, layout@),
    {
        let target: u64 = match &self.setup.mode {
            SplitMode::Size(target) => target.bytes(),
            _ => {
                return self;
            },
        };
        match choose_size_split_times(layout, target, self.input_size) {
            Err(error) => self.failed(error),
            Ok(cuts) => SplitJob { phase: Phase::PrepareDir, cuts, ..self },
        }
    }

    fn checking(self, i: usize) -> (next: SplitJob)
        requires
            self@.directory is Some,
        ensures
            next@ == checking(self@, i as nat),
    {
        if i < self.files.len() {
            SplitJob { phase: Phase::Check(i), ..self }
        } else {
            SplitJob { phase: Phase::Run, ..self }
        }
    }

    fn removing(self, i: usize) -> (next: SplitJob)
        requires
            self@.directory is Some,
        ensures
            next@ == removing(self@, i as nat),
    {
        if i < self.files.len() {
            SplitJob { phase: Phase::Remove(i), ..self }
        } else {
            SplitJob { phase: Phase::Run, ..self }
        }
    }

    fn after_check(self, i: usize, exists: bool) -> (next: SplitJob)
        requires
            self@.directory is Some,
            i < self@.files.len(),
        ensures
            next@ == after_check(self@, i as nat, exists),
    {
        if exists && !self.setup.overwrite {
            let subject = self.files[i].clone();
            self.complaining(Complaint::Exists, subject)
        } else if exists {
            SplitJob { phase: Phase::Remove(i), ..self }
        } else {
            let count = self.files.len();
            assert(i < count);
            self.checking(i + 1)
        }
    }

    fn after_list(self, names: &Vec<Option<String>>) -> (next: SplitJob)
        requires
            self@.directory is Some,
        ensures
            next@ == after_list(self@, video::name_texts(names@)),
    {
        let indices = matching_numbered_outputs(
            names,
            self.prefix.as_str(),
            self.extension.as_str(),
        );
        let files = output_file_names(self.prefix.as_str(), &indices, self.extension.as_str());
        if files.len() > 0 && !self.setup.overwrite {
            let subject = files[0].clone();
            return self.complaining(Complaint::SegmentsExist, subject);
        }
        let job = SplitJob { phase: Phase::List, files, ..self };
        job.removing(0)
    }

    fn is_single(&self) -> (r: bool)
        ensures
            r == is_single(self@),
    {
        match &self.setup.mode {
            SplitMode::Size(_) => self.cuts.len() == 0,
            _ => false,
        }
    }

    fn first_output(&self) -> (r: String)
        ensures
            r@ == first_output(self@),
    {
        output_file_name(self.prefix.as_str(), 1, self.extension.as_str())
    }

    fn after_run(self) -> (next: SplitJob)
        ensures
            next@ == after_run(self@),
    {
        match &self.setup.mode {
            SplitMode::At(_) => if self.files.len() > 0 {
                SplitJob { phase: Phase::Generated(0), found: 0, ..self }
            } else {
                SplitJob { phase: Phase::Finished, ..self }
            },
            SplitMode::Every(_) => SplitJob { phase: Phase::Discover, ..self },
            SplitMode::Size(_) => if self.is_single() {
                SplitJob { phase: Phase::Single, ..self }
            } else {
                SplitJob { phase: Phase::Discover, ..self }
            },
        }
    }

    fn after_generated(self, i: usize, yes: bool) -> (next: SplitJob)
        requires
            i < self@.files.len(),
            self@.found <= i,
        ensures
            next@ == after_generated(self@, i as nat, yes),
    {
        let count: usize = self.files.len();
        let found: usize = if yes {
            self.found + 1
        } else {
            self.found
        };
        if i + 1 < count {
            return SplitJob { phase: Phase::Generated(i + 1), found, ..self };
        }
        if found == count {
            return SplitJob { phase: Phase::Finished, found, ..self };
        }
        let mut message = "预期生成 ".to_owned();
        message.append(decimal_text(count as u128).as_str());
        message.append(" 段，实际生成 ");
        message.append(decimal_text(found as u128).as_str());
        message.append(" 段；请检查拆分点是否超过视频时长。已生成文件保留在 `");
        let error = AppError::about(message.as_str(), self.directory_shown.as_str(), "`");
        let job = SplitJob { phase: Phase::Finished, found, ..self };
        job.failed(error)
    }

    fn after_discovery(self, names: &Vec<Option<String>>) -> (next: SplitJob)
        ensures
            next@ == after_discovery(self@, video::name_texts(names@)),
    {
        let files = match discover_periodic_outputs(
            names,
            self.directory_shown.as_str(),
            self.prefix.as_str(),
            self.extension.as_str(),
        ) {
            Ok(files) => files,
            Err(error) => {
                return self.failed(error);
            },
        };
        let by_size = match &self.setup.mode {
            SplitMode::Size(_) => true,
            _ => false,
        };
        let expected: u128 = self.cuts.len() as u128 + 1;
        if by_size && files.len() as u128 != expected {
            let mut message = "按大小计算出 ".to_owned();
            message.append(decimal_text(expected).as_str());
            message.append(" 段，但 FFmpeg 实际生成 ");
            message.append(decimal_text(files.len() as u128).as_str());
            message.append(" 段；已生成文件保留在 `");
            let error = AppError::about(message.as_str(), self.directory_shown.as_str(), "`");
            return self.failed(error);
        }
        SplitJob { phase: Phase::Finished, files, ..self }
    }

    fn after_explanation(self, complaint: Complaint, shown: &str) -> (next: SplitJob)
        ensures
            next@ == after_explanation(self@, complaint, shown@),
    {
        let error = match complaint {
            Complaint::Exists => AppError::about(
                "输出文件 `",
                shown,
                "` 已存在；使用 --overwrite 覆盖",
            ),
            Complaint::SegmentsExist => AppError::about(
                "输出文件 `",
                shown,
                "` 已存在；使用 --overwrite 覆盖该前缀的已有分段",
            ),
            Complaint::CannotRemove => AppError::caused(
                "无法覆盖输出文件 `",
                shown,
                "`：",
                self.cause.as_str(),
            ),
            Complaint::NotGenerated => AppError::about(
                "FFmpeg 未生成输出文件 `",
                shown,
                "`",
            ),
        };
        self.failed(error)
    }

    fn not_listed(self, cause: &str) -> (next: SplitJob)
        ensures
            next@ == failed(self@, listing_message(self@.directory_shown, cause@)),
    {
        let error = AppError::caused(
            "无法读取输出目录 `",
            self.directory_shown.as_str(),
            "`：",
            cause,
        );
        self.failed(error)
    }

    fn not_read(self, cause: &str) -> (next: SplitJob)
        ensures
            next@ == failed(self@, entry_message(self@.directory_shown, cause@)),
    {
        let error = AppError::caused(
            "无法读取输出目录 `",
            self.directory_shown.as_str(),
            "` 中的项目：",
            cause,
        );
        self.failed(error)
    }

    /// The command for FFmpeg.
    fn command(&self) -> (command: Vec<CommandPart>)
        requires
            self@.directory is Some,
        ensures
            parts(command@) == command_of(self@),
    {
        let mut command: Vec<CommandPart> = Vec::new();
        assert(parts(command@) == Seq::<PartView>::empty());
        push_word(&mut command, "-hide_banner");
        push_word(&mut command, overwrite_flag(self.setup.overwrite));
        push_word(&mut command, "-i");
        push_part(&mut command, CommandPart::Input);
        push_word(&mut command, "-map");
        push_word(&mut command, "0");
        push_word(&mut command, "-c");
        push_word(&mut command, "copy");
        assert(parts(command@) == copy_command(self@.setup.overwrite));
        if self.is_single() {
            push_part(&mut command, CommandPart::Output(self.first_output()));
            return command;
        }
        push_word(&mut command, "-f");
        push_word(&mut command, "segment");
        let ghost start = parts(command@);
        assert(start == copy_command(self@.setup.overwrite) + words(seq!["-f"@, "segment"@]));
        match &self.setup.mode {
            SplitMode::At(_) => {
                push_word(&mut command, "-segment_times");
                push_word(&mut command, join_texts(&self.cuts, ",").as_str());
            },
            SplitMode::Every(duration) => {
                push_word(&mut command, "-segment_time");
                push_word(&mut command, duration.as_ffmpeg_seconds().as_str());
            },
            SplitMode::Size(_) => {
                push_word(&mut command, "-reference_stream");
                push_word(&mut command, "v:0");
                push_word(&mut command, "-segment_times");
                push_word(&mut command, join_texts(&self.cuts, ",").as_str());
                push_word(&mut command, "-segment_time_delta");
                push_word(&mut command, "0.000001");
            },
        }
        assert(parts(command@) == start + cut_options(self@));
        push_word(&mut command, "-reset_timestamps");
        push_word(&mut command, "1");
        push_word(&mut command, "-segment_start_number");
        push_word(&mut command, "1");
        let ghost options = parts(command@);
        if let Ok(pattern) = self.pattern() {
            push_word(&mut command, pattern.as_str());
            assert(parts(command@) == command_of(self@));
        }
        command
    }

    /// What the job wants done.
    pub fn action(&self) -> (action: SplitAction)
        ensures
            action@ == action_of(self@),
    {
        proof {
            use_type_invariant(self);
        }
        match self.phase {
            Phase::Input => SplitAction::CheckInput,
            Phase::OutputDir => SplitAction::CreateOutputDir(
                if self.setup.output_dir_given {
                    None
                } else {
                    match &self.setup.stem {
                        NamePart::Text(stem) => {
                            let mut name = stem.clone();
                            name.append("_parts");
                            Some(name)
                        },
                        _ => None,
                    }
                },
            ),
            Phase::InputDir => SplitAction::ResolveInputDir,
            Phase::OutputDirPath => SplitAction::ResolveOutputDir,
            Phase::Measure => SplitAction::MeasureInput,
            Phase::Probe => SplitAction::ProbeInput,
            Phase::PrepareDir => SplitAction::EnsureOutputDir,
            Phase::Check(i) => SplitAction::CheckOutput(self.files[i].clone()),
            Phase::List => SplitAction::ListOutputs,
            Phase::Remove(i) => SplitAction::RemoveOutput(self.files[i].clone()),
            Phase::Run => SplitAction::Run(self.command()),
            Phase::Generated(i) => SplitAction::CheckGenerated(self.files[i].clone()),
            Phase::Single => SplitAction::CheckGenerated(self.first_output()),
            Phase::Discover => SplitAction::ListOutputs,
            Phase::Explain(_) => SplitAction::ShowOutput(self.subject.clone()),
            Phase::Failed => SplitAction::Finish(Err(AppError::new(self.cause.as_str()))),
            Phase::Finished => SplitAction::Finish(Ok(copy_texts(&self.files))),
        }
    }

    /// The job after what it wanted done was done, and went as the answer says.
    pub fn answer(self, answer: SplitAnswer) -> (next: SplitJob)
        ensures
            next@ == step(self@, answer@),
    {
        proof {
            use_type_invariant(&self);
        }
        match (self.phase, answer) {
            (Phase::Input, SplitAnswer::InputFile(yes)) => self.after_input(yes),
            (Phase::OutputDir, SplitAnswer::Directory { path, shown }) => SplitJob {
                phase: Phase::InputDir,
                directory: path,
                directory_shown: shown,
                ..self
            },
            (Phase::OutputDir, SplitAnswer::DirectoryFailed { shown, cause }) => self.failed(
                AppError::caused("无法创建输出目录 `", shown.as_str(), "`：", cause.as_str()),
            ),
            (Phase::InputDir, SplitAnswer::Done) => SplitJob {
                phase: Phase::OutputDirPath,
                ..self
            },
            (Phase::InputDir, SplitAnswer::Failed(cause)) => {
                let error = AppError::caused(
                    "无法解析输入目录 `",
                    self.setup.input_shown.as_str(),
                    "`：",
                    cause.as_str(),
                );
                self.failed(error)
            },
            (Phase::OutputDirPath, SplitAnswer::SameDirectory(same)) => self.after_directories(
                same,
            ),
            (Phase::OutputDirPath, SplitAnswer::Failed(cause)) => {
                let error = AppError::caused(
                    "无法解析输出目录 `",
                    self.directory_shown.as_str(),
                    "`：",
                    cause.as_str(),
                );
                self.failed(error)
            },
            (Phase::Measure, SplitAnswer::Size(bytes)) => if bytes == 0 {
                self.failed(AppError::new("输入视频为空文件"))
            } else {
                SplitJob { phase: Phase::Probe, input_size: bytes, ..self }
            },
            (Phase::Measure, SplitAnswer::Failed(cause)) => {
                let error = AppError::caused(
                    "无法读取 `",
                    self.setup.input_shown.as_str(),
                    "` 的大小：",
                    cause.as_str(),
                );
                self.failed(error)
            },
            (Phase::Probe, SplitAnswer::Layout(layout)) => self.after_probe(&layout),
            (Phase::Probe, SplitAnswer::Refused(error)) => self.failed(error),
            (Phase::PrepareDir, SplitAnswer::Done) => if self.is_at() {
                self.checking(0)
            } else {
                SplitJob { phase: Phase::List, ..self }
            },
            (Phase::PrepareDir, SplitAnswer::Failed(cause)) => {
                let error = AppError::caused(
                    "无法创建输出目录 `",
                    self.directory_shown.as_str(),
                    "`：",
                    cause.as_str(),
                );
                self.failed(error)
            },
            (Phase::Check(i), SplitAnswer::Exists(yes)) => self.after_check(i, yes),
            (Phase::List, SplitAnswer::Listed(names)) => self.after_list(&names),
            (Phase::List, SplitAnswer::Failed(cause)) => self.not_listed(cause.as_str()),
            (Phase::List, SplitAnswer::EntryFailed(cause)) => self.not_read(cause.as_str()),
            (Phase::Remove(i), SplitAnswer::Done) => {
                let count: usize = self.files.len();
                assert(i < count);
                if self.is_at() {
                    self.checking(i + 1)
                } else {
                    self.removing(i + 1)
                }
            },
            (Phase::Remove(i), SplitAnswer::Failed(cause)) => {
                let subject = self.files[i].clone();
                let job = SplitJob { cause, ..self };
                job.complaining(Complaint::CannotRemove, subject)
            },
            (Phase::Run, SplitAnswer::Done) => self.after_run(),
            (Phase::Run, SplitAnswer::Refused(error)) => self.failed(error),
            (Phase::Generated(i), SplitAnswer::Generated(yes)) => self.after_generated(i, yes),
            (Phase::Single, SplitAnswer::Generated(yes)) => {
                let output = self.first_output();
                if yes {
                    let mut files: Vec<String> = Vec::new();
                    files.push(output);
                    assert(text::texts(files@) == seq![output@]);
                    SplitJob { phase: Phase::Finished, files, ..self }
                } else {
                    self.complaining(Complaint::NotGenerated, output)
                }
            },
            (Phase::Discover, SplitAnswer::Listed(names)) => self.after_discovery(&names),
            (Phase::Discover, SplitAnswer::Failed(cause)) => self.not_listed(cause.as_str()),
            (Phase::Discover, SplitAnswer::EntryFailed(cause)) => self.not_read(cause.as_str()),
            (Phase::Explain(complaint), SplitAnswer::Shown(shown)) => self.after_explanation(
                complaint,
                shown.as_str(),
            ),
            _ => self,
        }
    }

    fn is_at(&self) -> (r: bool)
        ensures
            r == self@.setup.mode is At,
    {
        match &self.setup.mode {
            SplitMode::At(_) => true,
            _ => false,
        }
    }
}

// ---------------------------------------------------------------------------
// Laws
// ---------------------------------------------------------------------------

/// A job after all of the answers.
pub open spec fn after_all(setup: SetupView, answers: Seq<AnswerView>) -> JobView
    decreases answers.len(),
{
    if answers.len() == 0 {
        fresh_job(setup)
    } else {
        step(after_all(setup, answers.drop_last()), answers.last())
    }
}

/// Whether the outputs are named as was asked: by the prefix, or else as the input, and with the
/// extension of the input.
pub open spec fn is_named(job: JobView) -> bool {
    &&& job.setup.extension == video::NamePartView::Text(job.extension)
    &&& match job.setup.prefix {
        Some(prefix) => job.prefix == prefix,
        None => job.setup.stem == video::NamePartView::Text(job.prefix),
    }
}

/// Whether no output can take the place of the input.
pub open spec fn is_clear(job: JobView) -> bool {
    video::collision_failure(
        job.setup.input_shown,
        job.setup.file_name,
        job.same_directory,
        job.prefix,
        job.extension,
    ) is None
}

/// Whether points in time are in order, and the cuts and the expected outputs follow from them.
pub open spec fn is_planned(job: JobView) -> bool {
    job.setup.mode matches cli::ModeView::At(times) ==> {
        &&& video::is_increasing(times)
        &&& job.cuts == time_texts(times)
        &&& job.files == video::names_of(
            job.prefix,
            video::one_to(times.len() + 1),
            job.extension,
        )
    }
}

/// Whether all files are outputs with a number that a name can have.
pub open spec fn are_outputs(job: JobView) -> bool {
    forall|i: int|
        0 <= i < job.files.len() ==> is_output(#[trigger] job.files[i], job.prefix, job.extension)
}

/// Whether a name is that of an output.
pub open spec fn is_output(name: Seq<char>, prefix: Seq<char>, extension: Seq<char>) -> bool {
    exists|n: nat|
        0 < n <= usize::MAX && name == #[trigger] video::output_name(prefix, n, extension)
}

/// Whether the files of a finished job are the outputs from the first to the last, as many as were
/// asked for.
pub open spec fn is_complete(job: JobView) -> bool {
    &&& job.files.len() > 0
    &&& job.files == video::names_of(
        job.prefix,
        video::one_to(job.files.len()),
        job.extension,
    )
    &&& match job.setup.mode {
        cli::ModeView::At(times) => job.files.len() == times.len() + 1,
        cli::ModeView::Every(_) => true,
        cli::ModeView::Size(_) => job.files.len() == job.cuts.len() + 1,
    }
}

/// What holds of a job at every phase.
pub open spec fn is_sound_job(job: JobView) -> bool {
    match job.phase {
        PhaseView::Input => true,
        PhaseView::OutputDir => is_named(job) && job.setup.stem is Text,
        PhaseView::InputDir => is_named(job),
        PhaseView::OutputDirPath => is_named(job),
        PhaseView::Measure => is_ready(job) && job.setup.mode is Size,
        PhaseView::Probe => is_ready(job) && job.setup.mode is Size,
        PhaseView::PrepareDir => is_ready(job) && is_planned(job),
        PhaseView::Check(i) => is_ready(job) && is_planned(job) && job.setup.mode is At && i
            < job.files.len(),
        PhaseView::List => is_ready(job) && !(job.setup.mode is At),
        PhaseView::Remove(i) => is_ready(job) && is_planned(job) && job.setup.overwrite && i
            < job.files.len() && (job.setup.mode is At || are_outputs(job)),
        PhaseView::Run => is_ready(job) && is_planned(job),
        PhaseView::Generated(i) => is_ready(job) && is_planned(job) && job.setup.mode is At && i
            < job.files.len() && job.found <= i,
        PhaseView::Single => is_ready(job) && is_single(job),
        PhaseView::Discover => is_ready(job) && !(job.setup.mode is At) && !is_single(job),
        PhaseView::Explain(complaint) => is_ready(job) && match complaint {
            Complaint::Exists => !job.setup.overwrite,
            Complaint::SegmentsExist => !job.setup.overwrite,
            Complaint::CannotRemove => job.setup.overwrite,
            Complaint::NotGenerated => is_single(job),
        },
        PhaseView::Failed => true,
        PhaseView::Finished => is_ready(job) && is_complete(job),
    }
}

/// Whether it is settled where the outputs go.
pub open spec fn is_ready(job: JobView) -> bool {
    is_named(job) && is_clear(job) && job.directory is Some
}

proof fn lemma_listed_outputs(
    names: Seq<Option<Seq<char>>>,
    prefix: Seq<char>,
    extension: Seq<char>,
)
    ensures
        ({
            let files = video::names_of(
                prefix,
                video::numbers_in(names, prefix, extension),
                extension,
            );
            forall|i: int|
                0 <= i < files.len() ==> is_output(#[trigger] files[i], prefix, extension)
        }),
{
    let numbers = video::numbers_in(names, prefix, extension);
    let files = video::names_of(prefix, numbers, extension);
    video::law_numbers_in(names, prefix, extension);
    assert forall|i: int| 0 <= i < files.len() implies is_output(
        #[trigger] files[i],
        prefix,
        extension,
    ) by {
        assert(numbers.contains(numbers[i]));
        assert(files[i] == video::output_name(prefix, numbers[i], extension));
    }
}

proof fn lemma_sound_names(job: JobView, answer: AnswerView)
    requires
        is_sound_job(job),
        job.phase is Input || job.phase is OutputDir || job.phase is InputDir,
    ensures
        is_sound_job(step(job, answer)),
{
}

proof fn lemma_sound_directories(job: JobView, answer: AnswerView)
    requires
        is_sound_job(job),
        job.phase is OutputDirPath,
    ensures
        is_sound_job(step(job, answer)),
{
    match job.setup.mode {
        cli::ModeView::At(times) => {
            video::lemma_order_failure(times);
        },
        _ => {},
    }
}

proof fn lemma_sound_plan(job: JobView, answer: AnswerView)
    requires
        is_sound_job(job),
        job.phase is Measure || job.phase is Probe || job.phase is PrepareDir,
    ensures
        is_sound_job(step(job, answer)),
{
}

proof fn lemma_sound_checks(job: JobView, answer: AnswerView)
    requires
        is_sound_job(job),
        job.phase is Check || job.phase is Remove,
    ensures
        is_sound_job(step(job, answer)),
{
}

proof fn lemma_sound_list(job: JobView, answer: AnswerView)
    requires
        is_sound_job(job),
        job.phase is List,
    ensures
        is_sound_job(step(job, answer)),
{
    match answer {
        AnswerView::Listed(names) => {
            lemma_listed_outputs(names, job.prefix, job.extension);
        },
        _ => {},
    }
}

proof fn lemma_sound_run(job: JobView, answer: AnswerView)
    requires
        is_sound_job(job),
        job.phase is Run || job.phase is Generated || job.phase is Explain,
    ensures
        is_sound_job(step(job, answer)),
{
}

proof fn lemma_sound_end(job: JobView, answer: AnswerView)
    requires
        is_sound_job(job),
        job.phase is Single || job.phase is Discover,
    ensures
        is_sound_job(step(job, answer)),
{
    match answer {
        AnswerView::Listed(names) => {
            video::law_discovered(names, job.directory_shown, job.prefix, job.extension);
        },
        _ => {},
    }
    assert(seq![first_output(job)] == video::names_of(
        job.prefix,
        video::one_to(1),
        job.extension,
    ));
}

/// Every answer keeps what holds of a job.
pub proof fn law_step_keeps_sound(job: JobView, answer: AnswerView)
    requires
        is_sound_job(job),
    ensures
        is_sound_job(step(job, answer)),
{
    if job.phase is Input || job.phase is OutputDir || job.phase is InputDir {
        lemma_sound_names(job, answer);
    } else if job.phase is OutputDirPath {
        lemma_sound_directories(job, answer);
    } else if job.phase is Measure || job.phase is Probe || job.phase is PrepareDir {
        lemma_sound_plan(job, answer);
    } else if job.phase is Check || job.phase is Remove {
        lemma_sound_checks(job, answer);
    } else if job.phase is List {
        lemma_sound_list(job, answer);
    } else if job.phase is Run || job.phase is Generated || job.phase is Explain {
        lemma_sound_run(job, answer);
    } else if job.phase is Single || job.phase is Discover {
        lemma_sound_end(job, answer);
    }
}

/// What holds of a job holds whatever the answers were.
pub proof fn law_sound_after_all(setup: SetupView, answers: Seq<AnswerView>)
    ensures
        is_sound_job(after_all(setup, answers)),
        after_all(setup, answers).setup == setup,
    decreases answers.len(),
{
    if answers.len() > 0 {
        law_sound_after_all(setup, answers.drop_last());
        law_step_keeps_sound(after_all(setup, answers.drop_last()), answers.last());
    }
}

/// The output directory is the one that was asked for, or else the one beside the input that has
/// the name of the input without its extension, and `_parts` behind it. The prefix of the outputs
/// does not count.
pub proof fn law_default_directory(setup: SetupView, answers: Seq<AnswerView>)
    ensures
        action_of(after_all(setup, answers)) matches ActionView::CreateOutputDir(name) ==> {
            &&& setup.output_dir_given ==> name is None
            &&& !setup.output_dir_given ==> (setup.stem matches video::NamePartView::Text(stem)
                && name == Some(stem + "_parts"@))
        },
{
    law_sound_after_all(setup, answers);
}

/// Whether all files were seen: each of the expected ones by itself where the video was cut at
/// points in time, the only one where it was copied as a whole, and else all of them in one
/// listing of the output directory.
pub open spec fn were_seen(
    setup: SetupView,
    answers: Seq<AnswerView>,
    files: Seq<Seq<char>>,
    single: bool,
) -> bool {
    if setup.mode is At {
        forall|i: nat|
            i < files.len() ==> #[trigger] was_answered(
                setup,
                answers,
                PhaseView::Generated(i),
                AnswerView::Generated(true),
            )
    } else if single {
        was_answered(setup, answers, PhaseView::Single, AnswerView::Generated(true))
    } else {
        exists|names: Seq<Option<Seq<char>>>|
            #[trigger] was_answered(
                setup,
                answers,
                PhaseView::Discover,
                AnswerView::Listed(names),
            ) && forall|i: int| 0 <= i < files.len() ==> names.contains(Some(#[trigger] files[i]))
    }
}

/// While all outputs so far were made, each of them was seen.
proof fn lemma_generated(setup: SetupView, answers: Seq<AnswerView>, i: nat)
    requires
        setup.mode is At,
        after_all(setup, answers).phase matches PhaseView::Generated(next) && i < next
            && after_all(setup, answers).found == next,
    ensures
        was_answered(setup, answers, PhaseView::Generated(i), AnswerView::Generated(true)),
    decreases answers.len(),
{
    let front = answers.drop_last();
    law_sound_after_all(setup, front);
    lemma_was_answered(setup, answers, PhaseView::Generated(i), AnswerView::Generated(true));
    match after_all(setup, front).phase {
        PhaseView::Generated(next) => {
            if i < next {
                lemma_generated(setup, front, i);
            }
        },
        _ => {},
    }
}

/// What was seen once was seen, whatever is answered later.
proof fn lemma_still_seen(
    setup: SetupView,
    answers: Seq<AnswerView>,
    files: Seq<Seq<char>>,
    single: bool,
)
    requires
        answers.len() > 0,
        were_seen(setup, answers.drop_last(), files, single),
    ensures
        were_seen(setup, answers, files, single),
{
    let front = answers.drop_last();
    if setup.mode is At {
        assert forall|i: nat| i < files.len() implies #[trigger] was_answered(
            setup,
            answers,
            PhaseView::Generated(i),
            AnswerView::Generated(true),
        ) by {
            assert(was_answered(
                setup,
                front,
                PhaseView::Generated(i),
                AnswerView::Generated(true),
            ));
            lemma_was_answered(
                setup,
                answers,
                PhaseView::Generated(i),
                AnswerView::Generated(true),
            );
        }
    } else if single {
        lemma_was_answered(setup, answers, PhaseView::Single, AnswerView::Generated(true));
    } else {
        let names = choose|names: Seq<Option<Seq<char>>>|
            #[trigger] was_answered(
                setup,
                front,
                PhaseView::Discover,
                AnswerView::Listed(names),
            ) && forall|i: int| 0 <= i < files.len() ==> names.contains(Some(#[trigger] files[i]));
        lemma_was_answered(setup, answers, PhaseView::Discover, AnswerView::Listed(names));
    }
}

proof fn lemma_seen(setup: SetupView, answers: Seq<AnswerView>)
    requires
        after_all(setup, answers).phase is Finished,
    ensures
        were_seen(
            setup,
            answers,
            after_all(setup, answers).files,
            is_single(after_all(setup, answers)),
        ),
    decreases answers.len(),
{
    let front = answers.drop_last();
    let before = after_all(setup, front);
    let job = after_all(setup, answers);
    law_sound_after_all(setup, front);
    match (before.phase, answers.last()) {
        (PhaseView::Finished, _) => {
            lemma_seen(setup, front);
            lemma_still_seen(setup, answers, job.files, is_single(job));
        },
        (PhaseView::Generated(last), AnswerView::Generated(yes)) => {
            assert forall|i: nat| i < job.files.len() implies #[trigger] was_answered(
                setup,
                answers,
                PhaseView::Generated(i),
                AnswerView::Generated(true),
            ) by {
                lemma_was_answered(
                    setup,
                    answers,
                    PhaseView::Generated(i),
                    AnswerView::Generated(true),
                );
                if i < last {
                    lemma_generated(setup, front, i);
                }
            }
        },
        (PhaseView::Single, AnswerView::Generated(yes)) => {
            lemma_was_answered(setup, answers, PhaseView::Single, AnswerView::Generated(true));
        },
        (PhaseView::Discover, AnswerView::Listed(names)) => {
            lemma_was_answered(setup, answers, PhaseView::Discover, AnswerView::Listed(names));
            video::law_discovered(names, before.directory_shown, before.prefix, before.extension);
        },
        _ => {},
    }
}

/// A job that succeeds has made the outputs from the first to the last, with the asked names: one
/// more than the points in time or the cuts by size, and at least one. Each of them was seen after
/// FFmpeg had run.
pub proof fn law_success(setup: SetupView, answers: Seq<AnswerView>)
    ensures
        action_of(after_all(setup, answers)) matches ActionView::Finish(Ok(files)) ==> {
            let job = after_all(setup, answers);
            &&& files.len() > 0
            &&& files == video::names_of(job.prefix, video::one_to(files.len()), job.extension)
            &&& is_named(job)
            &&& setup.mode matches cli::ModeView::At(times) ==> files.len() == times.len() + 1
            &&& setup.mode is Size ==> files.len() == job.cuts.len() + 1
            &&& were_seen(setup, answers, files, is_single(job))
        },
{
    law_sound_after_all(setup, answers);
    if after_all(setup, answers).phase is Finished {
        lemma_seen(setup, answers);
    }
}

/// Nothing is removed unless overwriting was asked for, only outputs are removed, and never the
/// input.
pub proof fn law_removals(setup: SetupView, answers: Seq<AnswerView>)
    requires
        setup.mode matches cli::ModeView::At(times) ==> times.len() < usize::MAX,
    ensures
        action_of(after_all(setup, answers)) matches ActionView::RemoveOutput(name) ==> {
            let job = after_all(setup, answers);
            &&& setup.overwrite
            &&& is_output(name, job.prefix, job.extension)
            &&& job.same_directory ==> setup.file_name != video::NamePartView::Text(name)
        },
{
    law_sound_after_all(setup, answers);
    let job = after_all(setup, answers);
    match job.phase {
        PhaseView::Remove(i) => {
            let name = job.files[i as int];
            match setup.mode {
                cli::ModeView::At(times) => {
                    assert(name == video::output_name(job.prefix, i + 1, job.extension));
                },
                _ => {},
            }
            if job.same_directory {
                lemma_clear(job, name);
            }
        },
        _ => {},
    }
}

/// Where no output can take the place of the input, the input is not named like an output.
proof fn lemma_clear(job: JobView, name: Seq<char>)
    requires
        is_clear(job),
        job.same_directory,
        is_output(name, job.prefix, job.extension),
    ensures
        job.setup.file_name != video::NamePartView::Text(name),
{
    let n = choose|n: nat|
        0 < n <= usize::MAX && name == #[trigger] video::output_name(job.prefix, n, job.extension);
    video::law_entry_index(name, job.prefix, job.extension, n);
}

/// When FFmpeg runs, the points in time are in order, and where the outputs go to the directory of
/// the input, none has its name.
pub proof fn law_before_running(setup: SetupView, answers: Seq<AnswerView>, name: Seq<char>)
    ensures
        action_of(after_all(setup, answers)) is Run ==> {
            let job = after_all(setup, answers);
            &&& action_of(job) == ActionView::Run(command_of(job))
            &&& setup.mode matches cli::ModeView::At(times) ==> video::is_increasing(times)
                && job.cuts == time_texts(times)
            &&& job.same_directory && is_output(name, job.prefix, job.extension)
                ==> setup.file_name != video::NamePartView::Text(name)
        },
{
    law_sound_after_all(setup, answers);
    let job = after_all(setup, answers);
    if job.phase is Run && job.same_directory && is_output(name, job.prefix, job.extension) {
        lemma_clear(job, name);
    }
}

/// FFmpeg is told to put the segment with a number where the output with that number is looked for.
pub proof fn law_command_paths(job: JobView, number: nat)
    requires
        !is_single(job),
        !job.setup.separator.contains('%'),
    ensures
        command_of(job).last() matches PartView::Text(pattern) && video::filled_in(pattern, number)
            == Some(
            job.directory->0 + job.setup.separator + video::output_name(
                job.prefix,
                number,
                job.extension,
            ),
        ),
{
    video::law_pattern(
        job.directory->0,
        job.setup.separator,
        job.prefix,
        job.extension,
        number,
    );
    let pattern = video::pattern_of(
        job.directory->0,
        job.setup.separator,
        job.prefix,
        job.extension,
    );
    let end = segment_numbers(pattern);
    assert(end.last() == PartView::Text(pattern));
    assert(command_of(job).last() == end.last());
}

/// Every command starts with the input, the copying of all its streams, and whether files may be
/// overwritten: `-y` exactly where that was asked for, else `-n`.
pub proof fn law_command_copies(job: JobView)
    ensures
        command_of(job).len() >= 9,
        command_of(job).take(8) == copy_command(job.setup.overwrite),
{
    let start = copy_command(job.setup.overwrite);
    assert(start.len() == 8);
    assert(command_of(job).take(8) == start);
}

/// A job that has ended is not changed by any answer.
pub proof fn law_end(job: JobView, answer: AnswerView)
    requires
        action_of(job) is Finish,
    ensures
        step(job, answer) == job,
{
}

/// Whether the job was in this phase once, and then got this answer.
pub open spec fn was_answered(
    setup: SetupView,
    answers: Seq<AnswerView>,
    phase: PhaseView,
    answer: AnswerView,
) -> bool {
    exists|k: int|
        0 <= k < answers.len() && #[trigger] answers[k] == answer && after_all(
            setup,
            answers.take(k),
        ).phase == phase
}

proof fn lemma_was_answered(
    setup: SetupView,
    answers: Seq<AnswerView>,
    phase: PhaseView,
    answer: AnswerView,
)
    requires
        answers.len() > 0,
    ensures
        was_answered(setup, answers.drop_last(), phase, answer) ==> was_answered(
            setup,
            answers,
            phase,
            answer,
        ),
        after_all(setup, answers.drop_last()).phase == phase && answers.last() == answer
            ==> was_answered(setup, answers, phase, answer),
{
    let front = answers.drop_last();
    if was_answered(setup, front, phase, answer) {
        let k = choose|k: int|
            0 <= k < front.len() && #[trigger] front[k] == answer && after_all(
                setup,
                front.take(k),
            ).phase == phase;
        assert(answers[k] == answer);
        assert(answers.take(k) == front.take(k));
    }
    if after_all(setup, front).phase == phase && answers.last() == answer {
        let k = answers.len() - 1;
        assert(answers[k] == answer);
        assert(answers.take(k) == front);
    }
}

/// The outputs before which place were said not to be there.
pub open spec fn checked(job: JobView) -> nat {
    match job.phase {
        PhaseView::Check(i) => i,
        PhaseView::Run => job.files.len(),
        _ => 0,
    }
}

proof fn lemma_checked(setup: SetupView, answers: Seq<AnswerView>, i: nat)
    requires
        setup.mode is At,
        !setup.overwrite,
        i < checked(after_all(setup, answers)),
    ensures
        was_answered(setup, answers, PhaseView::Check(i), AnswerView::Exists(false)),
    decreases answers.len(),
{
    if answers.len() > 0 {
        let front = answers.drop_last();
        let before = after_all(setup, front);
        law_sound_after_all(setup, front);
        lemma_was_answered(setup, answers, PhaseView::Check(i), AnswerView::Exists(false));
        if i < checked(before) {
            lemma_checked(setup, front, i);
        }
    }
}

/// Where overwriting was not asked for and the video is cut at points in time, FFmpeg runs only
/// after every expected output was said not to be there.
pub proof fn law_outputs_were_free(setup: SetupView, answers: Seq<AnswerView>, i: nat)
    requires
        setup.mode is At,
        !setup.overwrite,
        i < after_all(setup, answers).files.len(),
    ensures
        action_of(after_all(setup, answers)) is Run ==> was_answered(
            setup,
            answers,
            PhaseView::Check(i),
            AnswerView::Exists(false),
        ),
{
    if after_all(setup, answers).phase is Run {
        lemma_checked(setup, answers, i);
    }
}

/// Where overwriting was not asked for and the video is cut by duration or size, FFmpeg runs only
/// after the output directory was listed and held no output.
pub proof fn law_directory_was_free(setup: SetupView, answers: Seq<AnswerView>)
    requires
        !(setup.mode is At),
        !setup.overwrite,
    ensures
        action_of(after_all(setup, answers)) is Run ==> exists|names: Seq<Option<Seq<char>>>|
            #[trigger] was_answered(
                setup,
                answers,
                PhaseView::List,
                AnswerView::Listed(names),
            ) && forall|name: Seq<char>|
                is_output(
                    name,
                    after_all(setup, answers).prefix,
                    after_all(setup, answers).extension,
                ) ==> !names.contains(Some(name)),
    decreases answers.len(),
{
    let job = after_all(setup, answers);
    if answers.len() > 0 && job.phase is Run {
        let front = answers.drop_last();
        let before = after_all(setup, front);
        law_sound_after_all(setup, front);
        if before.phase is Run {
            law_directory_was_free(setup, front);
            let names = choose|names: Seq<Option<Seq<char>>>|
                #[trigger] was_answered(
                    setup,
                    front,
                    PhaseView::List,
                    AnswerView::Listed(names),
                ) && forall|name: Seq<char>|
                    is_output(name, before.prefix, before.extension) ==> !names.contains(
                        Some(name),
                    );
            lemma_was_answered(setup, answers, PhaseView::List, AnswerView::Listed(names));
        } else {
            assert(before.phase is List);
            match answers.last() {
                AnswerView::Listed(names) => {
                    lemma_was_answered(setup, answers, PhaseView::List, AnswerView::Listed(names));
                    video::law_numbers_in(names, before.prefix, before.extension);
                    let numbers = video::numbers_in(names, before.prefix, before.extension);
                    assert(numbers.len() == 0);
                    assert forall|name: Seq<char>|
                        is_output(name, job.prefix, job.extension) implies !names.contains(
                        Some(name),
                    ) by {
                        let n = choose|n: nat|
                            0 < n <= usize::MAX && name == #[trigger] video::output_name(
                                job.prefix,
                                n,
                                job.extension,
                            );
                        assert(!numbers.contains(n));
                    }
                },
                _ => {},
            }
        }
    }
}

/// How many phases are still to come, at most.
pub open spec fn phases_left(phase: PhaseView) -> nat {
    match phase {
        PhaseView::Input => 13,
        PhaseView::OutputDir => 12,
        PhaseView::InputDir => 11,
        PhaseView::OutputDirPath => 10,
        PhaseView::Measure => 9,
        PhaseView::Probe => 8,
        PhaseView::PrepareDir => 7,
        PhaseView::List => 6,
        PhaseView::Check(_) => 5,
        PhaseView::Remove(_) => 5,
        PhaseView::Run => 4,
        PhaseView::Generated(_) => 3,
        PhaseView::Single => 3,
        PhaseView::Discover => 3,
        PhaseView::Explain(_) => 2,
        PhaseView::Failed => 0,
        PhaseView::Finished => 0,
    }
}

/// How much of a phase that goes from output to output is still to come, at most.
pub open spec fn outputs_left(job: JobView) -> int {
    match job.phase {
        PhaseView::Check(i) => 2 * (job.files.len() - i) + 1,
        PhaseView::Remove(i) => 2 * (job.files.len() - i),
        PhaseView::Generated(i) => job.files.len() - i,
        _ => 0,
    }
}

/// An answer brings a job closer to its end, or changes nothing.
pub proof fn law_progress(job: JobView, answer: AnswerView)
    requires
        is_sound_job(job),
    ensures
        step(job, answer) == job || phases_left(step(job, answer).phase) < phases_left(job.phase)
            || phases_left(step(job, answer).phase) == phases_left(job.phase) && 0 <= outputs_left(
            step(job, answer),
        ) < outputs_left(job),
{
}

// ---------------------------------------------------------------------------
// Laws of commands
// ---------------------------------------------------------------------------

/// A command for segments, word by word: the input is cut, all of its streams are copied, the
/// times of each segment start anew, and the segments are numbered from one. `cutting` tells where
/// to cut, `pattern` where the segments go.
pub open spec fn segments_command(
    overwrite: bool,
    cutting: Seq<PartView>,
    pattern: Seq<char>,
) -> Seq<PartView> {
    seq![
        PartView::Text("-hide_banner"@),
        PartView::Text(
            if overwrite {
                "-y"@
            } else {
                "-n"@
            },
        ),
        PartView::Text("-i"@),
        PartView::Input,
        PartView::Text("-map"@),
        PartView::Text("0"@),
        PartView::Text("-c"@),
        PartView::Text("copy"@),
        PartView::Text("-f"@),
        PartView::Text("segment"@),
    ] + cutting + seq![
        PartView::Text("-reset_timestamps"@),
        PartView::Text("1"@),
        PartView::Text("-segment_start_number"@),
        PartView::Text("1"@),
        PartView::Text(pattern),
    ]
}

/// Whether a pattern, filled in with any number, is the path of the output with that number.
pub open spec fn leads_to_outputs(pattern: Seq<char>, job: JobView) -> bool {
    forall|n: nat|
        #[trigger] video::filled_in(pattern, n) == Some(
            job.directory->0 + job.setup.separator + video::output_name(
                job.prefix,
                n,
                job.extension,
            ),
        )
}

/// The path of the segments of a job.
pub open spec fn pattern_for(job: JobView) -> Seq<char> {
    video::pattern_of(job.directory->0, job.setup.separator, job.prefix, job.extension)
}

proof fn lemma_leads_to_outputs(job: JobView)
    requires
        !job.setup.separator.contains('%'),
    ensures
        leads_to_outputs(pattern_for(job), job),
{
    assert forall|n: nat|
        #[trigger] video::filled_in(pattern_for(job), n) == Some(
            job.directory->0 + job.setup.separator + video::output_name(
                job.prefix,
                n,
                job.extension,
            ),
        ) by {
        video::law_pattern(
            job.directory->0,
            job.setup.separator,
            job.prefix,
            job.extension,
            n,
        );
    }
}

proof fn lemma_segments_command(job: JobView)
    requires
        !is_single(job),
    ensures
        command_of(job) == segments_command(
            job.setup.overwrite,
            cut_options(job),
            pattern_for(job),
        ),
{
    let pattern = pattern_for(job);
    let cutting = cut_options(job);
    let start = copy_command(job.setup.overwrite) + words(seq!["-f"@, "segment"@]);
    let expected = segments_command(job.setup.overwrite, cutting, pattern);
    assert(start == expected.take(10));
    assert(segment_numbers(pattern) == expected.skip(10 + cutting.len() as int));
    assert(command_of(job) == start + cutting + segment_numbers(pattern));
    assert(command_of(job) == expected);
}

/// Where the video is cut at points in time, FFmpeg is told all of them: behind `-segment_times`,
/// as many texts between commas as there are points in time, each of them read as the one at its
/// place.
pub proof fn law_command_at(setup: SetupView, answers: Seq<AnswerView>, times: Seq<nat>)
    requires
        setup.mode == cli::ModeView::At(times),
        times.len() > 0,
        forall|i: int| 0 <= i < times.len() ==> 0 < #[trigger] times[i] <= u64::MAX,
        !setup.separator.contains('%'),
    ensures
        action_of(after_all(setup, answers)) matches ActionView::Run(command) ==> {
            let word = command[11]->Text_0;
            let pattern = command[16]->Text_0;
            let points = text::split(word, ',');
            &&& command == segments_command(
                setup.overwrite,
                seq![PartView::Text("-segment_times"@), PartView::Text(word)],
                pattern,
            )
            &&& points.len() == times.len()
            &&& forall|i: int|
                0 <= i < times.len() ==> time::timestamp_of(#[trigger] points[i]) == Ok::<
                    nat,
                    Seq<char>,
                >(times[i])
            &&& leads_to_outputs(pattern, after_all(setup, answers))
        },
{
    law_sound_after_all(setup, answers);
    let job = after_all(setup, answers);
    if job.phase is Run {
        let word = text::join(job.cuts, ","@);
        lemma_segments_command(job);
        lemma_leads_to_outputs(job);
        assert(cut_options(job) == seq![
            PartView::Text("-segment_times"@),
            PartView::Text(word),
        ]);
        reveal_strlit(",");
        assert(","@ == seq![',']);
        assert forall|i: int| 0 <= i < job.cuts.len() implies !(#[trigger] job.cuts[i]).contains(
            ',',
        ) by {
            time::law_ffmpeg_seconds_form(times[i]);
        }
        text::law_split_joined(job.cuts, ',');
        assert forall|i: int| 0 <= i < times.len() implies time::timestamp_of(
            #[trigger] text::split(word, ',')[i],
        ) == Ok::<nat, Seq<char>>(times[i]) by {
            time::law_timestamp_of_ffmpeg_seconds(times[i]);
        }
        let command = command_of(job);
        assert(command[11] == PartView::Text(word));
        assert(command[16] == PartView::Text(pattern_for(job)));
    }
}

/// Where the video is cut by duration, FFmpeg is told the duration behind `-segment_time`.
pub proof fn law_command_every(setup: SetupView, answers: Seq<AnswerView>, millis: nat)
    requires
        setup.mode == cli::ModeView::Every(millis),
        0 < millis <= u64::MAX,
        !setup.separator.contains('%'),
    ensures
        action_of(after_all(setup, answers)) matches ActionView::Run(command) ==> {
            let word = command[11]->Text_0;
            let pattern = command[16]->Text_0;
            &&& command == segments_command(
                setup.overwrite,
                seq![PartView::Text("-segment_time"@), PartView::Text(word)],
                pattern,
            )
            &&& time::duration_of(word) == Ok::<nat, Seq<char>>(millis)
            &&& leads_to_outputs(pattern, after_all(setup, answers))
        },
{
    law_sound_after_all(setup, answers);
    let job = after_all(setup, answers);
    if job.phase is Run {
        let word = time::ffmpeg_seconds(millis);
        lemma_segments_command(job);
        lemma_leads_to_outputs(job);
        time::law_duration_of_ffmpeg_seconds(millis);
        assert(cut_options(job) == seq![PartView::Text("-segment_time"@), PartView::Text(word)]);
        let command = command_of(job);
        assert(command[11] == PartView::Text(word));
        assert(command[16] == PartView::Text(pattern_for(job)));
    }
}

/// Whether the cuts of a job are those of the layout that was answered, for the size that was
/// answered.
pub open spec fn is_cut_by(
    setup: SetupView,
    answers: Seq<AnswerView>,
    cuts: Seq<Seq<char>>,
    layout: ffmpeg::LayoutView,
    bytes: nat,
    places: Seq<nat>,
) -> bool {
    &&& was_answered(setup, answers, PhaseView::Measure, AnswerView::Size(bytes))
    &&& was_answered(setup, answers, PhaseView::Probe, AnswerView::Layout(layout))
    &&& bytes > 0
    &&& setup.mode matches cli::ModeView::Size(target) && video::size_cuts(layout, target, bytes)
        == Ok::<Seq<nat>, Seq<char>>(places)
    &&& cuts == video::cut_times(layout.keyframes, places)
}

/// The size that a job knows is the one that was answered.
proof fn lemma_measured(setup: SetupView, answers: Seq<AnswerView>)
    requires
        after_all(setup, answers).phase is Probe,
    ensures
        was_answered(
            setup,
            answers,
            PhaseView::Measure,
            AnswerView::Size(after_all(setup, answers).input_size),
        ),
        after_all(setup, answers).input_size > 0,
    decreases answers.len(),
{
    let front = answers.drop_last();
    let before = after_all(setup, front);
    law_sound_after_all(setup, front);
    lemma_was_answered(
        setup,
        answers,
        PhaseView::Measure,
        AnswerView::Size(after_all(setup, answers).input_size),
    );
    if before.phase is Probe {
        lemma_measured(setup, front);
    }
}

/// The cuts of a job that is to cut by size, once they are known.
proof fn lemma_cut_by(setup: SetupView, answers: Seq<AnswerView>)
    requires
        setup.mode is Size,
        ({
            let phase = after_all(setup, answers).phase;
            phase is PrepareDir || phase is List || phase is Remove || phase is Run || phase
                is Single || phase is Discover || phase is Finished
        }),
    ensures
        exists|layout: ffmpeg::LayoutView, bytes: nat, places: Seq<nat>|
            #[trigger] is_cut_by(
                setup,
                answers,
                after_all(setup, answers).cuts,
                layout,
                bytes,
                places,
            ),
    decreases answers.len(),
{
    let front = answers.drop_last();
    let before = after_all(setup, front);
    let job = after_all(setup, answers);
    law_sound_after_all(setup, front);
    if before.phase is Probe {
        lemma_measured(setup, front);
        match answers.last() {
            AnswerView::Layout(layout) => {
                let target = setup.mode->Size_0;
                let places = video::size_cuts(layout, target, before.input_size)->Ok_0;
                lemma_was_answered(
                    setup,
                    answers,
                    PhaseView::Measure,
                    AnswerView::Size(before.input_size),
                );
                lemma_was_answered(setup, answers, PhaseView::Probe, AnswerView::Layout(layout));
                assert(is_cut_by(setup, answers, job.cuts, layout, before.input_size, places));
            },
            _ => {},
        }
    } else {
        lemma_cut_by(setup, front);
        let (layout, bytes, places) = choose|
            layout: ffmpeg::LayoutView,
            bytes: nat,
            places: Seq<nat>,
        |
            #[trigger] is_cut_by(setup, front, before.cuts, layout, bytes, places);
        lemma_was_answered(setup, answers, PhaseView::Measure, AnswerView::Size(bytes));
        lemma_was_answered(setup, answers, PhaseView::Probe, AnswerView::Layout(layout));
        assert(job.cuts == before.cuts);
        assert(is_cut_by(setup, answers, job.cuts, layout, bytes, places));
    }
}

/// Where the video is cut by size, the cuts are those of the layout that was probed, for the size
/// that was measured; FFmpeg is told all of them, as many texts between commas as there are cuts,
/// each of them read as the time of the boundary at its place. Where there are none, the video is
/// copied as a whole to the first output.
pub proof fn law_command_size(setup: SetupView, answers: Seq<AnswerView>)
    requires
        setup.mode is Size,
        !setup.separator.contains('%'),
    ensures
        action_of(after_all(setup, answers)) matches ActionView::Run(command) ==> exists|
            layout: ffmpeg::LayoutView,
            bytes: nat,
            places: Seq<nat>,
        |
            #[trigger] is_cut_by(
                setup,
                answers,
                after_all(setup, answers).cuts,
                layout,
                bytes,
                places,
            ) && cuts_by_size(command, after_all(setup, answers), layout, places),
{
    law_sound_after_all(setup, answers);
    let job = after_all(setup, answers);
    if job.phase is Run {
        lemma_cut_by(setup, answers);
        let (layout, bytes, places) = choose|
            layout: ffmpeg::LayoutView,
            bytes: nat,
            places: Seq<nat>,
        |
            #[trigger] is_cut_by(setup, answers, job.cuts, layout, bytes, places);
        lemma_cuts_by_size(job, layout, places);
        assert(action_of(job) == ActionView::Run(command_of(job)));
    }
}

/// Whether a command cuts at the boundaries at the given places, or copies the video as a whole
/// where there are none.
pub open spec fn cuts_by_size(
    command: Seq<PartView>,
    job: JobView,
    layout: ffmpeg::LayoutView,
    places: Seq<nat>,
) -> bool {
    if places.len() == 0 {
        is_whole_copy(command, job.setup.overwrite, job)
    } else {
        tells_all_cuts(command, job.setup.overwrite, job, layout, places)
    }
}

proof fn lemma_cuts_by_size(job: JobView, layout: ffmpeg::LayoutView, places: Seq<nat>)
    requires
        job.setup.mode is Size,
        job.cuts == video::cut_times(layout.keyframes, places),
        !job.setup.separator.contains('%'),
    ensures
        cuts_by_size(command_of(job), job, layout, places),
{
    assert(job.cuts.len() == places.len());
    if places.len() == 0 {
        let command = command_of(job);
        let expected = seq![
            PartView::Text("-hide_banner"@),
            PartView::Text(video::overwrite_option(job.setup.overwrite)),
            PartView::Text("-i"@),
            PartView::Input,
            PartView::Text("-map"@),
            PartView::Text("0"@),
            PartView::Text("-c"@),
            PartView::Text("copy"@),
            PartView::Output(video::output_name(job.prefix, 1, job.extension)),
        ];
        assert(command =~= expected);
    } else {
        lemma_tells_all_cuts(job, layout, places);
    }
}

/// A command that copies the video as a whole, word by word.
pub open spec fn is_whole_copy(command: Seq<PartView>, overwrite: bool, job: JobView) -> bool {
    command == seq![
        PartView::Text("-hide_banner"@),
        PartView::Text(
            if overwrite {
                "-y"@
            } else {
                "-n"@
            },
        ),
        PartView::Text("-i"@),
        PartView::Input,
        PartView::Text("-map"@),
        PartView::Text("0"@),
        PartView::Text("-c"@),
        PartView::Text("copy"@),
        PartView::Output(video::output_name(job.prefix, 1, job.extension)),
    ]
}

/// A command that cuts at the boundaries at the given places, word by word.
pub open spec fn tells_all_cuts(
    command: Seq<PartView>,
    overwrite: bool,
    job: JobView,
    layout: ffmpeg::LayoutView,
    places: Seq<nat>,
) -> bool {
    let word = command[13]->Text_0;
    let pattern = command[20]->Text_0;
    let cuts = text::split(word, ',');
    &&& command == segments_command(
        overwrite,
        seq![
            PartView::Text("-reference_stream"@),
            PartView::Text("v:0"@),
            PartView::Text("-segment_times"@),
            PartView::Text(word),
            PartView::Text("-segment_time_delta"@),
            PartView::Text("0.000001"@),
        ],
        pattern,
    )
    &&& cuts.len() == places.len()
    &&& forall|i: int|
        0 <= i < places.len() && layout.keyframes[places[i] as int].elapsed_micros <= i64::MAX
            ==> ffmpeg::probe_time(#[trigger] cuts[i], 0) == Ok::<int, Seq<char>>(
            layout.keyframes[places[i] as int].elapsed_micros as int,
        )
    &&& leads_to_outputs(pattern, job)
}

proof fn lemma_tells_all_cuts(job: JobView, layout: ffmpeg::LayoutView, places: Seq<nat>)
    requires
        job.setup.mode is Size,
        places.len() > 0,
        job.cuts == video::cut_times(layout.keyframes, places),
        !job.setup.separator.contains('%'),
    ensures
        tells_all_cuts(command_of(job), job.setup.overwrite, job, layout, places),
{
    let word = text::join(job.cuts, ","@);
    assert(job.cuts.len() == places.len());
    lemma_segments_command(job);
    lemma_leads_to_outputs(job);
    assert(cut_options(job) == seq![
        PartView::Text("-reference_stream"@),
        PartView::Text("v:0"@),
        PartView::Text("-segment_times"@),
        PartView::Text(word),
        PartView::Text("-segment_time_delta"@),
        PartView::Text("0.000001"@),
    ]);
    reveal_strlit(",");
    assert(","@ == seq![',']);
    assert forall|i: int| 0 <= i < job.cuts.len() implies !(#[trigger] job.cuts[i]).contains(
        ',',
    ) by {
        video::lemma_micros_without_comma(
            layout.keyframes[places[i] as int].elapsed_micros as nat,
        );
    }
    text::law_split_joined(job.cuts, ',');
    assert forall|i: int|
        0 <= i < places.len() && layout.keyframes[places[i] as int].elapsed_micros
            <= i64::MAX implies ffmpeg::probe_time(#[trigger] text::split(word, ',')[i], 0) == Ok::<
        int,
        Seq<char>,
    >(layout.keyframes[places[i] as int].elapsed_micros as int) by {
        video::law_micros_text(layout.keyframes[places[i] as int].elapsed_micros as nat, 0);
    }
    let command = command_of(job);
    assert(command[13] == PartView::Text(word));
    assert(command[20] == PartView::Text(pattern_for(job)));
}

// ---------------------------------------------------------------------------
// Laws of whole jobs
// ---------------------------------------------------------------------------

/// A job after some more answers.
pub open spec fn after_more(job: JobView, answers: Seq<AnswerView>) -> JobView
    decreases answers.len(),
{
    if answers.len() == 0 {
        job
    } else {
        step(after_more(job, answers.drop_last()), answers.last())
    }
}

/// More answers are more answers.
pub proof fn law_after_more(setup: SetupView, first: Seq<AnswerView>, more: Seq<AnswerView>)
    ensures
        after_all(setup, first + more) == after_more(after_all(setup, first), more),
    decreases more.len(),
{
    let all = first + more;
    if more.len() == 0 {
        assert(all == first);
    } else {
        assert(all.drop_last() == first + more.drop_last());
        assert(all.last() == more.last());
        law_after_more(setup, first, more.drop_last());
    }
}

/// The same answer, again and again.
pub open spec fn repeated(answer: AnswerView, count: nat) -> Seq<AnswerView> {
    Seq::new(count, |i: int| answer)
}

/// What is answered where the input is a file and its directories are found.
pub open spec fn directories_found(
    directory: Seq<char>,
    shown: Seq<char>,
    same: bool,
) -> Seq<AnswerView> {
    seq![
        AnswerView::InputFile(true),
        AnswerView::Directory { path: Some(directory), shown },
        AnswerView::Done,
        AnswerView::SameDirectory(same),
    ]
}

/// Whether a job is about an input whose names can be used, and that no output can take the place
/// of.
pub open spec fn can_start(setup: SetupView, same: bool) -> bool {
    &&& setup.extension is Text
    &&& setup.stem is Text
    &&& setup.file_name is Text
    &&& same ==> !is_output(setup.file_name->Text_0, asked_prefix(setup), setup.extension->Text_0)
}

/// What the names of the outputs begin with: the prefix that was asked for, or the name of the
/// input without its extension.
pub open spec fn asked_prefix(setup: SetupView) -> Seq<char> {
    match setup.prefix {
        Some(prefix) => prefix,
        None => setup.stem->Text_0,
    }
}

/// A job looks at the input, sees to the output directory, and compares the two directories. Then
/// it knows where the outputs go and how they are named; it prepares the directory, or measures
/// the input where the video is to be cut by size; unless the points in time are not in order.
pub proof fn law_starts(setup: SetupView, directory: Seq<char>, shown: Seq<char>, same: bool)
    requires
        can_start(setup, same),
    ensures
        ({
            let answers = directories_found(directory, shown, same);
            let job = after_all(setup, answers);
            &&& action_of(after_all(setup, answers.take(0))) is CheckInput
            &&& action_of(after_all(setup, answers.take(1))) is CreateOutputDir
            &&& action_of(after_all(setup, answers.take(2))) is ResolveInputDir
            &&& action_of(after_all(setup, answers.take(3))) is ResolveOutputDir
            &&& job.setup == setup
            &&& job.prefix == asked_prefix(setup)
            &&& job.extension == setup.extension->Text_0
            &&& job.directory == Some(directory)
            &&& job.directory_shown == shown
            &&& job.same_directory == same
            &&& match setup.mode {
                cli::ModeView::At(times) => if video::is_increasing(times) {
                    action_of(job) is EnsureOutputDir && job.phase is PrepareDir && job.files
                        == video::names_of(
                        asked_prefix(setup),
                        video::one_to(times.len() + 1),
                        setup.extension->Text_0,
                    )
                } else {
                    action_of(job) == ActionView::Finish(Err(video::order_failure(times)->0))
                },
                cli::ModeView::Every(_) => action_of(job) is EnsureOutputDir && job.phase
                    is PrepareDir,
                cli::ModeView::Size(_) => action_of(job) is MeasureInput && job.phase is Measure,
            }
        }),
{
    let answers = directories_found(directory, shown, same);
    assert(answers.take(0) == Seq::<AnswerView>::empty());
    assert(answers.take(1).drop_last() == answers.take(0));
    assert(answers.take(2).drop_last() == answers.take(1));
    assert(answers.take(3).drop_last() == answers.take(2));
    assert(answers.take(4).drop_last() == answers.take(3));
    assert(answers.take(4) == answers);
    let first = after_all(setup, answers.take(1));
    assert(first == step(after_all(setup, answers.take(0)), answers[0]));
    let second = after_all(setup, answers.take(2));
    assert(second == step(first, answers[1]));
    let third = after_all(setup, answers.take(3));
    assert(third == step(second, answers[2]));
    assert(after_all(setup, answers) == step(third, answers[3]));
    let name = setup.file_name->Text_0;
    video::law_name_refusals(
        setup.file_name,
        Seq::empty(),
        setup.input_shown,
        same,
        asked_prefix(setup),
        setup.extension->Text_0,
    );
    match setup.mode {
        cli::ModeView::At(times) => {
            video::lemma_order_failure(times);
        },
        _ => {},
    }
}

proof fn lemma_checks(job: JobView, first: nat, count: nat)
    requires
        job.phase == PhaseView::Check(first),
        first + count <= job.files.len(),
        first < job.files.len(),
    ensures
        after_more(job, repeated(AnswerView::Exists(false), count)) == checking(job, first + count),
    decreases count,
{
    let answers = repeated(AnswerView::Exists(false), count);
    if count > 0 {
        lemma_checks(job, first, (count - 1) as nat);
        assert(answers.drop_last() == repeated(AnswerView::Exists(false), (count - 1) as nat));
    }
}

/// The answers where each output was there and was removed.
pub open spec fn found_and_removed(count: nat) -> Seq<AnswerView> {
    Seq::new(
        2 * count,
        |i: int|
            if i % 2 == 0 {
                AnswerView::Exists(true)
            } else {
                AnswerView::Done
            },
    )
}

proof fn lemma_removals(job: JobView, first: nat, count: nat)
    requires
        job.phase == PhaseView::Check(first),
        first + count <= job.files.len(),
        first < job.files.len(),
        job.setup.overwrite,
        job.setup.mode is At,
    ensures
        after_more(job, found_and_removed(count)) == checking(job, first + count),
    decreases count,
{
    let answers = found_and_removed(count);
    if count > 0 {
        let fewer = found_and_removed((count - 1) as nat);
        lemma_removals(job, first, (count - 1) as nat);
        assert(answers.drop_last().drop_last() == fewer);
        assert(answers.drop_last().last() == AnswerView::Exists(true));
        assert(answers.last() == AnswerView::Done);
        let at = first + count - 1;
        assert(after_more(job, answers.drop_last()) == step(
            after_more(job, fewer),
            AnswerView::Exists(true),
        ));
    } else {
        assert(answers == Seq::<AnswerView>::empty());
    }
}

/// Where points in time are in order, each expected output is looked for by its name, one by one;
/// where it is there and may be overwritten it is removed, and then the next is looked for. After
/// the last FFmpeg is run.
pub proof fn law_at_prepares(job: JobView, times: Seq<nat>, i: nat)
    requires
        job.setup.mode == cli::ModeView::At(times),
        job.phase is PrepareDir,
        job.files.len() == times.len() + 1,
        i <= job.files.len(),
    ensures
        ({
            let ready = step(job, AnswerView::Done);
            let clear = after_more(ready, repeated(AnswerView::Exists(false), i));
            let removed = after_more(ready, found_and_removed(i));
            &&& i < job.files.len() ==> action_of(clear) == ActionView::CheckOutput(
                job.files[i as int],
            )
            &&& i == job.files.len() ==> action_of(clear) is Run
            &&& job.setup.overwrite && i < job.files.len() ==> action_of(removed)
                == ActionView::CheckOutput(job.files[i as int]) && action_of(
                step(removed, AnswerView::Exists(true)),
            ) == ActionView::RemoveOutput(job.files[i as int])
            &&& job.setup.overwrite && i == job.files.len() ==> action_of(removed) is Run
            &&& clear.files == job.files && clear.cuts == job.cuts && clear.setup == job.setup
        }),
{
    let ready = step(job, AnswerView::Done);
    assert(ready.phase == PhaseView::Check(0));
    lemma_checks(ready, 0, i);
    if job.setup.overwrite {
        lemma_removals(ready, 0, i);
    }
}

/// Whether each output was made, as answers.
pub open spec fn made_or_not(made: Seq<bool>) -> Seq<AnswerView> {
    made.map_values(|yes: bool| AnswerView::Generated(yes))
}

/// How many outputs were made.
pub open spec fn count_made(made: Seq<bool>) -> nat
    decreases made.len(),
{
    if made.len() == 0 {
        0
    } else if made.last() {
        count_made(made.drop_last()) + 1
    } else {
        count_made(made.drop_last())
    }
}

proof fn lemma_count_made(made: Seq<bool>)
    ensures
        count_made(made) <= made.len(),
        count_made(made) == made.len() <==> forall|i: int| 0 <= i < made.len() ==> #[trigger] made[i],
    decreases made.len(),
{
    if made.len() > 0 {
        let front = made.drop_last();
        lemma_count_made(front);
        if count_made(made) == made.len() {
            assert forall|i: int| 0 <= i < made.len() implies #[trigger] made[i] by {
                if i < front.len() {
                    assert(front[i]);
                }
            }
        }
        if forall|i: int| 0 <= i < made.len() ==> #[trigger] made[i] {
            assert forall|i: int| 0 <= i < front.len() implies #[trigger] front[i] by {
                assert(made[i]);
            }
            assert(made[made.len() - 1]);
        }
    }
}

proof fn lemma_made(job: JobView, made: Seq<bool>)
    requires
        job.phase == PhaseView::Generated(0),
        job.found == 0,
        made.len() < job.files.len(),
    ensures
        after_more(job, made_or_not(made)) == (JobView {
            phase: PhaseView::Generated(made.len()),
            found: count_made(made),
            ..job
        }),
    decreases made.len(),
{
    let answers = made_or_not(made);
    if made.len() > 0 {
        lemma_made(job, made.drop_last());
        assert(answers.drop_last() == made_or_not(made.drop_last()));
        assert(answers.last() == AnswerView::Generated(made.last()));
    }
}

/// After FFmpeg did its work at points in time, every expected output is looked for. Where all of
/// them are there the job succeeds with them; else it tells how many were expected, how many are
/// there, and where.
pub proof fn law_at_ends(job: JobView, made: Seq<bool>)
    requires
        job.setup.mode is At,
        job.phase is Run,
        made.len() == job.files.len(),
        made.len() > 0,
    ensures
        ({
            let end = action_of(after_more(step(job, AnswerView::Done), made_or_not(made)));
            &&& (forall|i: int| 0 <= i < made.len() ==> #[trigger] made[i]) ==> end
                == ActionView::Finish(Ok(job.files))
            &&& !(forall|i: int| 0 <= i < made.len() ==> #[trigger] made[i]) ==> end
                == ActionView::Finish(
                Err(
                    "预期生成 "@ + text::decimal(made.len()) + " 段，实际生成 "@ + text::decimal(
                        count_made(made),
                    ) + " 段；请检查拆分点是否超过视频时长。已生成文件保留在 `"@
                        + job.directory_shown + "`"@,
                ),
            )
        }),
{
    let begun = step(job, AnswerView::Done);
    let answers = made_or_not(made);
    lemma_made(begun, made.drop_last());
    assert(answers.drop_last() == made_or_not(made.drop_last()));
    assert(answers.last() == AnswerView::Generated(made.last()));
    lemma_count_made(made);
    lemma_count_made(made.drop_last());
}

#[verifier::spinoff_prover]
#[verifier::rlimit(40)]
proof fn lemma_at_runs(
    setup: SetupView,
    directory: Seq<char>,
    shown: Seq<char>,
    same: bool,
    times: Seq<nat>,
)
    requires
        can_start(setup, same),
        setup.mode == cli::ModeView::At(times),
        video::is_increasing(times),
    ensures
        ({
            let run = after_all(
                setup,
                directories_found(directory, shown, same).push(AnswerView::Done) + repeated(
                    AnswerView::Exists(false),
                    times.len() + 1,
                ),
            );
            &&& run.phase is Run
            &&& run.setup == setup
            &&& run.files == video::names_of(
                asked_prefix(setup),
                video::one_to(times.len() + 1),
                setup.extension->Text_0,
            )
            &&& run.files.len() == times.len() + 1
        }),
{
    let count = times.len() + 1;
    let found = directories_found(directory, shown, same);
    let ready = found.push(AnswerView::Done);
    law_starts(setup, directory, shown, same);
    law_after_more(setup, ready, repeated(AnswerView::Exists(false), count));
    assert(ready.drop_last() == found);
    lemma_checks(after_all(setup, ready), 0, count);
}

/// A split at points in time that are in order, in which nothing is in the way and FFmpeg makes
/// all outputs, from its start to its end.
#[verifier::spinoff_prover]
#[verifier::rlimit(40)]
pub proof fn law_at_succeeds(
    setup: SetupView,
    directory: Seq<char>,
    shown: Seq<char>,
    same: bool,
    times: Seq<nat>,
)
    requires
        can_start(setup, same),
        setup.mode == cli::ModeView::At(times),
        video::is_increasing(times),
    ensures
        action_of(
            after_all(
                setup,
                (directories_found(directory, shown, same).push(AnswerView::Done) + repeated(
                    AnswerView::Exists(false),
                    times.len() + 1,
                )).push(AnswerView::Done) + repeated(
                    AnswerView::Generated(true),
                    times.len() + 1,
                ),
            ),
        ) == ActionView::Finish(
            Ok(
                video::names_of(
                    asked_prefix(setup),
                    video::one_to(times.len() + 1),
                    setup.extension->Text_0,
                ),
            ),
        ),
{
    let count = times.len() + 1;
    let made = Seq::new(count, |i: int| true);
    let before = directories_found(directory, shown, same).push(AnswerView::Done) + repeated(
        AnswerView::Exists(false),
        count,
    );
    lemma_at_runs(setup, directory, shown, same, times);
    law_at_ends(after_all(setup, before), made);
    assert(before.push(AnswerView::Done).drop_last() == before);
    law_after_more(setup, before.push(AnswerView::Done), made_or_not(made));
    assert(made_or_not(made) == repeated(AnswerView::Generated(true), count));
    assert forall|i: int| 0 <= i < made.len() implies #[trigger] made[i] by {}
}

proof fn lemma_cleared(job: JobView, first: nat, count: nat)
    requires
        job.phase == PhaseView::Remove(first),
        first + count <= job.files.len(),
        first < job.files.len(),
        !(job.setup.mode is At),
    ensures
        after_more(job, repeated(AnswerView::Done, count)) == removing(job, first + count),
    decreases count,
{
    let answers = repeated(AnswerView::Done, count);
    if count > 0 {
        lemma_cleared(job, first, (count - 1) as nat);
        assert(answers.drop_last() == repeated(AnswerView::Done, (count - 1) as nat));
    }
}

/// Where the video is cut by duration or size, the outputs that are in the directory are removed
/// one by one, in the order of their numbers, where that was asked for; then FFmpeg is run. Where
/// it was not asked for, the first of them ends the job.
pub proof fn law_others_prepare(job: JobView, names: Seq<Option<Seq<char>>>, i: nat)
    requires
        !(job.setup.mode is At),
        job.phase is PrepareDir,
    ensures
        ({
            let listing = step(job, AnswerView::Done);
            let numbers = video::numbers_in(names, job.prefix, job.extension);
            let listed = step(listing, AnswerView::Listed(names));
            let removed = after_more(listed, repeated(AnswerView::Done, i));
            &&& action_of(listing) is ListOutputs
            &&& numbers.len() == 0 ==> action_of(listed) is Run
            &&& job.setup.overwrite && i < numbers.len() ==> action_of(removed)
                == ActionView::RemoveOutput(
                video::output_name(job.prefix, numbers[i as int], job.extension),
            )
            &&& job.setup.overwrite && i == numbers.len() ==> action_of(removed) is Run
                && removed.cuts == job.cuts && removed.setup == job.setup && removed.prefix
                == job.prefix && removed.extension == job.extension && removed.directory
                == job.directory && removed.directory_shown == job.directory_shown
            &&& !job.setup.overwrite && numbers.len() > 0 ==> action_of(listed)
                == ActionView::ShowOutput(
                video::output_name(job.prefix, numbers[0], job.extension),
            )
        }),
{
    let listing = step(job, AnswerView::Done);
    let numbers = video::numbers_in(names, job.prefix, job.extension);
    let listed = step(listing, AnswerView::Listed(names));
    let files = video::names_of(job.prefix, numbers, job.extension);
    assert(files.len() == numbers.len());
    if job.setup.overwrite && i <= numbers.len() && numbers.len() > 0 {
        assert(listed.phase == PhaseView::Remove(0));
        lemma_cleared(listed, 0, i);
    }
    if i == 0 {
        assert(repeated(AnswerView::Done, i) == Seq::<AnswerView>::empty());
    }
}

/// After FFmpeg did its work by duration or size, the directory is listed, or the only output is
/// looked for where the video was copied as a whole. The job succeeds with what is there: as many
/// outputs as there are cuts, and one more, where it is cut by size. Else it tells what is missing.
pub proof fn law_others_end(job: JobView, names: Seq<Option<Seq<char>>>)
    requires
        !(job.setup.mode is At),
        job.phase is Run,
    ensures
        ({
            let ran = step(job, AnswerView::Done);
            let whole = job.setup.mode is Size && job.cuts.len() == 0;
            let only = video::output_name(job.prefix, 1, job.extension);
            let found = video::discovered(
                names,
                job.directory_shown,
                job.prefix,
                job.extension,
            );
            let end = action_of(step(ran, AnswerView::Listed(names)));
            &&& whole ==> action_of(ran) == ActionView::CheckGenerated(only) && action_of(
                step(ran, AnswerView::Generated(true)),
            ) == ActionView::Finish(Ok(seq![only])) && action_of(
                step(ran, AnswerView::Generated(false)),
            ) == ActionView::ShowOutput(only)
            &&& !whole ==> action_of(ran) is ListOutputs
            &&& !whole && found is Err ==> end == ActionView::Finish(found)
            &&& !whole && found is Ok && (job.setup.mode is Every || found->Ok_0.len()
                == job.cuts.len() + 1) ==> end == ActionView::Finish(found)
            &&& !whole && found is Ok && job.setup.mode is Size && found->Ok_0.len()
                != job.cuts.len() + 1 ==> end == ActionView::Finish(
                Err(
                    "按大小计算出 "@ + text::decimal(job.cuts.len() + 1)
                        + " 段，但 FFmpeg 实际生成 "@ + text::decimal(found->Ok_0.len())
                        + " 段；已生成文件保留在 `"@ + job.directory_shown + "`"@,
                ),
            )
        }),
{
}

/// Where the video is cut by size, the input is measured, then probed, then prepared for.
pub proof fn law_size_plans(job: JobView, bytes: nat, layout: ffmpeg::LayoutView, target: nat)
    requires
        job.setup.mode == cli::ModeView::Size(target),
        job.phase is Measure,
    ensures
        ({
            let measured = step(job, AnswerView::Size(bytes));
            let probed = step(measured, AnswerView::Layout(layout));
            &&& bytes == 0 ==> action_of(measured) == ActionView::Finish(
                Err("输入视频为空文件"@),
            )
            &&& bytes > 0 ==> action_of(measured) is ProbeInput
            &&& bytes > 0 ==> match video::size_cuts(layout, target, bytes) {
                Ok(places) => action_of(probed) is EnsureOutputDir && probed.phase is PrepareDir
                    && probed.cuts == video::cut_times(layout.keyframes, places) && probed.setup
                    == job.setup && probed.prefix == job.prefix && probed.extension
                    == job.extension && probed.directory == job.directory,
                Err(message) => action_of(probed) == ActionView::Finish(Err(message)),
            }
        }),
{
}

/// What is told where something cannot be done, at each point of a job.
pub proof fn law_split_refusals(job: JobView, shown: Seq<char>, cause: Seq<char>)
    ensures
        ({
            let failed = |answer: AnswerView| action_of(step(job, answer));
            let told = |message: Seq<char>| ActionView::Finish(Err(message));
            &&& job.phase is Input ==> failed(AnswerView::InputFile(false)) == told(
                "输入文件 `"@ + job.setup.input_shown + "` 不存在或不是普通文件"@,
            )
            &&& job.phase is Input && job.setup.extension is Missing ==> failed(
                AnswerView::InputFile(true),
            ) == told("输入视频缺少文件扩展名"@)
            &&& job.phase is Input && job.setup.extension is Text && job.setup.stem is Missing
                ==> failed(AnswerView::InputFile(true)) == told("无法确定输入视频文件名"@)
            &&& job.phase is Input && (job.setup.extension is NotUnicode || (job.setup.extension
                is Text && job.setup.stem is NotUnicode)) ==> failed(AnswerView::InputFile(true))
                == told("文件名和扩展名必须是有效 UTF-8 文本"@)
            &&& job.phase is OutputDir ==> failed(
                (AnswerView::DirectoryFailed { shown, cause }),
            ) == told("无法创建输出目录 `"@ + shown + "`："@ + cause)
            &&& job.phase is InputDir ==> failed(AnswerView::Failed(cause)) == told(
                "无法解析输入目录 `"@ + job.setup.input_shown + "`："@ + cause,
            )
            &&& job.phase is OutputDirPath ==> failed(AnswerView::Failed(cause)) == told(
                "无法解析输出目录 `"@ + job.directory_shown + "`："@ + cause,
            )
            &&& job.phase is Measure ==> failed(AnswerView::Failed(cause)) == told(
                "无法读取 `"@ + job.setup.input_shown + "` 的大小："@ + cause,
            )
            &&& job.phase is Probe || job.phase is Run ==> failed(AnswerView::Refused(cause))
                == told(cause)
            &&& job.phase is PrepareDir ==> failed(AnswerView::Failed(cause)) == told(
                "无法创建输出目录 `"@ + job.directory_shown + "`："@ + cause,
            )
            &&& job.phase is List || job.phase is Discover ==> failed(AnswerView::Failed(cause))
                == told("无法读取输出目录 `"@ + job.directory_shown + "`："@ + cause)
            &&& job.phase is List || job.phase is Discover ==> failed(
                AnswerView::EntryFailed(cause),
            ) == told("无法读取输出目录 `"@ + job.directory_shown + "` 中的项目："@ + cause)
        }),
{
}

/// What is told of an output that is in the way, cannot be removed, or was not made: the job asks
/// how its path is shown, and tells it so.
pub proof fn law_output_refusals(job: JobView, shown: Seq<char>, cause: Seq<char>)
    ensures
        job.phase matches PhaseView::Check(i) ==> !job.setup.overwrite ==> {
            let asked = step(job, AnswerView::Exists(true));
            &&& action_of(asked) == ActionView::ShowOutput(job.files[i as int])
            &&& action_of(step(asked, AnswerView::Shown(shown))) == ActionView::Finish(
                Err("输出文件 `"@ + shown + "` 已存在；使用 --overwrite 覆盖"@),
            )
        },
        job.phase matches PhaseView::Remove(i) ==> {
            let asked = step(job, AnswerView::Failed(cause));
            &&& action_of(asked) == ActionView::ShowOutput(job.files[i as int])
            &&& action_of(step(asked, AnswerView::Shown(shown))) == ActionView::Finish(
                Err("无法覆盖输出文件 `"@ + shown + "`："@ + cause),
            )
        },
        job.phase is Single ==> action_of(
            step(step(job, AnswerView::Generated(false)), AnswerView::Shown(shown)),
        ) == ActionView::Finish(Err("FFmpeg 未生成输出文件 `"@ + shown + "`"@)),
{
}

/// What is told where outputs are in the directory and may not be overwritten: the first of them.
pub proof fn law_segments_refused(job: JobView, names: Seq<Option<Seq<char>>>, shown: Seq<char>)
    requires
        job.phase is List,
        !job.setup.overwrite,
        video::numbers_in(names, job.prefix, job.extension).len() > 0,
    ensures
        ({
            let asked = step(job, AnswerView::Listed(names));
            &&& action_of(asked) == ActionView::ShowOutput(
                video::output_name(
                    job.prefix,
                    video::numbers_in(names, job.prefix, job.extension)[0],
                    job.extension,
                ),
            )
            &&& action_of(step(asked, AnswerView::Shown(shown))) == ActionView::Finish(
                Err(
                    "输出文件 `"@ + shown
                        + "` 已存在；使用 --overwrite 覆盖该前缀的已有分段"@,
                ),
            )
        }),
{
}

/// Where the input would be among the outputs, or the directory is not Unicode, that is told.
pub proof fn law_directory_refusals(job: JobView, same: bool)
    requires
        job.phase is OutputDirPath,
    ensures
        ({
            let end = action_of(step(job, AnswerView::SameDirectory(same)));
            &&& !(job.setup.file_name is Text) ==> end == ActionView::Finish(
                Err("输入文件名必须是有效 UTF-8 文本"@),
            )
            &&& job.setup.file_name is Text && same && is_output(
                job.setup.file_name->Text_0,
                job.prefix,
                job.extension,
            ) ==> end == ActionView::Finish(
                Err(
                    "输入文件 `"@ + job.setup.input_shown
                        + "` 与拆分输出命名范围冲突；请更换 --output-dir 或 --prefix"@,
                ),
            )
            &&& job.setup.file_name is Text && !(same && is_output(
                job.setup.file_name->Text_0,
                job.prefix,
                job.extension,
            )) && job.directory is None ==> end == ActionView::Finish(
                Err("FFmpeg segment 输出目录必须是有效 UTF-8 路径"@),
            )
        }),
{
    video::law_name_refusals(
        job.setup.file_name,
        Seq::empty(),
        job.setup.input_shown,
        same,
        job.prefix,
        job.extension,
    );
}

/// What the contracts see of what a job wants done is all of it.
pub proof fn law_split_action_views(
    word: String,
    name: Option<String>,
    command: Vec<CommandPart>,
    files: Vec<String>,
    error: AppError,
)
    ensures
        CommandPart::Text(word)@ == PartView::Text(word@),
        CommandPart::Input@ == PartView::Input,
        CommandPart::Output(word)@ == PartView::Output(word@),
        SplitAction::CheckInput@ == ActionView::CheckInput,
        name is None ==> SplitAction::CreateOutputDir(name)@ == ActionView::CreateOutputDir(None),
        name is Some ==> SplitAction::CreateOutputDir(name)@ == ActionView::CreateOutputDir(
            Some(name->0@),
        ),
        SplitAction::ResolveInputDir@ == ActionView::ResolveInputDir,
        SplitAction::ResolveOutputDir@ == ActionView::ResolveOutputDir,
        SplitAction::MeasureInput@ == ActionView::MeasureInput,
        SplitAction::ProbeInput@ == ActionView::ProbeInput,
        SplitAction::EnsureOutputDir@ == ActionView::EnsureOutputDir,
        SplitAction::CheckOutput(word)@ == ActionView::CheckOutput(word@),
        SplitAction::ListOutputs@ == ActionView::ListOutputs,
        SplitAction::RemoveOutput(word)@ == ActionView::RemoveOutput(word@),
        SplitAction::Run(command)@ == ActionView::Run(
            Seq::new(command@.len(), |k: int| command@[k]@),
        ),
        SplitAction::CheckGenerated(word)@ == ActionView::CheckGenerated(word@),
        SplitAction::ShowOutput(word)@ == ActionView::ShowOutput(word@),
        SplitAction::Finish(Ok(files))@ == ActionView::Finish(Ok(text::texts(files@))),
        SplitAction::Finish(Err(error))@ == ActionView::Finish(Err(error@)),
{
    assert(parts(command@) == Seq::new(command@.len(), |k: int| command@[k]@));
}

/// What the contracts see of what a job is answered is all of it.
pub proof fn law_split_answer_views(
    yes: bool,
    path: Option<String>,
    word: String,
    bytes: u64,
    layout: PacketLayout,
    error: AppError,
    names: Vec<Option<String>>,
)
    ensures
        SplitAnswer::InputFile(yes)@ == AnswerView::InputFile(yes),
        (SplitAnswer::Directory { path, shown: word })@ == (AnswerView::Directory {
            path: cli::text_of(path),
            shown: word@,
        }),
        path is Some ==> cli::text_of(path) == Some(path->0@),
        path is None ==> cli::text_of(path) is None,
        (SplitAnswer::DirectoryFailed { shown: word, cause: word })@ == (
        AnswerView::DirectoryFailed { shown: word@, cause: word@ }),
        SplitAnswer::Done@ == AnswerView::Done,
        SplitAnswer::Failed(word)@ == AnswerView::Failed(word@),
        SplitAnswer::SameDirectory(yes)@ == AnswerView::SameDirectory(yes),
        SplitAnswer::Size(bytes)@ == AnswerView::Size(bytes as nat),
        SplitAnswer::Layout(layout)@ == AnswerView::Layout(layout@),
        SplitAnswer::Refused(error)@ == AnswerView::Refused(error@),
        SplitAnswer::Exists(yes)@ == AnswerView::Exists(yes),
        SplitAnswer::Listed(names)@ == AnswerView::Listed(video::name_texts(names@)),
        SplitAnswer::EntryFailed(word)@ == AnswerView::EntryFailed(word@),
        SplitAnswer::Generated(yes)@ == AnswerView::Generated(yes),
        SplitAnswer::Shown(word)@ == AnswerView::Shown(word@),
{
}

/// What the contracts see of what a job is about is all of it.
pub proof fn law_setup_view(setup: SplitSetup)
    ensures
        setup@.input_shown == setup.input_shown@,
        setup@.extension == setup.extension@,
        setup@.stem == setup.stem@,
        setup@.file_name == setup.file_name@,
        setup@.mode == setup.mode@,
        setup@.prefix == cli::text_of(setup.prefix),
        setup@.overwrite == setup.overwrite,
        setup@.output_dir_given == setup.output_dir_given,
        setup@.separator == setup.separator@,
{
}

/// From one output to the next: one that is not there is passed over, one that is there and may be
/// overwritten is removed, and after the last FFmpeg is run.
pub proof fn law_next_output(job: JobView, i: nat)
    requires
        i < job.files.len(),
    ensures
        ({
            let next = if i + 1 < job.files.len() {
                ActionView::CheckOutput(job.files[i as int + 1])
            } else {
                ActionView::Run(command_of(job))
            };
            let removal = if i + 1 < job.files.len() {
                ActionView::RemoveOutput(job.files[i as int + 1])
            } else {
                ActionView::Run(command_of(job))
            };
            &&& job.phase == PhaseView::Check(i) ==> action_of(
                step(job, AnswerView::Exists(false)),
            ) == next
            &&& job.phase == PhaseView::Check(i) && job.setup.overwrite ==> action_of(
                step(job, AnswerView::Exists(true)),
            ) == ActionView::RemoveOutput(job.files[i as int])
            &&& job.phase == PhaseView::Remove(i) && job.setup.mode is At ==> action_of(
                step(job, AnswerView::Done),
            ) == next
            &&& job.phase == PhaseView::Remove(i) && !(job.setup.mode is At) ==> action_of(
                step(job, AnswerView::Done),
            ) == removal
        }),
{
}

/// Whether an answer fits what a job waits for.
pub open spec fn fits(phase: PhaseView, answer: AnswerView) -> bool {
    match answer {
        AnswerView::InputFile(_) => phase is Input,
        AnswerView::Directory { .. } => phase is OutputDir,
        AnswerView::DirectoryFailed { .. } => phase is OutputDir,
        AnswerView::Done => phase is InputDir || phase is PrepareDir || phase is Remove || phase
            is Run,
        AnswerView::Failed(_) => phase is InputDir || phase is OutputDirPath || phase is Measure
            || phase is PrepareDir || phase is List || phase is Remove || phase is Discover,
        AnswerView::SameDirectory(_) => phase is OutputDirPath,
        AnswerView::Size(_) => phase is Measure,
        AnswerView::Layout(_) => phase is Probe,
        AnswerView::Refused(_) => phase is Probe || phase is Run,
        AnswerView::Exists(_) => phase is Check,
        AnswerView::Listed(_) => phase is List || phase is Discover,
        AnswerView::EntryFailed(_) => phase is List || phase is Discover,
        AnswerView::Generated(_) => phase is Generated || phase is Single,
        AnswerView::Shown(_) => phase is Explain,
    }
}

/// An answer that does not fit changes nothing, and one that fits lets the job go on.
pub proof fn law_unfit_answers(job: JobView, answer: AnswerView)
    requires
        is_sound_job(job),
    ensures
        !fits(job.phase, answer) ==> step(job, answer) == job,
        fits(job.phase, answer) ==> step(job, answer).phase != job.phase,
{
}

/// What is settled stays: what the job is about always, and the names of the outputs and where they
/// go once they are known.
#[verifier::spinoff_prover]
#[verifier::rlimit(40)]
pub proof fn law_settled_stays(job: JobView, answer: AnswerView)
    ensures
        step(job, answer).setup == job.setup,
        !(job.phase is Input) ==> step(job, answer).prefix == job.prefix,
        !(job.phase is Input) ==> step(job, answer).extension == job.extension,
        !(job.phase is OutputDir) ==> step(job, answer).directory == job.directory,
        !(job.phase is OutputDir) ==> step(job, answer).directory_shown == job.directory_shown,
{
}

/// What is planned stays: how the directories are related, the size, the cuts and the outputs
/// change only with the answers that tell of them.
#[verifier::spinoff_prover]
#[verifier::rlimit(40)]
pub proof fn law_planned_stays(job: JobView, answer: AnswerView)
    ensures
        !(job.phase is OutputDirPath) ==> step(job, answer).same_directory == job.same_directory,
        !(job.phase is OutputDirPath) && !(job.phase is Probe) ==> step(job, answer).cuts
            == job.cuts,
        !(job.phase is Measure) ==> step(job, answer).input_size == job.input_size,
        !(job.phase is OutputDirPath) && !(job.phase is List) && !(job.phase is Single) && !(
        job.phase is Discover) ==> step(job, answer).files == job.files,
{
}

/// The output directory is the one that was answered.
pub proof fn law_directory_is_answered(setup: SetupView, answers: Seq<AnswerView>)
    ensures
        ({
            let job = after_all(setup, answers);
            !(job.phase is Input) && !(job.phase is OutputDir) && !(job.phase is Failed)
                ==> was_answered(
                setup,
                answers,
                PhaseView::OutputDir,
                (AnswerView::Directory { path: job.directory, shown: job.directory_shown }),
            )
        }),
    decreases answers.len(),
{
    let job = after_all(setup, answers);
    if answers.len() > 0 {
        let front = answers.drop_last();
        law_directory_is_answered(setup, front);
        law_sound_after_all(setup, front);
        law_settled_stays(after_all(setup, front), answers.last());
        lemma_was_answered(
            setup,
            answers,
            PhaseView::OutputDir,
            (AnswerView::Directory { path: job.directory, shown: job.directory_shown }),
        );
    }
}

} // verus!
