//! Joining videos: what to do next, and what the answers mean.
//!
//! A `ConcatJob` says what it wants done in `action`; whoever runs it does that and tells the job
//! how it went with `answer`, until the action is to finish.

use vstd::prelude::*;
use vstd::string::StringExecFns;

use crate::cli;
use crate::error::{AppError, Result};
use crate::ffmpeg;
use crate::ffmpeg::single_quote;
use crate::text;
use crate::text::{contains_char, decimal_text};
use crate::video;
use crate::video::{overwrite_flag, require_input_file};

verus! {

/// How many names are tried for the list of inputs.
pub const LIST_ATTEMPTS: u8 = 100;

// ---------------------------------------------------------------------------
// Actions and answers
// ---------------------------------------------------------------------------

/// One argument of FFmpeg.
#[derive(Debug)]
pub enum ConcatPart {
    Text(String),
    /// The path of the list of inputs.
    List,
    /// The path of the output.
    Output,
}

/// What a job wants done. Inputs are named by their place, counted from zero.
#[derive(Debug)]
pub enum ConcatAction {
    /// Look whether there is something at the path of the output. The answer is `Exists`.
    CheckOutput,
    /// Look whether an input is a file. The answer is `InputFile`.
    CheckInput(usize),
    /// Resolve the path of an input. The answer is `Resolved` or `Failed`.
    ResolveInput(usize),
    /// Resolve the path of the output, which exists. The answer is `Done` or `Failed`.
    ResolveOutput,
    /// Put the current directory before the path of the output. The answer is `Done` or `Failed`.
    JoinCurrentDir,
    /// Compare the resolved path of an input with that of the output. The answer is `SamePath`.
    CompareInput(usize),
    /// Create the directory that the output goes to. The answer is `Done` or `Failed`.
    CreateParent,
    /// Create a new file of this name among the temporary files. The answer is `ListCreated`,
    /// `ListExists` or `ListFailed`.
    CreateList(String),
    /// Write to the list of inputs. The answer is `Done` or `Failed`.
    WriteList(String),
    /// See to it that all that was written to the list of inputs is there. The answer is `Done` or
    /// `Failed`.
    FlushList,
    /// Run FFmpeg. The answer is `Done` or `Refused`.
    Run(Vec<ConcatPart>),
    /// Look whether the output is a file. The answer is `Generated`.
    CheckGenerated,
    /// Remove the list of inputs. The answer is `Done`, however it went.
    RemoveList,
    /// Nothing more: the output was made, or why it was not.
    Finish(Result<()>),
}

/// How what a job wanted done went.
#[derive(Debug)]
pub enum ConcatAnswer {
    /// Whether there is something at that path.
    Exists(bool),
    /// Whether the input is a file.
    InputFile(bool),
    /// The resolved path of the input, where it is Unicode.
    Resolved(Option<String>),
    /// It went well.
    Done,
    /// It did not go well; the cause.
    Failed(String),
    /// Whether the two paths are the same.
    SamePath(bool),
    /// The list of inputs was created, at a path shown like this.
    ListCreated(String),
    /// There is a file of that name already.
    ListExists,
    /// The list of inputs, at a path shown like this, was not created; the cause.
    ListFailed { shown: String, cause: String },
    /// FFmpeg did not do it.
    Refused(AppError),
    /// Whether the output is a file.
    Generated(bool),
}

/// What a job is about.
#[derive(Debug)]
pub struct ConcatSetup {
    /// Whether the output has an extension.
    pub has_extension: bool,
    /// How the path of the output is shown.
    pub output_shown: String,
    /// Whether the path of the output is absolute.
    pub output_absolute: bool,
    /// How the directory that the output goes to is shown, where its path names one.
    pub parent_shown: Option<String>,
    /// How the paths of the inputs are shown.
    pub inputs_shown: Vec<String>,
    pub overwrite: bool,
    /// Two numbers that set the names of this job's list of inputs apart from those of others.
    pub process: u32,
    pub nonce: u128,
}

// ---------------------------------------------------------------------------
// As the contracts see them
// ---------------------------------------------------------------------------

/// A `ConcatPart`, as the contracts see it.
pub enum ConcatPartView {
    Text(Seq<char>),
    List,
    Output,
}

impl View for ConcatPart {
    type V = ConcatPartView;

    open spec fn view(&self) -> ConcatPartView {
        match self {
            ConcatPart::Text(part) => ConcatPartView::Text(part@),
            ConcatPart::List => ConcatPartView::List,
            ConcatPart::Output => ConcatPartView::Output,
        }
    }
}

/// Arguments, as the contracts see them.
pub open spec fn concat_parts(list: Seq<ConcatPart>) -> Seq<ConcatPartView> {
    list.map_values(|part: ConcatPart| part@)
}

/// A `ConcatAction`, as the contracts see it.
pub enum ConcatActionView {
    CheckOutput,
    CheckInput(nat),
    ResolveInput(nat),
    ResolveOutput,
    JoinCurrentDir,
    CompareInput(nat),
    CreateParent,
    CreateList(Seq<char>),
    WriteList(Seq<char>),
    FlushList,
    Run(Seq<ConcatPartView>),
    CheckGenerated,
    RemoveList,
    Finish(std::result::Result<(), Seq<char>>),
}

impl View for ConcatAction {
    type V = ConcatActionView;

    open spec fn view(&self) -> ConcatActionView {
        match self {
            ConcatAction::CheckOutput => ConcatActionView::CheckOutput,
            ConcatAction::CheckInput(i) => ConcatActionView::CheckInput(*i as nat),
            ConcatAction::ResolveInput(i) => ConcatActionView::ResolveInput(*i as nat),
            ConcatAction::ResolveOutput => ConcatActionView::ResolveOutput,
            ConcatAction::JoinCurrentDir => ConcatActionView::JoinCurrentDir,
            ConcatAction::CompareInput(i) => ConcatActionView::CompareInput(*i as nat),
            ConcatAction::CreateParent => ConcatActionView::CreateParent,
            ConcatAction::CreateList(name) => ConcatActionView::CreateList(name@),
            ConcatAction::WriteList(line) => ConcatActionView::WriteList(line@),
            ConcatAction::FlushList => ConcatActionView::FlushList,
            ConcatAction::Run(command) => ConcatActionView::Run(concat_parts(command@)),
            ConcatAction::CheckGenerated => ConcatActionView::CheckGenerated,
            ConcatAction::RemoveList => ConcatActionView::RemoveList,
            ConcatAction::Finish(result) => ConcatActionView::Finish(
                match result {
                    Ok(_) => Ok(()),
                    Err(error) => Err(error@),
                },
            ),
        }
    }
}

/// A `ConcatAnswer`, as the contracts see it.
pub enum ConcatAnswerView {
    Exists(bool),
    InputFile(bool),
    Resolved(Option<Seq<char>>),
    Done,
    Failed(Seq<char>),
    SamePath(bool),
    ListCreated(Seq<char>),
    ListExists,
    ListFailed { shown: Seq<char>, cause: Seq<char> },
    Refused(Seq<char>),
    Generated(bool),
}

impl View for ConcatAnswer {
    type V = ConcatAnswerView;

    open spec fn view(&self) -> ConcatAnswerView {
        match self {
            ConcatAnswer::Exists(yes) => ConcatAnswerView::Exists(*yes),
            ConcatAnswer::InputFile(yes) => ConcatAnswerView::InputFile(*yes),
            ConcatAnswer::Resolved(path) => ConcatAnswerView::Resolved(cli::text_of(*path)),
            ConcatAnswer::Done => ConcatAnswerView::Done,
            ConcatAnswer::Failed(cause) => ConcatAnswerView::Failed(cause@),
            ConcatAnswer::SamePath(yes) => ConcatAnswerView::SamePath(*yes),
            ConcatAnswer::ListCreated(shown) => ConcatAnswerView::ListCreated(shown@),
            ConcatAnswer::ListExists => ConcatAnswerView::ListExists,
            ConcatAnswer::ListFailed { shown, cause } => ConcatAnswerView::ListFailed {
                shown: shown@,
                cause: cause@,
            },
            ConcatAnswer::Refused(error) => ConcatAnswerView::Refused(error@),
            ConcatAnswer::Generated(yes) => ConcatAnswerView::Generated(*yes),
        }
    }
}

/// A `ConcatSetup`, as the contracts see it.
pub struct ConcatSetupView {
    pub has_extension: bool,
    pub output_shown: Seq<char>,
    pub output_absolute: bool,
    pub parent_shown: Option<Seq<char>>,
    pub inputs_shown: Seq<Seq<char>>,
    pub overwrite: bool,
    pub process: nat,
    pub nonce: nat,
}

impl View for ConcatSetup {
    type V = ConcatSetupView;

    open spec fn view(&self) -> ConcatSetupView {
        ConcatSetupView {
            has_extension: self.has_extension,
            output_shown: self.output_shown@,
            output_absolute: self.output_absolute,
            parent_shown: cli::text_of(self.parent_shown),
            inputs_shown: text::texts(self.inputs_shown@),
            overwrite: self.overwrite,
            process: self.process as nat,
            nonce: self.nonce as nat,
        }
    }
}

/// What a job waits for.
pub enum ConcatPhaseView {
    /// Whether there is an output already.
    Output,
    /// Whether the input at this place is a file.
    Input(nat),
    /// The resolved path of the input at this place.
    Resolve(nat),
    /// Whether there is an output, again.
    OutputPath,
    ResolveOutput,
    CurrentDir,
    /// Whether the input at this place is the output.
    Compare(nat),
    Parent,
    /// That the list of inputs is created, under this name.
    CreateList(nat),
    /// That the first line of the list of inputs is written.
    WriteHeader,
    /// That the line of the input at this place is written.
    WriteLine(nat),
    Flush,
    Run,
    Generated,
    RemoveList,
    /// Nothing: it failed.
    Failed,
    /// Nothing: it is done.
    Finished,
}

/// A `ConcatJob`, as the contracts see it.
pub struct ConcatJobView {
    pub setup: ConcatSetupView,
    pub phase: ConcatPhaseView,
    /// The resolved paths of the inputs, those that are not Unicode as none.
    pub paths: Seq<Option<Seq<char>>>,
    /// How the path of the list of inputs is shown.
    pub list_shown: Seq<char>,
    /// Whether the output was made.
    pub made: bool,
    /// Why it was not made.
    pub cause: Seq<char>,
}

// ---------------------------------------------------------------------------
// What a job does
// ---------------------------------------------------------------------------

/// A job that has failed.
pub open spec fn concat_failed(job: ConcatJobView, message: Seq<char>) -> ConcatJobView {
    ConcatJobView { phase: ConcatPhaseView::Failed, cause: message, ..job }
}

/// A job in another phase.
pub open spec fn waiting(job: ConcatJobView, phase: ConcatPhaseView) -> ConcatJobView {
    ConcatJobView { phase, ..job }
}

/// A job before its first action.
pub open spec fn fresh_concat(setup: ConcatSetupView) -> ConcatJobView {
    let job = ConcatJobView {
        setup,
        phase: ConcatPhaseView::Output,
        paths: Seq::empty(),
        list_shown: Seq::empty(),
        made: false,
        cause: Seq::empty(),
    };
    if setup.has_extension {
        job
    } else {
        concat_failed(job, "输出视频必须带文件扩展名，以确定封装格式"@)
    }
}

/// The name of the list of inputs at the given attempt.
pub open spec fn list_name(process: nat, nonce: nat, attempt: nat) -> Seq<char> {
    "vidsplice-"@ + text::decimal(process) + "-"@ + text::decimal(nonce) + "-"@ + text::decimal(
        attempt,
    ) + ".ffconcat"@
}

/// The first line of the list of inputs.
pub open spec fn list_header() -> Seq<char> {
    "ffconcat version 1.0\n"@
}

/// The line of an input in the list.
pub open spec fn list_line(path: Seq<char>) -> Seq<char> {
    "file "@ + ffmpeg::single_quoted(path) + "\n"@
}

/// What keeps the path of an input out of the list, where something does.
pub open spec fn path_failure(path: Option<Seq<char>>) -> Option<Seq<char>> {
    match path {
        None => Some("拼接输入路径必须是有效 UTF-8 文本"@),
        Some(path) => if path.contains('\n') || path.contains('\r') {
            Some("拼接输入路径不能包含换行符"@)
        } else {
            None
        },
    }
}

pub open spec fn list_write_message(shown: Seq<char>, cause: Seq<char>) -> Seq<char> {
    "写入临时拼接清单 `"@ + shown + "` 失败："@ + cause
}

/// Arguments that are texts.
pub open spec fn concat_words(list: Seq<Seq<char>>) -> Seq<ConcatPartView> {
    list.map_values(|word: Seq<char>| ConcatPartView::Text(word))
}

/// The command for FFmpeg: all streams of the listed inputs, copied one after the other.
pub open spec fn concat_command(overwrite: bool) -> Seq<ConcatPartView> {
    concat_words(
        seq![
            "-hide_banner"@,
            video::overwrite_option(overwrite),
            "-f"@,
            "concat"@,
            "-safe"@,
            "0"@,
            "-i"@,
        ],
    ).push(ConcatPartView::List) + concat_words(seq!["-map"@, "0"@, "-c"@, "copy"@]).push(
        ConcatPartView::Output,
    )
}

/// What a job wants done.
pub open spec fn concat_action(job: ConcatJobView) -> ConcatActionView {
    match job.phase {
        ConcatPhaseView::Output => ConcatActionView::CheckOutput,
        ConcatPhaseView::Input(i) => ConcatActionView::CheckInput(i),
        ConcatPhaseView::Resolve(i) => ConcatActionView::ResolveInput(i),
        ConcatPhaseView::OutputPath => ConcatActionView::CheckOutput,
        ConcatPhaseView::ResolveOutput => ConcatActionView::ResolveOutput,
        ConcatPhaseView::CurrentDir => ConcatActionView::JoinCurrentDir,
        ConcatPhaseView::Compare(i) => ConcatActionView::CompareInput(i),
        ConcatPhaseView::Parent => ConcatActionView::CreateParent,
        ConcatPhaseView::CreateList(attempt) => ConcatActionView::CreateList(
            list_name(job.setup.process, job.setup.nonce, attempt),
        ),
        ConcatPhaseView::WriteHeader => ConcatActionView::WriteList(list_header()),
        ConcatPhaseView::WriteLine(i) => ConcatActionView::WriteList(
            list_line(job.paths[i as int]->0),
        ),
        ConcatPhaseView::Flush => ConcatActionView::FlushList,
        ConcatPhaseView::Run => ConcatActionView::Run(concat_command(job.setup.overwrite)),
        ConcatPhaseView::Generated => ConcatActionView::CheckGenerated,
        ConcatPhaseView::RemoveList => ConcatActionView::RemoveList,
        ConcatPhaseView::Failed => ConcatActionView::Finish(Err(job.cause)),
        ConcatPhaseView::Finished => ConcatActionView::Finish(Ok(())),
    }
}

/// A job that knows the resolved paths of the inputs before `i`.
pub open spec fn resolving(job: ConcatJobView, i: nat) -> ConcatJobView {
    if i < job.setup.inputs_shown.len() {
        waiting(job, ConcatPhaseView::Input(i))
    } else {
        waiting(job, ConcatPhaseView::OutputPath)
    }
}

/// A job that knows that none of the inputs before `i` is the output.
pub open spec fn comparing(job: ConcatJobView, i: nat) -> ConcatJobView {
    if i < job.paths.len() {
        waiting(job, ConcatPhaseView::Compare(i))
    } else if job.setup.parent_shown is Some {
        waiting(job, ConcatPhaseView::Parent)
    } else {
        waiting(job, ConcatPhaseView::CreateList(0))
    }
}

/// A job that has written the lines of the inputs before `i`.
pub open spec fn writing(job: ConcatJobView, i: nat) -> ConcatJobView {
    if i >= job.paths.len() {
        waiting(job, ConcatPhaseView::Flush)
    } else {
        match path_failure(job.paths[i as int]) {
            Some(message) => concat_failed(job, message),
            None => waiting(job, ConcatPhaseView::WriteLine(i)),
        }
    }
}

/// A job that has written its list and failed: it removes the list before it ends.
pub open spec fn concat_refused(job: ConcatJobView, message: Seq<char>) -> ConcatJobView {
    ConcatJobView { phase: ConcatPhaseView::RemoveList, cause: message, ..job }
}

/// A job after an answer. One that does not fit what the job waits for changes nothing.
pub open spec fn concat_step(job: ConcatJobView, answer: ConcatAnswerView) -> ConcatJobView {
    match (job.phase, answer) {
        (ConcatPhaseView::Output, ConcatAnswerView::Exists(yes)) => if yes && !job.setup.overwrite {
            concat_failed(
                job,
                "输出文件 `"@ + job.setup.output_shown
                    + "` 已存在；使用 --overwrite 覆盖"@,
            )
        } else {
            resolving(job, 0)
        },
        (ConcatPhaseView::Input(i), ConcatAnswerView::InputFile(yes)) => if yes {
            waiting(job, ConcatPhaseView::Resolve(i))
        } else {
            concat_failed(job, video::missing_input_message(job.setup.inputs_shown[i as int]))
        },
        (ConcatPhaseView::Resolve(i), ConcatAnswerView::Resolved(path)) => resolving(
            ConcatJobView { paths: job.paths.push(path), ..job },
            i + 1,
        ),
        (ConcatPhaseView::Resolve(i), ConcatAnswerView::Failed(cause)) => concat_failed(
            job,
            "无法解析输入文件 `"@ + job.setup.inputs_shown[i as int] + "`："@ + cause,
        ),
        (ConcatPhaseView::OutputPath, ConcatAnswerView::Exists(yes)) => if yes {
            waiting(job, ConcatPhaseView::ResolveOutput)
        } else if job.setup.output_absolute {
            comparing(job, 0)
        } else {
            waiting(job, ConcatPhaseView::CurrentDir)
        },
        (ConcatPhaseView::ResolveOutput, ConcatAnswerView::Done) => comparing(job, 0),
        (ConcatPhaseView::ResolveOutput, ConcatAnswerView::Failed(cause)) => concat_failed(
            job,
            "无法解析输出文件路径 `"@ + job.setup.output_shown + "`："@ + cause,
        ),
        (ConcatPhaseView::CurrentDir, ConcatAnswerView::Done) => comparing(job, 0),
        (ConcatPhaseView::CurrentDir, ConcatAnswerView::Failed(cause)) => concat_failed(
            job,
            "无法获取当前目录："@ + cause,
        ),
        (ConcatPhaseView::Compare(i), ConcatAnswerView::SamePath(yes)) => if yes {
            concat_failed(job, "输出文件不能同时作为输入文件"@)
        } else {
            comparing(job, i + 1)
        },
        (ConcatPhaseView::Parent, ConcatAnswerView::Done) => waiting(
            job,
            ConcatPhaseView::CreateList(0),
        ),
        (ConcatPhaseView::Parent, ConcatAnswerView::Failed(cause)) => concat_failed(
            job,
            "无法创建目录 `"@ + job.setup.parent_shown->0 + "`："@ + cause,
        ),
        (ConcatPhaseView::CreateList(_), ConcatAnswerView::ListCreated(shown)) => ConcatJobView {
            phase: ConcatPhaseView::WriteHeader,
            list_shown: shown,
            ..job
        },
        (ConcatPhaseView::CreateList(attempt), ConcatAnswerView::ListExists) => if attempt + 1
            < LIST_ATTEMPTS {
            waiting(job, ConcatPhaseView::CreateList(attempt + 1))
        } else {
            concat_failed(job, "无法分配唯一的临时拼接清单"@)
        },
        (ConcatPhaseView::CreateList(_), ConcatAnswerView::ListFailed { shown, cause }) =>
            concat_failed(
            job,
            "无法创建临时拼接清单 `"@ + shown + "`："@ + cause,
        ),
        (ConcatPhaseView::WriteHeader, ConcatAnswerView::Done) => writing(job, 0),
        (ConcatPhaseView::WriteHeader, ConcatAnswerView::Failed(cause)) => concat_failed(
            job,
            list_write_message(job.list_shown, cause),
        ),
        (ConcatPhaseView::WriteLine(i), ConcatAnswerView::Done) => writing(job, i + 1),
        (ConcatPhaseView::WriteLine(_), ConcatAnswerView::Failed(cause)) => concat_failed(
            job,
            list_write_message(job.list_shown, cause),
        ),
        (ConcatPhaseView::Flush, ConcatAnswerView::Done) => waiting(job, ConcatPhaseView::Run),
        (ConcatPhaseView::Flush, ConcatAnswerView::Failed(cause)) => concat_failed(
            job,
            list_write_message(job.list_shown, cause),
        ),
        (ConcatPhaseView::Run, ConcatAnswerView::Done) => waiting(job, ConcatPhaseView::Generated),
        (ConcatPhaseView::Run, ConcatAnswerView::Refused(message)) => concat_refused(job, message),
        (ConcatPhaseView::Generated, ConcatAnswerView::Generated(yes)) => if yes {
            ConcatJobView { phase: ConcatPhaseView::RemoveList, made: true, ..job }
        } else {
            concat_refused(
                job,
                "FFmpeg 未生成输出文件 `"@ + job.setup.output_shown + "`"@,
            )
        },
        (ConcatPhaseView::RemoveList, ConcatAnswerView::Done) => if job.made {
            waiting(job, ConcatPhaseView::Finished)
        } else {
            waiting(job, ConcatPhaseView::Failed)
        },
        _ => job,
    }
}

// ---------------------------------------------------------------------------
// The job
// ---------------------------------------------------------------------------

/// What a job waits for.
#[derive(Clone, Copy, Debug)]
enum ConcatPhase {
    /// Whether there is an output already.
    Output,
    /// Whether the input at this place is a file.
    Input(usize),
    /// The resolved path of the input at this place.
    Resolve(usize),
    /// Whether there is an output, again.
    OutputPath,
    ResolveOutput,
    CurrentDir,
    /// Whether the input at this place is the output.
    Compare(usize),
    Parent,
    /// That the list of inputs is created, under this name.
    CreateList(u8),
    /// That the first line of the list of inputs is written.
    WriteHeader,
    /// That the line of the input at this place is written.
    WriteLine(usize),
    Flush,
    Run,
    Generated,
    RemoveList,
    /// Nothing: it failed.
    Failed,
    /// Nothing: it is done.
    Finished,
}

impl View for ConcatPhase {
    type V = ConcatPhaseView;

    closed spec fn view(&self) -> ConcatPhaseView {
        match self {
            ConcatPhase::Output => ConcatPhaseView::Output,
            ConcatPhase::Input(i) => ConcatPhaseView::Input(*i as nat),
            ConcatPhase::Resolve(i) => ConcatPhaseView::Resolve(*i as nat),
            ConcatPhase::OutputPath => ConcatPhaseView::OutputPath,
            ConcatPhase::ResolveOutput => ConcatPhaseView::ResolveOutput,
            ConcatPhase::CurrentDir => ConcatPhaseView::CurrentDir,
            ConcatPhase::Compare(i) => ConcatPhaseView::Compare(*i as nat),
            ConcatPhase::Parent => ConcatPhaseView::Parent,
            ConcatPhase::CreateList(i) => ConcatPhaseView::CreateList(*i as nat),
            ConcatPhase::WriteHeader => ConcatPhaseView::WriteHeader,
            ConcatPhase::WriteLine(i) => ConcatPhaseView::WriteLine(*i as nat),
            ConcatPhase::Flush => ConcatPhaseView::Flush,
            ConcatPhase::Run => ConcatPhaseView::Run,
            ConcatPhase::Generated => ConcatPhaseView::Generated,
            ConcatPhase::RemoveList => ConcatPhaseView::RemoveList,
            ConcatPhase::Failed => ConcatPhaseView::Failed,
            ConcatPhase::Finished => ConcatPhaseView::Finished,
        }
    }
}

/// Videos that are being joined.
#[derive(Debug)]
pub struct ConcatJob {
    setup: ConcatSetup,
    phase: ConcatPhase,
    paths: Vec<Option<String>>,
    list_shown: String,
    made: bool,
    cause: String,
}

impl View for ConcatJob {
    type V = ConcatJobView;

    closed spec fn view(&self) -> ConcatJobView {
        ConcatJobView {
            setup: self.setup@,
            phase: self.phase@,
            paths: video::name_texts(self.paths@),
            list_shown: self.list_shown@,
            made: self.made,
            cause: self.cause@,
        }
    }
}

fn push_concat_word(command: &mut Vec<ConcatPart>, word: &str)
    ensures
        concat_parts(final(command)@) == concat_parts(old(command)@).push(
            ConcatPartView::Text(word@),
        ),
{
    command.push(ConcatPart::Text(word.to_owned()));
    assert(concat_parts(command@) == concat_parts(old(command)@).push(ConcatPartView::Text(word@)));
}

fn push_concat_part(command: &mut Vec<ConcatPart>, part: ConcatPart)
    ensures
        concat_parts(final(command)@) == concat_parts(old(command)@).push(part@),
{
    command.push(part);
    assert(concat_parts(command@) == concat_parts(old(command)@).push(part@));
}

/// The command for FFmpeg.
fn concat_arguments(overwrite: bool) -> (command: Vec<ConcatPart>)
    ensures
        concat_parts(command@) == concat_command(overwrite),
{
    let mut command: Vec<ConcatPart> = Vec::new();
    push_concat_word(&mut command, "-hide_banner");
    push_concat_word(&mut command, overwrite_flag(overwrite));
    push_concat_word(&mut command, "-f");
    push_concat_word(&mut command, "concat");
    push_concat_word(&mut command, "-safe");
    push_concat_word(&mut command, "0");
    push_concat_word(&mut command, "-i");
    push_concat_part(&mut command, ConcatPart::List);
    push_concat_word(&mut command, "-map");
    push_concat_word(&mut command, "0");
    push_concat_word(&mut command, "-c");
    push_concat_word(&mut command, "copy");
    push_concat_part(&mut command, ConcatPart::Output);
    assert(concat_parts(command@) == concat_command(overwrite));
    command
}

/// The name of the list of inputs at the given attempt.
pub fn concat_list_name(process: u32, nonce: u128, attempt: u8) -> (name: String)
    ensures
        name@ == list_name(process as nat, nonce as nat, attempt as nat),
{
    let mut name = "vidsplice-".to_owned();
    name.append(decimal_text(process as u128).as_str());
    name.append("-");
    name.append(decimal_text(nonce).as_str());
    name.append("-");
    name.append(decimal_text(attempt as u128).as_str());
    name.append(".ffconcat");
    name
}

/// The line of an input in the list, or what keeps its path out of the list.
pub fn concat_list_line(path: &Option<String>) -> (r: Result<String>)
    ensures
        (match r {
            Ok(line) => path is Some && path_failure(cli::text_of(*path)) is None && line@
                == list_line(path->0@),
            Err(error) => path_failure(cli::text_of(*path)) == Some(error@),
        }),
{
    match path {
        None => Err(AppError::new("拼接输入路径必须是有效 UTF-8 文本")),
        Some(path) => {
            if contains_char(path.as_str(), '\n') || contains_char(path.as_str(), '\r') {
                return Err(AppError::new("拼接输入路径不能包含换行符"));
            }
            let mut line = "file ".to_owned();
            line.append(single_quote(path.as_str()).as_str());
            line.append("\n");
            Ok(line)
        },
    }
}

/// Why the list of inputs could not be written.
pub fn concat_list_write_error(shown: &str, cause: &str) -> (error: AppError)
    ensures
        error@ == list_write_message(shown@, cause@),
{
    AppError::caused("写入临时拼接清单 `", shown, "` 失败：", cause)
}

impl ConcatJob {
    #[verifier::type_invariant]
    spec fn is_sound(self) -> bool {
        let inputs = self.setup.inputs_shown@.len();
        match self.phase {
            ConcatPhase::Input(i) => i < inputs,
            ConcatPhase::Resolve(i) => i < inputs,
            ConcatPhase::Compare(i) => i < self.paths@.len(),
            ConcatPhase::Parent => self.setup.parent_shown is Some,
            ConcatPhase::CreateList(attempt) => attempt < LIST_ATTEMPTS,
            ConcatPhase::WriteLine(i) => i < self.paths@.len() && path_failure(
                cli::text_of(self.paths@[i as int]),
            ) is None,
            _ => true,
        }
    }

    /// A job before its first action.
    pub fn start(setup: ConcatSetup) -> (job: ConcatJob)
        ensures
            job@ == fresh_concat(setup@),
    {
        let has_extension = setup.has_extension;
        let job = ConcatJob {
            setup,
            phase: ConcatPhase::Output,
            paths: Vec::new(),
            list_shown: String::new(),
            made: false,
            cause: String::new(),
        };
        assert(job@.paths == Seq::<Option<Seq<char>>>::empty());
        if has_extension {
            job
        } else {
            job.failed(AppError::new("输出视频必须带文件扩展名，以确定封装格式"))
        }
    }

    fn failed(self, error: AppError) -> (next: ConcatJob)
        ensures
            next@ == concat_failed(self@, error@),
    {
        ConcatJob { phase: ConcatPhase::Failed, cause: error.message().to_owned(), ..self }
    }

    fn refused(self, error: AppError) -> (next: ConcatJob)
        ensures
            next@ == concat_refused(self@, error@),
    {
        ConcatJob { phase: ConcatPhase::RemoveList, cause: error.message().to_owned(), ..self }
    }

    fn resolving(self, i: usize) -> (next: ConcatJob)
        ensures
            next@ == resolving(self@, i as nat),
    {
        if i < self.setup.inputs_shown.len() {
            ConcatJob { phase: ConcatPhase::Input(i), ..self }
        } else {
            ConcatJob { phase: ConcatPhase::OutputPath, ..self }
        }
    }

    fn comparing(self, i: usize) -> (next: ConcatJob)
        ensures
            next@ == comparing(self@, i as nat),
    {
        if i < self.paths.len() {
            ConcatJob { phase: ConcatPhase::Compare(i), ..self }
        } else if self.setup.parent_shown.is_some() {
            ConcatJob { phase: ConcatPhase::Parent, ..self }
        } else {
            ConcatJob { phase: ConcatPhase::CreateList(0), ..self }
        }
    }

    fn writing(self, i: usize) -> (next: ConcatJob)
        ensures
            next@ == writing(self@, i as nat),
    {
        if i >= self.paths.len() {
            return ConcatJob { phase: ConcatPhase::Flush, ..self };
        }
        match concat_list_line(&self.paths[i]) {
            Err(error) => self.failed(error),
            Ok(_) => ConcatJob { phase: ConcatPhase::WriteLine(i), ..self },
        }
    }

    fn not_written(self, cause: &str) -> (next: ConcatJob)
        ensures
            next@ == concat_failed(self@, list_write_message(self@.list_shown, cause@)),
    {
        let error = concat_list_write_error(self.list_shown.as_str(), cause);
        self.failed(error)
    }

    /// What the job wants done.
    pub fn action(&self) -> (action: ConcatAction)
        ensures
            action@ == concat_action(self@),
    {
        proof {
            use_type_invariant(self);
        }
        match self.phase {
            ConcatPhase::Output => ConcatAction::CheckOutput,
            ConcatPhase::Input(i) => ConcatAction::CheckInput(i),
            ConcatPhase::Resolve(i) => ConcatAction::ResolveInput(i),
            ConcatPhase::OutputPath => ConcatAction::CheckOutput,
            ConcatPhase::ResolveOutput => ConcatAction::ResolveOutput,
            ConcatPhase::CurrentDir => ConcatAction::JoinCurrentDir,
            ConcatPhase::Compare(i) => ConcatAction::CompareInput(i),
            ConcatPhase::Parent => ConcatAction::CreateParent,
            ConcatPhase::CreateList(attempt) => ConcatAction::CreateList(
                concat_list_name(self.setup.process, self.setup.nonce, attempt),
            ),
            ConcatPhase::WriteHeader => ConcatAction::WriteList(
                "ffconcat version 1.0\n".to_owned(),
            ),
            ConcatPhase::WriteLine(i) => match concat_list_line(&self.paths[i]) {
                Ok(line) => ConcatAction::WriteList(line),
                Err(error) => ConcatAction::Finish(Err(error)),
            },
            ConcatPhase::Flush => ConcatAction::FlushList,
            ConcatPhase::Run => ConcatAction::Run(concat_arguments(self.setup.overwrite)),
            ConcatPhase::Generated => ConcatAction::CheckGenerated,
            ConcatPhase::RemoveList => ConcatAction::RemoveList,
            ConcatPhase::Failed => ConcatAction::Finish(Err(AppError::new(self.cause.as_str()))),
            ConcatPhase::Finished => ConcatAction::Finish(Ok(())),
        }
    }

    /// The job after what it wanted done was done, and went as the answer says.
    pub fn answer(self, answer: ConcatAnswer) -> (next: ConcatJob)
        ensures
            next@ == concat_step(self@, answer@),
    {
        proof {
            use_type_invariant(&self);
        }
        match (self.phase, answer) {
            (ConcatPhase::Output, ConcatAnswer::Exists(yes)) => if yes && !self.setup.overwrite {
                let error = AppError::about(
                    "输出文件 `",
                    self.setup.output_shown.as_str(),
                    "` 已存在；使用 --overwrite 覆盖",
                );
                self.failed(error)
            } else {
                self.resolving(0)
            },
            (ConcatPhase::Input(i), ConcatAnswer::InputFile(yes)) => {
                match require_input_file(self.setup.inputs_shown[i].as_str(), yes) {
                    Ok(_) => ConcatJob { phase: ConcatPhase::Resolve(i), ..self },
                    Err(error) => self.failed(error),
                }
            },
            (ConcatPhase::Resolve(i), ConcatAnswer::Resolved(path)) => {
                let count: usize = self.setup.inputs_shown.len();
                assert(i < count);
                let ghost before = self@;
                let ConcatJob { setup, phase, paths, list_shown, made, cause } = self;
                let mut paths = paths;
                paths.push(path);
                let job = ConcatJob { setup, phase, paths, list_shown, made, cause };
                assert(job@.paths == before.paths.push(cli::text_of(path)));
                job.resolving(i + 1)
            },
            (ConcatPhase::Resolve(i), ConcatAnswer::Failed(cause)) => {
                let error = AppError::caused(
                    "无法解析输入文件 `",
                    self.setup.inputs_shown[i].as_str(),
                    "`：",
                    cause.as_str(),
                );
                self.failed(error)
            },
            (ConcatPhase::OutputPath, ConcatAnswer::Exists(yes)) => if yes {
                ConcatJob { phase: ConcatPhase::ResolveOutput, ..self }
            } else if self.setup.output_absolute {
                self.comparing(0)
            } else {
                ConcatJob { phase: ConcatPhase::CurrentDir, ..self }
            },
            (ConcatPhase::ResolveOutput, ConcatAnswer::Done) => self.comparing(0),
            (ConcatPhase::ResolveOutput, ConcatAnswer::Failed(cause)) => {
                let error = AppError::caused(
                    "无法解析输出文件路径 `",
                    self.setup.output_shown.as_str(),
                    "`：",
                    cause.as_str(),
                );
                self.failed(error)
            },
            (ConcatPhase::CurrentDir, ConcatAnswer::Done) => self.comparing(0),
            (ConcatPhase::CurrentDir, ConcatAnswer::Failed(cause)) => {
                let mut message = "无法获取当前目录：".to_owned();
                message.append(cause.as_str());
                self.failed(AppError::new(message.as_str()))
            },
            (ConcatPhase::Compare(i), ConcatAnswer::SamePath(yes)) => if yes {
                self.failed(AppError::new("输出文件不能同时作为输入文件"))
            } else {
                let count: usize = self.paths.len();
                assert(i < count);
                self.comparing(i + 1)
            },
            (ConcatPhase::Parent, ConcatAnswer::Done) => ConcatJob {
                phase: ConcatPhase::CreateList(0),
                ..self
            },
            (ConcatPhase::Parent, ConcatAnswer::Failed(cause)) => {
                let error = match &self.setup.parent_shown {
                    Some(parent) => AppError::caused(
                        "无法创建目录 `",
                        parent.as_str(),
                        "`：",
                        cause.as_str(),
                    ),
                    None => AppError::new(""),
                };
                self.failed(error)
            },
            (ConcatPhase::CreateList(_), ConcatAnswer::ListCreated(shown)) => ConcatJob {
                phase: ConcatPhase::WriteHeader,
                list_shown: shown,
                ..self
            },
            (ConcatPhase::CreateList(attempt), ConcatAnswer::ListExists) => if attempt + 1
                < LIST_ATTEMPTS {
                ConcatJob { phase: ConcatPhase::CreateList(attempt + 1), ..self }
            } else {
                self.failed(AppError::new("无法分配唯一的临时拼接清单"))
            },
            (ConcatPhase::CreateList(_), ConcatAnswer::ListFailed { shown, cause }) => self.failed(
                AppError::caused(
                    "无法创建临时拼接清单 `",
                    shown.as_str(),
                    "`：",
                    cause.as_str(),
                ),
            ),
            (ConcatPhase::WriteHeader, ConcatAnswer::Done) => self.writing(0),
            (ConcatPhase::WriteHeader, ConcatAnswer::Failed(cause)) => self.not_written(
                cause.as_str(),
            ),
            (ConcatPhase::WriteLine(i), ConcatAnswer::Done) => {
                let count: usize = self.paths.len();
                assert(i < count);
                self.writing(i + 1)
            },
            (ConcatPhase::WriteLine(_), ConcatAnswer::Failed(cause)) => self.not_written(
                cause.as_str(),
            ),
            (ConcatPhase::Flush, ConcatAnswer::Done) => ConcatJob {
                phase: ConcatPhase::Run,
                ..self
            },
            (ConcatPhase::Flush, ConcatAnswer::Failed(cause)) => self.not_written(cause.as_str()),
            (ConcatPhase::Run, ConcatAnswer::Done) => ConcatJob {
                phase: ConcatPhase::Generated,
                ..self
            },
            (ConcatPhase::Run, ConcatAnswer::Refused(error)) => self.refused(error),
            (ConcatPhase::Generated, ConcatAnswer::Generated(yes)) => if yes {
                ConcatJob { phase: ConcatPhase::RemoveList, made: true, ..self }
            } else {
                let error = AppError::about(
                    "FFmpeg 未生成输出文件 `",
                    self.setup.output_shown.as_str(),
                    "`",
                );
                self.refused(error)
            },
            (ConcatPhase::RemoveList, ConcatAnswer::Done) => if self.made {
                ConcatJob { phase: ConcatPhase::Finished, ..self }
            } else {
                ConcatJob { phase: ConcatPhase::Failed, ..self }
            },
            _ => self,
        }
    }
}

// ---------------------------------------------------------------------------
// Laws
// ---------------------------------------------------------------------------

/// A job after all of the answers.
pub open spec fn concat_after_all(
    setup: ConcatSetupView,
    answers: Seq<ConcatAnswerView>,
) -> ConcatJobView
    decreases answers.len(),
{
    if answers.len() == 0 {
        fresh_concat(setup)
    } else {
        concat_step(concat_after_all(setup, answers.drop_last()), answers.last())
    }
}

/// Whether the paths before `end` may stand in a list.
pub open spec fn are_listable(paths: Seq<Option<Seq<char>>>, end: nat) -> bool {
    forall|i: int| 0 <= i < end ==> path_failure(#[trigger] paths[i]) is None
}

/// What holds of a job at every phase.
pub open spec fn is_sound_concat(job: ConcatJobView) -> bool {
    let inputs = job.setup.inputs_shown.len();
    let known = job.paths.len() == inputs && job.setup.has_extension;
    match job.phase {
        ConcatPhaseView::Output => job.setup.has_extension && job.paths.len() == 0 && !job.made,
        ConcatPhaseView::Input(i) => job.setup.has_extension && job.paths.len() == i && i < inputs
            && !job.made,
        ConcatPhaseView::Resolve(i) => job.setup.has_extension && job.paths.len() == i && i < inputs
            && !job.made,
        ConcatPhaseView::OutputPath => known && !job.made,
        ConcatPhaseView::ResolveOutput => known && !job.made,
        ConcatPhaseView::CurrentDir => known && !job.made && !job.setup.output_absolute,
        ConcatPhaseView::Compare(i) => known && i < inputs && !job.made,
        ConcatPhaseView::Parent => known && job.setup.parent_shown is Some && !job.made,
        ConcatPhaseView::CreateList(attempt) => known && attempt < LIST_ATTEMPTS && !job.made,
        ConcatPhaseView::WriteHeader => known && !job.made,
        ConcatPhaseView::WriteLine(i) => known && i < inputs && are_listable(job.paths, i + 1)
            && !job.made,
        ConcatPhaseView::Flush => known && are_listable(job.paths, inputs) && !job.made,
        ConcatPhaseView::Run => known && are_listable(job.paths, inputs) && !job.made,
        ConcatPhaseView::Generated => known && are_listable(job.paths, inputs) && !job.made,
        ConcatPhaseView::RemoveList => known && are_listable(job.paths, inputs),
        ConcatPhaseView::Failed => !job.made,
        ConcatPhaseView::Finished => known && are_listable(job.paths, inputs) && job.made,
    }
}

/// Every answer keeps what holds of a job.
pub proof fn law_concat_step_keeps_sound(job: ConcatJobView, answer: ConcatAnswerView)
    requires
        is_sound_concat(job),
    ensures
        is_sound_concat(concat_step(job, answer)),
{
}

/// What holds of a job holds whatever the answers were.
pub proof fn law_concat_sound_after_all(setup: ConcatSetupView, answers: Seq<ConcatAnswerView>)
    ensures
        is_sound_concat(concat_after_all(setup, answers)),
        concat_after_all(setup, answers).setup == setup,
    decreases answers.len(),
{
    if answers.len() > 0 {
        let front = answers.drop_last();
        law_concat_sound_after_all(setup, front);
        law_concat_step_keeps_sound(concat_after_all(setup, front), answers.last());
    }
}

/// Whether the job was in this phase once, and then got this answer.
pub open spec fn concat_was_answered(
    setup: ConcatSetupView,
    answers: Seq<ConcatAnswerView>,
    phase: ConcatPhaseView,
    answer: ConcatAnswerView,
) -> bool {
    exists|k: int|
        0 <= k < answers.len() && #[trigger] answers[k] == answer && concat_after_all(
            setup,
            answers.take(k),
        ).phase == phase
}

proof fn lemma_concat_was_answered(
    setup: ConcatSetupView,
    answers: Seq<ConcatAnswerView>,
    phase: ConcatPhaseView,
    answer: ConcatAnswerView,
)
    requires
        answers.len() > 0,
    ensures
        concat_was_answered(setup, answers.drop_last(), phase, answer) ==> concat_was_answered(
            setup,
            answers,
            phase,
            answer,
        ),
        concat_after_all(setup, answers.drop_last()).phase == phase && answers.last() == answer
            ==> concat_was_answered(setup, answers, phase, answer),
{
    let front = answers.drop_last();
    if concat_was_answered(setup, front, phase, answer) {
        let k = choose|k: int|
            0 <= k < front.len() && #[trigger] front[k] == answer && concat_after_all(
                setup,
                front.take(k),
            ).phase == phase;
        assert(answers[k] == answer);
        assert(answers.take(k) == front.take(k));
    }
    if concat_after_all(setup, front).phase == phase && answers.last() == answer {
        let k = answers.len() - 1;
        assert(answers[k] == answer);
        assert(answers.take(k) == front);
    }
}

/// How far the job is: how many inputs are known not to be the output.
pub open spec fn compared(job: ConcatJobView) -> nat {
    match job.phase {
        ConcatPhaseView::Compare(i) => i,
        ConcatPhaseView::Parent => job.paths.len(),
        ConcatPhaseView::CreateList(_) => job.paths.len(),
        ConcatPhaseView::WriteHeader => job.paths.len(),
        ConcatPhaseView::WriteLine(_) => job.paths.len(),
        ConcatPhaseView::Flush => job.paths.len(),
        ConcatPhaseView::Run => job.paths.len(),
        _ => 0,
    }
}

proof fn lemma_compared(setup: ConcatSetupView, answers: Seq<ConcatAnswerView>, i: nat)
    requires
        i < compared(concat_after_all(setup, answers)),
    ensures
        concat_was_answered(
            setup,
            answers,
            ConcatPhaseView::Compare(i),
            ConcatAnswerView::SamePath(false),
        ),
    decreases answers.len(),
{
    if answers.len() > 0 {
        let front = answers.drop_last();
        law_concat_sound_after_all(setup, front);
        lemma_concat_was_answered(
            setup,
            answers,
            ConcatPhaseView::Compare(i),
            ConcatAnswerView::SamePath(false),
        );
        if i < compared(concat_after_all(setup, front)) {
            lemma_compared(setup, front, i);
        }
    }
}

/// FFmpeg runs only after every input was compared with the output and was another file.
pub proof fn law_output_is_no_input(
    setup: ConcatSetupView,
    answers: Seq<ConcatAnswerView>,
    i: nat,
)
    requires
        i < setup.inputs_shown.len(),
    ensures
        concat_action(concat_after_all(setup, answers)) is Run ==> concat_was_answered(
            setup,
            answers,
            ConcatPhaseView::Compare(i),
            ConcatAnswerView::SamePath(false),
        ),
{
    law_concat_sound_after_all(setup, answers);
    if concat_after_all(setup, answers).phase is Run {
        lemma_compared(setup, answers, i);
    }
}

/// Where overwriting was not asked for, a job goes on only after the output was said not to be
/// there.
pub proof fn law_output_was_free(setup: ConcatSetupView, answers: Seq<ConcatAnswerView>)
    requires
        !setup.overwrite,
    ensures
        !(concat_after_all(setup, answers).phase is Output) && !(concat_after_all(
            setup,
            answers,
        ).phase is Failed) ==> concat_was_answered(
            setup,
            answers,
            ConcatPhaseView::Output,
            ConcatAnswerView::Exists(false),
        ),
    decreases answers.len(),
{
    if answers.len() > 0 {
        let front = answers.drop_last();
        law_concat_sound_after_all(setup, front);
        law_output_was_free(setup, front);
        lemma_concat_was_answered(
            setup,
            answers,
            ConcatPhaseView::Output,
            ConcatAnswerView::Exists(false),
        );
    }
}

/// A job succeeds only after the output was seen to be a file.
pub proof fn law_concat_success(setup: ConcatSetupView, answers: Seq<ConcatAnswerView>)
    ensures
        concat_after_all(setup, answers).made ==> concat_was_answered(
            setup,
            answers,
            ConcatPhaseView::Generated,
            ConcatAnswerView::Generated(true),
        ),
        concat_action(concat_after_all(setup, answers)) == ConcatActionView::Finish(Ok(()))
            ==> concat_after_all(setup, answers).made,
    decreases answers.len(),
{
    law_concat_sound_after_all(setup, answers);
    if answers.len() > 0 {
        let front = answers.drop_last();
        law_concat_success(setup, front);
        lemma_concat_was_answered(
            setup,
            answers,
            ConcatPhaseView::Generated,
            ConcatAnswerView::Generated(true),
        );
    }
}

/// Whether FFmpeg was to be run at some point.
pub open spec fn came_to_run(setup: ConcatSetupView, answers: Seq<ConcatAnswerView>) -> bool
    decreases answers.len(),
{
    concat_after_all(setup, answers).phase is Run || (answers.len() > 0 && came_to_run(
        setup,
        answers.drop_last(),
    ))
}

/// A job that came to run FFmpeg removes its list of inputs before it ends, however it ends.
pub proof fn law_list_is_removed(setup: ConcatSetupView, answers: Seq<ConcatAnswerView>)
    requires
        came_to_run(setup, answers),
    ensures
        concat_action(concat_after_all(setup, answers)) is Finish ==> concat_was_answered(
            setup,
            answers,
            ConcatPhaseView::RemoveList,
            ConcatAnswerView::Done,
        ),
        concat_after_all(setup, answers).phase is Run || concat_after_all(
            setup,
            answers,
        ).phase is Generated || concat_after_all(setup, answers).phase is RemoveList
            || concat_after_all(setup, answers).phase is Failed || concat_after_all(
            setup,
            answers,
        ).phase is Finished,
    decreases answers.len(),
{
    if answers.len() > 0 {
        let front = answers.drop_last();
        lemma_concat_was_answered(
            setup,
            answers,
            ConcatPhaseView::RemoveList,
            ConcatAnswerView::Done,
        );
        if came_to_run(setup, front) {
            law_list_is_removed(setup, front);
        }
    }
}

/// The lines of inputs in the list.
pub open spec fn list_lines(paths: Seq<Option<Seq<char>>>) -> Seq<char>
    decreases paths.len(),
{
    if paths.len() == 0 {
        Seq::empty()
    } else {
        list_lines(paths.drop_last()) + list_line(paths.last()->0)
    }
}

/// What was written to the list of inputs since it was created.
pub open spec fn written(setup: ConcatSetupView, answers: Seq<ConcatAnswerView>) -> Seq<char>
    decreases answers.len(),
{
    if answers.len() == 0 {
        Seq::empty()
    } else {
        let front = answers.drop_last();
        match (concat_action(concat_after_all(setup, front)), answers.last()) {
            (ConcatActionView::CreateList(_), ConcatAnswerView::ListCreated(_)) => Seq::empty(),
            (ConcatActionView::WriteList(line), ConcatAnswerView::Done) => written(setup, front)
                + line,
            _ => written(setup, front),
        }
    }
}

#[verifier::spinoff_prover]
#[verifier::rlimit(40)]
proof fn lemma_written(setup: ConcatSetupView, answers: Seq<ConcatAnswerView>)
    ensures
        ({
            let job = concat_after_all(setup, answers);
            &&& job.phase is WriteHeader ==> written(setup, answers) == Seq::<char>::empty()
            &&& job.phase matches ConcatPhaseView::WriteLine(i) ==> written(setup, answers)
                == list_header() + list_lines(job.paths.take(i as int))
            &&& job.phase is Flush || job.phase is Run || job.phase is Generated || job.phase
                is RemoveList || job.phase is Finished ==> written(setup, answers) == list_header()
                + list_lines(job.paths)
        }),
    decreases answers.len(),
{
    if answers.len() > 0 {
        let front = answers.drop_last();
        let before = concat_after_all(setup, front);
        let job = concat_after_all(setup, answers);
        lemma_written(setup, front);
        law_concat_sound_after_all(setup, front);
        match (before.phase, answers.last()) {
            (ConcatPhaseView::WriteHeader, ConcatAnswerView::Done) => {
                assert(before.paths.take(0) == Seq::<Option<Seq<char>>>::empty());
                let header = list_header();
                assert(Seq::<char>::empty() + header == header);
                assert(header + Seq::<char>::empty() == header);
            },
            (ConcatPhaseView::WriteLine(i), ConcatAnswerView::Done) => {
                let more = before.paths.take(i as int + 1);
                let lines = list_lines(before.paths.take(i as int));
                let line = list_line(before.paths[i as int]->0);
                assert(more.drop_last() == before.paths.take(i as int));
                assert(more.last() == before.paths[i as int]);
                assert(list_header() + lines + line == list_header() + (lines + line));
                assert(before.paths.take(before.paths.len() as int) == before.paths);
            },
            _ => {},
        }
    }
}

/// When FFmpeg runs, the list holds its first line and then all inputs in their order.
pub proof fn law_list_is_complete(setup: ConcatSetupView, answers: Seq<ConcatAnswerView>)
    ensures
        concat_action(concat_after_all(setup, answers)) is Run ==> {
            let job = concat_after_all(setup, answers);
            &&& written(setup, answers) == list_header() + list_lines(job.paths)
            &&& job.paths.len() == setup.inputs_shown.len()
            &&& are_listable(job.paths, job.paths.len())
        },
{
    lemma_written(setup, answers);
    law_concat_sound_after_all(setup, answers);
}

/// The paths in the list are the answers to the inputs, in their order.
pub proof fn law_paths_in_order(setup: ConcatSetupView, answers: Seq<ConcatAnswerView>, i: nat)
    requires
        i < concat_after_all(setup, answers).paths.len(),
    ensures
        concat_was_answered(
            setup,
            answers,
            ConcatPhaseView::Resolve(i),
            ConcatAnswerView::Resolved(concat_after_all(setup, answers).paths[i as int]),
        ),
    decreases answers.len(),
{
    if answers.len() > 0 {
        let front = answers.drop_last();
        let before = concat_after_all(setup, front);
        let path = concat_after_all(setup, answers).paths[i as int];
        law_concat_sound_after_all(setup, front);
        lemma_concat_was_answered(
            setup,
            answers,
            ConcatPhaseView::Resolve(i),
            ConcatAnswerView::Resolved(path),
        );
        if i < before.paths.len() {
            law_paths_in_order(setup, front, i);
            assert(path == before.paths[i as int]);
        }
    }
}

/// A line of the list is read as the word `file` and the path, with nothing behind them.
pub proof fn law_list_line(path: Seq<char>)
    ensures
        list_line(path).last() == '\n',
        ffmpeg::words_of(list_line(path).drop_last(), false, None) == Some(seq!["file"@, path]),
        path_failure(Some(path)) is None ==> !list_line(path).drop_last().contains('\n'),
{
    let quoted = ffmpeg::single_quoted(path);
    let line = list_line(path).drop_last();
    let nothing = Seq::<char>::empty();
    reveal_strlit("file ");
    reveal_strlit("file");
    reveal_strlit("\n");
    assert(line == "file "@ + quoted);
    assert("file "@ == seq!['f', 'i', 'l', 'e', ' ']);
    assert("file"@ == seq!['f', 'i', 'l', 'e']);
    ffmpeg::law_single_quoted(path, nothing);
    let a = line.skip(1);
    let b = a.skip(1);
    let c = b.skip(1);
    let d = c.skip(1);
    assert(line[0] == 'f' && a[0] == 'i' && b[0] == 'l' && c[0] == 'e' && d[0] == ' ');
    assert(d.skip(1) == quoted);
    let none = None::<Seq<char>>;
    let word = seq!['f', 'i', 'l', 'e'];
    assert(ffmpeg::words_of(d, false, Some(word)) == ffmpeg::preceded(
        seq![word],
        ffmpeg::words_of(quoted, false, none),
    ));
    assert(ffmpeg::words_of(c, false, Some(seq!['f', 'i', 'l'])) == ffmpeg::words_of(
        d,
        false,
        Some(seq!['f', 'i', 'l'].push('e')),
    ));
    assert(seq!['f', 'i', 'l'].push('e') == word);
    assert(seq!['f', 'i'].push('l') == seq!['f', 'i', 'l']);
    assert(seq!['f'].push('i') == seq!['f', 'i']);
    assert(nothing.push('f') == seq!['f']);
    assert(ffmpeg::words_of(b, false, Some(seq!['f', 'i'])) == ffmpeg::words_of(
        c,
        false,
        Some(seq!['f', 'i', 'l']),
    ));
    assert(ffmpeg::words_of(a, false, Some(seq!['f'])) == ffmpeg::words_of(
        b,
        false,
        Some(seq!['f', 'i']),
    ));
    assert(ffmpeg::words_of(line, false, none) == ffmpeg::words_of(a, false, Some(seq!['f'])));
    assert(seq![word] + seq![path] == seq![word, path]);
    if path_failure(Some(path)) is None {
        lemma_quoted_keeps_out(path, '\n');
        assert forall|i: int| 0 <= i < line.len() implies line[i] != '\n' by {
            if i >= 5 {
                assert(line[i] == quoted[i - 5]);
            }
        }
    }
}

/// Quoting brings in only quotes and backslashes.
proof fn lemma_quoted_keeps_out(path: Seq<char>, c: char)
    requires
        !path.contains(c),
        c != '\'',
        c != '\\',
    ensures
        !ffmpeg::single_quoted(path).contains(c),
{
    let parts = text::split(path, '\'');
    let quote = "'\\''"@;
    reveal_strlit("'\\''");
    reveal_strlit("'");
    assert(quote == seq!['\'', '\\', '\'', '\'']);
    text::law_join_split(path, '\'');
    text::law_split_parts(path, '\'');
    lemma_join_keeps_out(parts, seq!['\''], quote, c);
    let inner = text::join(parts, quote);
    let quoted = ffmpeg::single_quoted(path);
    assert forall|i: int| 0 <= i < quoted.len() implies quoted[i] != c by {
        if 0 < i < quoted.len() - 1 {
            assert(quoted[i] == inner[i - 1]);
        }
    }
}

/// What is in no text joined one way and in no separator is in no text joined the other way.
proof fn lemma_join_keeps_out(
    parts: Seq<Seq<char>>,
    separator: Seq<char>,
    other: Seq<char>,
    c: char,
)
    requires
        !text::join(parts, separator).contains(c),
        !other.contains(c),
    ensures
        !text::join(parts, other).contains(c),
    decreases parts.len(),
{
    if parts.len() > 1 {
        let front = parts.drop_last();
        let before = text::join(front, separator);
        let whole = text::join(parts, separator);
        assert(whole == before + separator + parts.last());
        assert(!before.contains(c)) by {
            assert forall|i: int| 0 <= i < before.len() implies before[i] != c by {
                assert(whole[i] == before[i]);
            }
        }
        lemma_join_keeps_out(front, separator, other, c);
        let start = text::join(front, other);
        let joined = text::join(parts, other);
        assert(joined == start + other + parts.last());
        assert forall|i: int| 0 <= i < joined.len() implies joined[i] != c by {
            if i < start.len() {
                assert(joined[i] == start[i]);
            } else if i < start.len() + other.len() {
                assert(joined[i] == other[i - start.len()]);
            } else {
                let k = i - start.len() - other.len();
                assert(joined[i] == parts.last()[k]);
                assert(whole[before.len() + separator.len() + k] == parts.last()[k]);
            }
        }
    }
}

/// Two attempts try two names.
pub proof fn law_list_names_apart(process: nat, nonce: nat, a: nat, b: nat)
    requires
        list_name(process, nonce, a) == list_name(process, nonce, b),
    ensures
        a == b,
{
    let start = "vidsplice-"@ + text::decimal(process) + "-"@ + text::decimal(nonce) + "-"@;
    let end = ".ffconcat"@;
    let first = text::decimal(a);
    let second = text::decimal(b);
    let whole = list_name(process, nonce, a);
    assert(whole == start + first + end);
    assert(whole == start + second + end);
    assert(first.len() == second.len());
    assert forall|i: int| 0 <= i < first.len() implies first[i] == second[i] by {
        assert((start + first + end)[start.len() + i] == first[i]);
        assert((start + second + end)[start.len() + i] == second[i]);
    }
    assert(first == second);
    text::lemma_decimal(a);
    text::lemma_decimal(b);
}

/// A job that has ended is not changed by any answer.
pub proof fn law_concat_end(job: ConcatJobView, answer: ConcatAnswerView)
    requires
        concat_action(job) is Finish,
    ensures
        concat_step(job, answer) == job,
{
}

/// How many phases are still to come, at most.
pub open spec fn concat_phases_left(phase: ConcatPhaseView) -> nat {
    match phase {
        ConcatPhaseView::Output => 14,
        ConcatPhaseView::Input(_) => 13,
        ConcatPhaseView::Resolve(_) => 13,
        ConcatPhaseView::OutputPath => 12,
        ConcatPhaseView::ResolveOutput => 11,
        ConcatPhaseView::CurrentDir => 11,
        ConcatPhaseView::Compare(_) => 10,
        ConcatPhaseView::Parent => 9,
        ConcatPhaseView::CreateList(_) => 8,
        ConcatPhaseView::WriteHeader => 7,
        ConcatPhaseView::WriteLine(_) => 6,
        ConcatPhaseView::Flush => 5,
        ConcatPhaseView::Run => 4,
        ConcatPhaseView::Generated => 3,
        ConcatPhaseView::RemoveList => 2,
        ConcatPhaseView::Failed => 0,
        ConcatPhaseView::Finished => 0,
    }
}

/// How much of a phase that goes from input to input, or from name to name, is still to come, at
/// most.
pub open spec fn inputs_left(job: ConcatJobView) -> int {
    let inputs = job.setup.inputs_shown.len();
    match job.phase {
        ConcatPhaseView::Input(i) => 2 * (inputs - i) + 1,
        ConcatPhaseView::Resolve(i) => 2 * (inputs - i),
        ConcatPhaseView::Compare(i) => inputs - i,
        ConcatPhaseView::CreateList(attempt) => LIST_ATTEMPTS - attempt,
        ConcatPhaseView::WriteLine(i) => inputs - i,
        _ => 0,
    }
}

/// An answer brings a job closer to its end, or changes nothing.
pub proof fn law_concat_progress(job: ConcatJobView, answer: ConcatAnswerView)
    requires
        is_sound_concat(job),
    ensures
        concat_step(job, answer) == job || concat_phases_left(concat_step(job, answer).phase)
            < concat_phases_left(job.phase) || concat_phases_left(concat_step(job, answer).phase)
            == concat_phases_left(job.phase) && 0 <= inputs_left(concat_step(job, answer))
            < inputs_left(job),
{
}

// ---------------------------------------------------------------------------
// Laws of whole jobs
// ---------------------------------------------------------------------------

/// What FFmpeg is told, word by word: to read the listed inputs one after the other, and to copy
/// all of their streams to the output, whether or not overwriting was asked for.
pub proof fn law_concat_command(job: ConcatJobView)
    ensures
        concat_action(job) matches ConcatActionView::Run(command) ==> command == seq![
            ConcatPartView::Text("-hide_banner"@),
            ConcatPartView::Text(
                if job.setup.overwrite {
                    "-y"@
                } else {
                    "-n"@
                },
            ),
            ConcatPartView::Text("-f"@),
            ConcatPartView::Text("concat"@),
            ConcatPartView::Text("-safe"@),
            ConcatPartView::Text("0"@),
            ConcatPartView::Text("-i"@),
            ConcatPartView::List,
            ConcatPartView::Text("-map"@),
            ConcatPartView::Text("0"@),
            ConcatPartView::Text("-c"@),
            ConcatPartView::Text("copy"@),
            ConcatPartView::Output,
        ],
{
    let command = concat_command(job.setup.overwrite);
    let expected = seq![
        ConcatPartView::Text("-hide_banner"@),
        ConcatPartView::Text(video::overwrite_option(job.setup.overwrite)),
        ConcatPartView::Text("-f"@),
        ConcatPartView::Text("concat"@),
        ConcatPartView::Text("-safe"@),
        ConcatPartView::Text("0"@),
        ConcatPartView::Text("-i"@),
        ConcatPartView::List,
        ConcatPartView::Text("-map"@),
        ConcatPartView::Text("0"@),
        ConcatPartView::Text("-c"@),
        ConcatPartView::Text("copy"@),
        ConcatPartView::Output,
    ];
    assert(command =~= expected);
}

/// With and without overwriting, FFmpeg is told the same but for one word.
pub proof fn law_concat_command_differs_once(i: int)
    requires
        i != 1,
    ensures
        concat_command(true).len() == concat_command(false).len(),
        concat_command(true)[i] == concat_command(false)[i] || i < 0 || i >= concat_command(
            true,
        ).len(),
        concat_command(true)[1] == ConcatPartView::Text("-y"@),
        concat_command(false)[1] == ConcatPartView::Text("-n"@),
{
}

/// A job after some more answers.
pub open spec fn concat_after_more(
    job: ConcatJobView,
    answers: Seq<ConcatAnswerView>,
) -> ConcatJobView
    decreases answers.len(),
{
    if answers.len() == 0 {
        job
    } else {
        concat_step(concat_after_more(job, answers.drop_last()), answers.last())
    }
}

/// More answers are more answers.
pub proof fn law_concat_after_more(
    setup: ConcatSetupView,
    first: Seq<ConcatAnswerView>,
    more: Seq<ConcatAnswerView>,
)
    ensures
        concat_after_all(setup, first + more) == concat_after_more(
            concat_after_all(setup, first),
            more,
        ),
    decreases more.len(),
{
    let all = first + more;
    if more.len() == 0 {
        assert(all == first);
    } else {
        assert(all.drop_last() == first + more.drop_last());
        assert(all.last() == more.last());
        law_concat_after_more(setup, first, more.drop_last());
    }
}

/// The same answer, again and again.
pub open spec fn concat_repeated(answer: ConcatAnswerView, count: nat) -> Seq<ConcatAnswerView> {
    Seq::new(count, |i: int| answer)
}

/// The answers where each input is a file and has this path.
pub open spec fn inputs_found(paths: Seq<Option<Seq<char>>>) -> Seq<ConcatAnswerView> {
    Seq::new(
        2 * paths.len(),
        |i: int|
            if i % 2 == 0 {
                ConcatAnswerView::InputFile(true)
            } else {
                ConcatAnswerView::Resolved(paths[i / 2])
            },
    )
}

proof fn lemma_inputs_found(job: ConcatJobView, paths: Seq<Option<Seq<char>>>)
    requires
        job.phase == (if job.setup.inputs_shown.len() > 0 {
            ConcatPhaseView::Input(0)
        } else {
            ConcatPhaseView::OutputPath
        }),
        job.paths.len() == 0,
        paths.len() <= job.setup.inputs_shown.len(),
    ensures
        concat_after_more(job, inputs_found(paths)) == resolving(
            (ConcatJobView { paths, ..job }),
            paths.len(),
        ),
    decreases paths.len(),
{
    let answers = inputs_found(paths);
    if paths.len() > 0 {
        let front = paths.drop_last();
        let i = front.len();
        lemma_inputs_found(job, front);
        assert(answers.drop_last().drop_last() =~= inputs_found(front)) by {
            assert forall|k: int| 0 <= k < 2 * front.len() implies #[trigger] answers[k]
                == inputs_found(front)[k] by {
                assert(paths[k / 2] == front[k / 2]);
            }
        }
        assert(answers.drop_last().last() == ConcatAnswerView::InputFile(true));
        assert(answers.last() == ConcatAnswerView::Resolved(paths.last()));
        let asked = concat_after_more(job, inputs_found(front));
        assert(asked.phase == ConcatPhaseView::Input(i));
        let known = concat_after_more(job, answers.drop_last());
        assert(known == concat_step(asked, ConcatAnswerView::InputFile(true)));
        assert(front.push(paths.last()) == paths);
    } else {
        assert(answers == Seq::<ConcatAnswerView>::empty());
        assert(paths == job.paths);
    }
}

/// A job whose output has an extension first looks for the output. Where it is not there or may be
/// overwritten, each input is looked for and then resolved, one by one in their order; after the
/// last the output is looked for again, and the paths of the inputs are known.
pub proof fn law_concat_inputs(
    setup: ConcatSetupView,
    there: bool,
    paths: Seq<Option<Seq<char>>>,
)
    requires
        setup.has_extension,
        there ==> setup.overwrite,
        paths.len() <= setup.inputs_shown.len(),
    ensures
        ({
            let job = concat_after_all(
                setup,
                seq![ConcatAnswerView::Exists(there)] + inputs_found(paths),
            );
            &&& concat_action(fresh_concat(setup)) is CheckOutput
            &&& job.paths == paths
            &&& job.setup == setup
            &&& !job.made
            &&& paths.len() < setup.inputs_shown.len() ==> concat_action(job)
                == ConcatActionView::CheckInput(paths.len()) && concat_action(
                concat_step(job, ConcatAnswerView::InputFile(true)),
            ) == ConcatActionView::ResolveInput(paths.len())
            &&& paths.len() == setup.inputs_shown.len() ==> concat_action(job) is CheckOutput
                && job.phase is OutputPath
        }),
{
    let first = seq![ConcatAnswerView::Exists(there)];
    law_concat_after_more(setup, first, inputs_found(paths));
    assert(first.drop_last() == Seq::<ConcatAnswerView>::empty());
    let begun = concat_after_all(setup, first);
    reveal_with_fuel(concat_after_all, 2);
    assert(first.last() == ConcatAnswerView::Exists(there));
    assert(begun == concat_step(fresh_concat(setup), ConcatAnswerView::Exists(there)));
    lemma_inputs_found(begun, paths);
}

/// An output that is there is resolved; one that is not is taken as it is where its path is
/// absolute, and else put behind the current directory. Then it is compared.
pub proof fn law_concat_output_path(job: ConcatJobView)
    requires
        job.phase is OutputPath,
        job.paths.len() > 0,
    ensures
        ({
            let there = concat_step(job, ConcatAnswerView::Exists(true));
            let gone = concat_step(job, ConcatAnswerView::Exists(false));
            let compare = ConcatActionView::CompareInput(0);
            &&& concat_action(there) is ResolveOutput
            &&& concat_action(concat_step(there, ConcatAnswerView::Done)) == compare
            &&& job.setup.output_absolute ==> concat_action(gone) == compare
            &&& !job.setup.output_absolute ==> concat_action(gone) is JoinCurrentDir
                && concat_action(concat_step(gone, ConcatAnswerView::Done)) == compare
        }),
{
}

proof fn lemma_compares(job: ConcatJobView, count: nat)
    requires
        job.phase == ConcatPhaseView::Compare(0),
        count <= job.paths.len(),
        job.paths.len() > 0,
    ensures
        concat_after_more(job, concat_repeated(ConcatAnswerView::SamePath(false), count))
            == comparing(job, count),
    decreases count,
{
    let answers = concat_repeated(ConcatAnswerView::SamePath(false), count);
    if count > 0 {
        lemma_compares(job, (count - 1) as nat);
        assert(answers.drop_last() == concat_repeated(
            ConcatAnswerView::SamePath(false),
            (count - 1) as nat,
        ));
    }
}

/// Every input is compared with the output, one by one. One that is the output ends the job; after
/// the last the directory of the output is created, where its path names one, and then the list of
/// inputs.
pub proof fn law_concat_compares(job: ConcatJobView, i: nat)
    requires
        job.phase == ConcatPhaseView::Compare(0),
        i <= job.paths.len(),
        job.paths.len() > 0,
    ensures
        ({
            let next = concat_after_more(
                job,
                concat_repeated(ConcatAnswerView::SamePath(false), i),
            );
            let list = ConcatActionView::CreateList(
                "vidsplice-"@ + text::decimal(job.setup.process) + "-"@ + text::decimal(
                    job.setup.nonce,
                ) + "-"@ + text::decimal(0) + ".ffconcat"@,
            );
            &&& next.paths == job.paths && next.setup == job.setup
            &&& i < job.paths.len() ==> concat_action(next) == ConcatActionView::CompareInput(i)
                && concat_action(concat_step(next, ConcatAnswerView::SamePath(true)))
                == ConcatActionView::Finish(Err("输出文件不能同时作为输入文件"@))
            &&& i == job.paths.len() && job.setup.parent_shown is Some ==> concat_action(next)
                is CreateParent && concat_action(concat_step(next, ConcatAnswerView::Done)) == list
            &&& i == job.paths.len() && job.setup.parent_shown is None ==> concat_action(next)
                == list
        }),
{
    lemma_compares(job, i);
}

/// The list of inputs is created under the first of a hundred names that is free; then its first
/// line is written. Where none is free, or it cannot be created, that is told.
pub proof fn law_concat_creates_list(
    job: ConcatJobView,
    attempt: nat,
    shown: Seq<char>,
    cause: Seq<char>,
)
    requires
        job.phase == ConcatPhaseView::CreateList(attempt),
    ensures
        concat_action(job) == ConcatActionView::CreateList(
            "vidsplice-"@ + text::decimal(job.setup.process) + "-"@ + text::decimal(
                job.setup.nonce,
            ) + "-"@ + text::decimal(attempt) + ".ffconcat"@,
        ),
        attempt + 1 < 100 ==> concat_step(job, ConcatAnswerView::ListExists).phase
            == ConcatPhaseView::CreateList(attempt + 1),
        attempt + 1 >= 100 ==> concat_action(concat_step(job, ConcatAnswerView::ListExists))
            == ConcatActionView::Finish(Err("无法分配唯一的临时拼接清单"@)),
        concat_action(concat_step(job, (ConcatAnswerView::ListFailed { shown, cause })))
            == ConcatActionView::Finish(
            Err("无法创建临时拼接清单 `"@ + shown + "`："@ + cause),
        ),
        concat_action(concat_step(job, ConcatAnswerView::ListCreated(shown)))
            == ConcatActionView::WriteList("ffconcat version 1.0\n"@),
        concat_step(job, ConcatAnswerView::ListCreated(shown)).list_shown == shown,
        concat_step(job, ConcatAnswerView::ListCreated(shown)).paths == job.paths,
        concat_step(job, ConcatAnswerView::ListCreated(shown)).setup == job.setup,
{
}

/// Whether a path can stand in a list: it is Unicode and holds no end of a line.
pub open spec fn can_be_listed(path: Option<Seq<char>>) -> bool {
    path matches Some(path) && !path.contains('\n') && !path.contains('\r')
}

proof fn lemma_writes(job: ConcatJobView, count: nat)
    requires
        job.phase is WriteHeader,
        count <= job.paths.len(),
        forall|k: int| 0 <= k < count ==> can_be_listed(#[trigger] job.paths[k]),
    ensures
        concat_after_more(
            concat_step(job, ConcatAnswerView::Done),
            concat_repeated(ConcatAnswerView::Done, count),
        ) == writing(job, count),
    decreases count,
{
    let answers = concat_repeated(ConcatAnswerView::Done, count);
    if count > 0 {
        lemma_writes(job, (count - 1) as nat);
        assert(answers.drop_last() == concat_repeated(ConcatAnswerView::Done, (count - 1) as nat));
        assert(can_be_listed(job.paths[count - 1]));
    }
}

/// One line is written for each input, in their order, which a reader of the list reads as the
/// word `file` and the path of the input. A path that cannot stand in a list ends the job. After
/// the last line all is flushed.
pub proof fn law_concat_writes(job: ConcatJobView, i: nat)
    requires
        job.phase is WriteHeader,
        i <= job.paths.len(),
        forall|k: int| 0 <= k < i ==> can_be_listed(#[trigger] job.paths[k]),
    ensures
        ({
            let next = concat_after_more(
                concat_step(job, ConcatAnswerView::Done),
                concat_repeated(ConcatAnswerView::Done, i),
            );
            &&& i == job.paths.len() ==> concat_action(next) is FlushList && next.phase is Flush
            &&& i < job.paths.len() && can_be_listed(job.paths[i as int]) ==> (concat_action(
                next,
            ) matches ConcatActionView::WriteList(line) && line.len() > 0 && line.last() == '\n'
                && !line.drop_last().contains('\n') && ffmpeg::words_of(
                line.drop_last(),
                false,
                None,
            ) == Some(seq!["file"@, job.paths[i as int]->0]))
            &&& i < job.paths.len() && job.paths[i as int] is None ==> concat_action(next)
                == ConcatActionView::Finish(Err("拼接输入路径必须是有效 UTF-8 文本"@))
            &&& i < job.paths.len() && job.paths[i as int] is Some && !can_be_listed(
                job.paths[i as int],
            ) ==> concat_action(next) == ConcatActionView::Finish(
                Err("拼接输入路径不能包含换行符"@),
            )
        }),
{
    lemma_writes(job, i);
    if i < job.paths.len() && job.paths[i as int] is Some {
        law_list_line(job.paths[i as int]->0);
        assert(list_line(job.paths[i as int]->0).len() > 0) by {
            reveal_strlit("\n");
        }
    }
}

/// After the list is there FFmpeg is run; where it did its work and the output is there, the list
/// is removed and the job succeeds. Else the list is removed all the same, and it is told what
/// went wrong.
pub proof fn law_concat_runs(job: ConcatJobView, cause: Seq<char>)
    requires
        job.phase is Flush,
        !job.made,
    ensures
        ({
            let run = concat_step(job, ConcatAnswerView::Done);
            let ran = concat_step(run, ConcatAnswerView::Done);
            let made = concat_step(ran, ConcatAnswerView::Generated(true));
            let missing = concat_step(ran, ConcatAnswerView::Generated(false));
            let refused = concat_step(run, ConcatAnswerView::Refused(cause));
            let end = |job: ConcatJobView| concat_action(concat_step(job, ConcatAnswerView::Done));
            &&& concat_action(run) is Run
            &&& concat_action(ran) is CheckGenerated
            &&& concat_action(made) is RemoveList
            &&& end(made) == ConcatActionView::Finish(Ok(()))
            &&& concat_action(missing) is RemoveList
            &&& end(missing) == ConcatActionView::Finish(
                Err("FFmpeg 未生成输出文件 `"@ + job.setup.output_shown + "`"@),
            )
            &&& concat_action(refused) is RemoveList
            &&& end(refused) == ConcatActionView::Finish(Err(cause))
        }),
{
}

/// What is told where something cannot be done, at each point of a job.
pub proof fn law_concat_refusals(job: ConcatJobView, setup: ConcatSetupView, cause: Seq<char>)
    ensures
        !setup.has_extension ==> concat_action(fresh_concat(setup)) == ConcatActionView::Finish(
            Err("输出视频必须带文件扩展名，以确定封装格式"@),
        ),
        ({
            let failed = |answer: ConcatAnswerView| concat_action(concat_step(job, answer));
            let told = |message: Seq<char>| ConcatActionView::Finish(Err(message));
            &&& job.phase is Output && !job.setup.overwrite ==> failed(
                ConcatAnswerView::Exists(true),
            ) == told(
                "输出文件 `"@ + job.setup.output_shown
                    + "` 已存在；使用 --overwrite 覆盖"@,
            )
            &&& job.phase matches ConcatPhaseView::Input(i) ==> failed(
                ConcatAnswerView::InputFile(false),
            ) == told(
                "输入文件 `"@ + job.setup.inputs_shown[i as int]
                    + "` 不存在或不是普通文件"@,
            )
            &&& job.phase matches ConcatPhaseView::Resolve(i) ==> failed(
                ConcatAnswerView::Failed(cause),
            ) == told(
                "无法解析输入文件 `"@ + job.setup.inputs_shown[i as int] + "`："@ + cause,
            )
            &&& job.phase is ResolveOutput ==> failed(ConcatAnswerView::Failed(cause)) == told(
                "无法解析输出文件路径 `"@ + job.setup.output_shown + "`："@ + cause,
            )
            &&& job.phase is CurrentDir ==> failed(ConcatAnswerView::Failed(cause)) == told(
                "无法获取当前目录："@ + cause,
            )
            &&& job.phase is Parent ==> failed(ConcatAnswerView::Failed(cause)) == told(
                "无法创建目录 `"@ + job.setup.parent_shown->0 + "`："@ + cause,
            )
            &&& job.phase is WriteHeader || job.phase is WriteLine || job.phase is Flush ==> failed(
                ConcatAnswerView::Failed(cause),
            ) == told("写入临时拼接清单 `"@ + job.list_shown + "` 失败："@ + cause)
        }),
{
}

/// What the contracts see of what a job wants done is all of it.
pub proof fn law_concat_action_views(
    word: String,
    i: usize,
    command: Vec<ConcatPart>,
    error: AppError,
)
    ensures
        ConcatPart::Text(word)@ == ConcatPartView::Text(word@),
        ConcatPart::List@ == ConcatPartView::List,
        ConcatPart::Output@ == ConcatPartView::Output,
        ConcatAction::CheckOutput@ == ConcatActionView::CheckOutput,
        ConcatAction::CheckInput(i)@ == ConcatActionView::CheckInput(i as nat),
        ConcatAction::ResolveInput(i)@ == ConcatActionView::ResolveInput(i as nat),
        ConcatAction::ResolveOutput@ == ConcatActionView::ResolveOutput,
        ConcatAction::JoinCurrentDir@ == ConcatActionView::JoinCurrentDir,
        ConcatAction::CompareInput(i)@ == ConcatActionView::CompareInput(i as nat),
        ConcatAction::CreateParent@ == ConcatActionView::CreateParent,
        ConcatAction::CreateList(word)@ == ConcatActionView::CreateList(word@),
        ConcatAction::WriteList(word)@ == ConcatActionView::WriteList(word@),
        ConcatAction::FlushList@ == ConcatActionView::FlushList,
        ConcatAction::Run(command)@ == ConcatActionView::Run(
            Seq::new(command@.len(), |k: int| command@[k]@),
        ),
        ConcatAction::CheckGenerated@ == ConcatActionView::CheckGenerated,
        ConcatAction::RemoveList@ == ConcatActionView::RemoveList,
        ConcatAction::Finish(Ok(()))@ == ConcatActionView::Finish(Ok(())),
        ConcatAction::Finish(Err(error))@ == ConcatActionView::Finish(Err(error@)),
{
    assert(concat_parts(command@) == Seq::new(command@.len(), |k: int| command@[k]@));
}

/// What the contracts see of what a job is answered, and of what it is about, is all of it.
pub proof fn law_concat_answer_views(
    yes: bool,
    path: Option<String>,
    word: String,
    other: String,
    error: AppError,
    setup: ConcatSetup,
)
    ensures
        ConcatAnswer::Exists(yes)@ == ConcatAnswerView::Exists(yes),
        ConcatAnswer::InputFile(yes)@ == ConcatAnswerView::InputFile(yes),
        path is Some ==> ConcatAnswer::Resolved(path)@ == ConcatAnswerView::Resolved(
            Some(path->0@),
        ),
        path is None ==> ConcatAnswer::Resolved(path)@ == ConcatAnswerView::Resolved(None),
        ConcatAnswer::Done@ == ConcatAnswerView::Done,
        ConcatAnswer::Failed(word)@ == ConcatAnswerView::Failed(word@),
        ConcatAnswer::SamePath(yes)@ == ConcatAnswerView::SamePath(yes),
        ConcatAnswer::ListCreated(word)@ == ConcatAnswerView::ListCreated(word@),
        ConcatAnswer::ListExists@ == ConcatAnswerView::ListExists,
        (ConcatAnswer::ListFailed { shown: word, cause: other })@ == (
        ConcatAnswerView::ListFailed { shown: word@, cause: other@ }),
        ConcatAnswer::Refused(error)@ == ConcatAnswerView::Refused(error@),
        ConcatAnswer::Generated(yes)@ == ConcatAnswerView::Generated(yes),
        setup@.has_extension == setup.has_extension,
        setup@.output_shown == setup.output_shown@,
        setup@.output_absolute == setup.output_absolute,
        setup@.parent_shown == cli::text_of(setup.parent_shown),
        setup@.inputs_shown == text::texts(setup.inputs_shown@),
        setup@.overwrite == setup.overwrite,
        setup@.process == setup.process,
        setup@.nonce == setup.nonce,
{
}

/// Whether an answer fits what a job waits for.
pub open spec fn concat_fits(phase: ConcatPhaseView, answer: ConcatAnswerView) -> bool {
    match answer {
        ConcatAnswerView::Exists(_) => phase is Output || phase is OutputPath,
        ConcatAnswerView::InputFile(_) => phase is Input,
        ConcatAnswerView::Resolved(_) => phase is Resolve,
        ConcatAnswerView::Done => phase is ResolveOutput || phase is CurrentDir || phase is Parent
            || phase is WriteHeader || phase is WriteLine || phase is Flush || phase is Run || phase
            is RemoveList,
        ConcatAnswerView::Failed(_) => phase is Resolve || phase is ResolveOutput || phase
            is CurrentDir || phase is Parent || phase is WriteHeader || phase is WriteLine || phase
            is Flush,
        ConcatAnswerView::SamePath(_) => phase is Compare,
        ConcatAnswerView::ListCreated(_) => phase is CreateList,
        ConcatAnswerView::ListExists => phase is CreateList,
        ConcatAnswerView::ListFailed { .. } => phase is CreateList,
        ConcatAnswerView::Refused(_) => phase is Run,
        ConcatAnswerView::Generated(_) => phase is Generated,
    }
}

/// An answer that does not fit changes nothing, and one that fits lets the job go on.
pub proof fn law_concat_unfit_answers(job: ConcatJobView, answer: ConcatAnswerView)
    requires
        is_sound_concat(job),
    ensures
        !concat_fits(job.phase, answer) ==> concat_step(job, answer) == job,
        concat_fits(job.phase, answer) ==> concat_step(job, answer).phase != job.phase,
{
}

/// What is settled stays: what the job is about always, the paths of the inputs and how the list
/// is shown once they are known.
pub proof fn law_concat_settled_stays(job: ConcatJobView, answer: ConcatAnswerView)
    ensures
        concat_step(job, answer).setup == job.setup,
        !(job.phase is Resolve) ==> concat_step(job, answer).paths == job.paths,
        !(job.phase is CreateList) ==> concat_step(job, answer).list_shown == job.list_shown,
        !(job.phase is Generated) ==> concat_step(job, answer).made == job.made,
{
}

} // verus!
