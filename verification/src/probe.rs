//! Probing a video for its packets: what to ask ffprobe next, and what its answers mean.
//!
//! A `ProbeJob` says what it wants done in `action`; whoever runs it does that and tells the job
//! how it went with `answer`, until the action is to finish.

use vstd::prelude::*;

use crate::error;
use crate::error::{AppError, Result};
use crate::ffmpeg;
use crate::ffmpeg::{
    ensure_program, parse_reference_stream, probe_result, start_error, LayoutReader, PacketLayout,
    ProgramOutcome, StreamReport,
};
use crate::text;

verus! {

// ---------------------------------------------------------------------------
// Actions and answers
// ---------------------------------------------------------------------------

/// What a job wants done. Where it holds arguments, the path of the input stands behind them.
#[derive(Debug)]
pub enum ProbeAction {
    /// Run ffprobe with this argument alone, its output thrown away. The answer is `Ended`.
    RunVersion(String),
    /// Run ffprobe and keep its output. The answer is `Stream`.
    RunStream(Vec<String>),
    /// Start ffprobe. The answer is `Started` or `NotStarted`.
    Start(Vec<String>),
    /// Read a line of its output. The answer is `Line`, `LineFailed` or `LastLine`.
    ReadLine,
    /// Stop it. The answer is `Stopped`, however that went.
    Stop,
    /// Wait until it ends. The answer is `Ended`.
    Wait,
    /// Nothing more: the job has its result.
    Finish,
}

/// How what a job wanted done went.
#[derive(Debug)]
pub enum ProbeAnswer {
    /// How ffprobe ended.
    Ended(ProgramOutcome),
    /// How ffprobe ended, and what it wrote.
    Stream(StreamReport),
    /// It was started; whether its output can be read.
    Started(bool),
    /// It was not started; the cause.
    NotStarted(String),
    /// A line of its output, without the line break.
    Line(String),
    /// A line could not be read; the cause.
    LineFailed(String),
    /// There are no more lines.
    LastLine,
    /// It was told to stop.
    Stopped,
}

/// What a job waits for.
#[derive(Clone, Copy, Debug)]
pub enum ProbePhase {
    Version,
    Stream,
    Start,
    Read,
    Stop,
    Wait,
    /// Nothing: it has its result.
    Done,
}

// ---------------------------------------------------------------------------
// As the contracts see them
// ---------------------------------------------------------------------------

/// A `ProbeAction`, as the contracts see it.
pub enum ProbeActionView {
    RunVersion(Seq<char>),
    RunStream(Seq<Seq<char>>),
    Start(Seq<Seq<char>>),
    ReadLine,
    Stop,
    Wait,
    Finish,
}

impl View for ProbeAction {
    type V = ProbeActionView;

    open spec fn view(&self) -> ProbeActionView {
        match self {
            ProbeAction::RunVersion(arg) => ProbeActionView::RunVersion(arg@),
            ProbeAction::RunStream(args) => ProbeActionView::RunStream(text::texts(args@)),
            ProbeAction::Start(args) => ProbeActionView::Start(text::texts(args@)),
            ProbeAction::ReadLine => ProbeActionView::ReadLine,
            ProbeAction::Stop => ProbeActionView::Stop,
            ProbeAction::Wait => ProbeActionView::Wait,
            ProbeAction::Finish => ProbeActionView::Finish,
        }
    }
}

/// A `ProbeAnswer`, as the contracts see it.
pub enum ProbeAnswerView {
    Ended(ffmpeg::OutcomeView),
    Stream(ffmpeg::StreamReportView),
    Started(bool),
    NotStarted(Seq<char>),
    Line(Seq<char>),
    LineFailed(Seq<char>),
    LastLine,
    Stopped,
}

impl View for ProbeAnswer {
    type V = ProbeAnswerView;

    open spec fn view(&self) -> ProbeAnswerView {
        match self {
            ProbeAnswer::Ended(outcome) => ProbeAnswerView::Ended(outcome@),
            ProbeAnswer::Stream(report) => ProbeAnswerView::Stream(report@),
            ProbeAnswer::Started(readable) => ProbeAnswerView::Started(*readable),
            ProbeAnswer::NotStarted(cause) => ProbeAnswerView::NotStarted(cause@),
            ProbeAnswer::Line(line) => ProbeAnswerView::Line(line@),
            ProbeAnswer::LineFailed(cause) => ProbeAnswerView::LineFailed(cause@),
            ProbeAnswer::LastLine => ProbeAnswerView::LastLine,
            ProbeAnswer::Stopped => ProbeAnswerView::Stopped,
        }
    }
}

/// A `ProbeJob`, as the contracts see it.
pub struct ProbeView {
    /// The program, as it is shown.
    pub binary: Seq<char>,
    pub phase: ProbePhase,
    /// What was read of the packets.
    pub reader: ffmpeg::ReaderView,
    /// The layout, as far as it is known, or why there is none.
    pub layout: std::result::Result<ffmpeg::LayoutView, Seq<char>>,
}

// ---------------------------------------------------------------------------
// What a job does
// ---------------------------------------------------------------------------

/// The arguments that make ffprobe tell the number of the first video stream.
pub open spec fn stream_arguments() -> Seq<Seq<char>> {
    seq![
        "-v"@,
        "error"@,
        "-select_streams"@,
        "v:0"@,
        "-show_entries"@,
        "stream=index"@,
        "-of"@,
        "default=noprint_wrappers=1:nokey=1"@,
    ]
}

/// The arguments that make ffprobe list the packets, one a line.
pub open spec fn packet_arguments() -> Seq<Seq<char>> {
    seq![
        "-v"@,
        "error"@,
        "-show_packets"@,
        "-show_entries"@,
        "packet=stream_index,pts_time,size,flags"@,
        "-of"@,
        "compact=p=0:nk=0"@,
    ]
}

/// A job before its first action.
pub open spec fn fresh_probe(binary: Seq<char>) -> ProbeView {
    ProbeView {
        binary,
        phase: ProbePhase::Version,
        reader: ffmpeg::fresh_reader(0),
        layout: Err(Seq::empty()),
    }
}

/// A job that has its result.
pub open spec fn probe_done(
    job: ProbeView,
    layout: std::result::Result<ffmpeg::LayoutView, Seq<char>>,
) -> ProbeView {
    ProbeView { phase: ProbePhase::Done, layout, ..job }
}

/// A job whose output needs no more reading. Where it says nothing of use, ffprobe is stopped.
pub open spec fn probe_read(
    job: ProbeView,
    layout: std::result::Result<ffmpeg::LayoutView, Seq<char>>,
) -> ProbeView {
    ProbeView {
        phase: if layout is Err {
            ProbePhase::Stop
        } else {
            ProbePhase::Wait
        },
        reader: ffmpeg::fresh_reader(job.reader.reference_stream),
        layout,
        ..job
    }
}

/// What a job wants done.
pub open spec fn probe_action(job: ProbeView) -> ProbeActionView {
    match job.phase {
        ProbePhase::Version => ProbeActionView::RunVersion("-version"@),
        ProbePhase::Stream => ProbeActionView::RunStream(stream_arguments()),
        ProbePhase::Start => ProbeActionView::Start(packet_arguments()),
        ProbePhase::Read => ProbeActionView::ReadLine,
        ProbePhase::Stop => ProbeActionView::Stop,
        ProbePhase::Wait => ProbeActionView::Wait,
        ProbePhase::Done => ProbeActionView::Finish,
    }
}

/// A job after an answer. One that does not fit what the job waits for changes nothing.
pub open spec fn probe_step(job: ProbeView, answer: ProbeAnswerView) -> ProbeView {
    match (job.phase, answer) {
        (ProbePhase::Version, ProbeAnswerView::Ended(outcome)) => match ffmpeg::program_failure(
            job.binary,
            "ffprobe"@,
            "FFPROBE_BIN"@,
            outcome,
        ) {
            Some(message) => probe_done(job, Err(message)),
            None => ProbeView { phase: ProbePhase::Stream, ..job },
        },
        (ProbePhase::Stream, ProbeAnswerView::Stream(report)) => match ffmpeg::reference_stream_of(
            job.binary,
            report,
            ffmpeg::utf8_lossy(ffmpeg::error_output(report)),
        ) {
            Err(message) => probe_done(job, Err(message)),
            Ok(stream) => ProbeView {
                phase: ProbePhase::Start,
                reader: ffmpeg::fresh_reader(stream),
                ..job
            },
        },
        (ProbePhase::Start, ProbeAnswerView::Started(readable)) => if readable {
            ProbeView { phase: ProbePhase::Read, ..job }
        } else {
            probe_done(job, Err("无法读取 ffprobe 输出"@))
        },
        (ProbePhase::Start, ProbeAnswerView::NotStarted(cause)) => probe_done(
            job,
            Err(ffmpeg::start_failure(job.binary, cause)),
        ),
        (ProbePhase::Read, ProbeAnswerView::Line(line)) => match ffmpeg::reader_step(
            job.reader,
            line,
        ) {
            Ok(reader) => ProbeView { reader, ..job },
            Err(message) => probe_read(job, Err(message)),
        },
        (ProbePhase::Read, ProbeAnswerView::LineFailed(cause)) => probe_read(
            job,
            Err(ffmpeg::read_failure_message(job.reader.packet_number + 1, cause)),
        ),
        (ProbePhase::Read, ProbeAnswerView::LastLine) => probe_read(
            job,
            ffmpeg::layout_of(job.reader),
        ),
        (ProbePhase::Stop, ProbeAnswerView::Stopped) => ProbeView {
            phase: ProbePhase::Wait,
            ..job
        },
        (ProbePhase::Wait, ProbeAnswerView::Ended(outcome)) => probe_done(
            job,
            ffmpeg::probe_result_of(job.layout, outcome),
        ),
        _ => job,
    }
}

// ---------------------------------------------------------------------------
// The job
// ---------------------------------------------------------------------------

/// A video that is being probed.
#[derive(Debug)]
pub struct ProbeJob {
    binary: String,
    phase: ProbePhase,
    reader: LayoutReader,
    layout: Result<PacketLayout>,
}

impl View for ProbeJob {
    type V = ProbeView;

    closed spec fn view(&self) -> ProbeView {
        ProbeView {
            binary: self.binary@,
            phase: self.phase,
            reader: self.reader@,
            layout: error::seen(self.layout),
        }
    }
}

fn stream_argument_list() -> (args: Vec<String>)
    ensures
        text::texts(args@) == stream_arguments(),
{
    let args: Vec<String> = vec![
        "-v".to_owned(),
        "error".to_owned(),
        "-select_streams".to_owned(),
        "v:0".to_owned(),
        "-show_entries".to_owned(),
        "stream=index".to_owned(),
        "-of".to_owned(),
        "default=noprint_wrappers=1:nokey=1".to_owned(),
    ];
    assert(text::texts(args@) == stream_arguments());
    args
}

fn packet_argument_list() -> (args: Vec<String>)
    ensures
        text::texts(args@) == packet_arguments(),
{
    let args: Vec<String> = vec![
        "-v".to_owned(),
        "error".to_owned(),
        "-show_packets".to_owned(),
        "-show_entries".to_owned(),
        "packet=stream_index,pts_time,size,flags".to_owned(),
        "-of".to_owned(),
        "compact=p=0:nk=0".to_owned(),
    ];
    assert(text::texts(args@) == packet_arguments());
    args
}

impl ProbeJob {
    /// A job before its first action. `binary` is how the program is shown.
    pub fn start(binary: &str) -> (job: ProbeJob)
        ensures
            job@ == fresh_probe(binary@),
    {
        let error = AppError::new("");
        proof {
            reveal_strlit("");
            assert(error@ == Seq::<char>::empty());
        }
        ProbeJob {
            binary: binary.to_owned(),
            phase: ProbePhase::Version,
            reader: LayoutReader::new(0),
            layout: Err(error),
        }
    }

    /// How many lines of the list of packets were read.
    pub fn packet_number(&self) -> (count: u64)
        ensures
            count == self@.reader.packet_number,
    {
        self.reader.packet_number()
    }

    fn done(self, layout: Result<PacketLayout>) -> (next: ProbeJob)
        ensures
            next@ == probe_done(self@, error::seen(layout)),
    {
        ProbeJob { phase: ProbePhase::Done, layout, ..self }
    }

    /// What the job wants done.
    pub fn action(&self) -> (action: ProbeAction)
        ensures
            action@ == probe_action(self@),
    {
        match self.phase {
            ProbePhase::Version => ProbeAction::RunVersion("-version".to_owned()),
            ProbePhase::Stream => ProbeAction::RunStream(stream_argument_list()),
            ProbePhase::Start => ProbeAction::Start(packet_argument_list()),
            ProbePhase::Read => ProbeAction::ReadLine,
            ProbePhase::Stop => ProbeAction::Stop,
            ProbePhase::Wait => ProbeAction::Wait,
            ProbePhase::Done => ProbeAction::Finish,
        }
    }

    /// The job after what it wanted done was done, and went as the answer says.
    pub fn answer(self, answer: ProbeAnswer) -> (next: ProbeJob)
        requires
            self@.reader.packet_number < u64::MAX,
        ensures
            next@ == probe_step(self@, answer@),
    {
        match (self.phase, answer) {
            (ProbePhase::Version, ProbeAnswer::Ended(outcome)) => {
                match ensure_program(self.binary.as_str(), "ffprobe", "FFPROBE_BIN", &outcome) {
                    Ok(_) => ProbeJob { phase: ProbePhase::Stream, ..self },
                    Err(error) => self.done(Err(error)),
                }
            },
            (ProbePhase::Stream, ProbeAnswer::Stream(report)) => {
                match parse_reference_stream(self.binary.as_str(), report) {
                    Ok(stream) => ProbeJob {
                        phase: ProbePhase::Start,
                        reader: LayoutReader::new(stream),
                        ..self
                    },
                    Err(error) => self.done(Err(error)),
                }
            },
            (ProbePhase::Start, ProbeAnswer::Started(readable)) => if readable {
                ProbeJob { phase: ProbePhase::Read, ..self }
            } else {
                self.done(Err(AppError::new("无法读取 ffprobe 输出")))
            },
            (ProbePhase::Start, ProbeAnswer::NotStarted(cause)) => {
                let error = start_error(self.binary.as_str(), cause.as_str());
                self.done(Err(error))
            },
            (ProbePhase::Read, ProbeAnswer::Line(line)) => {
                let ProbeJob { binary, phase, reader, layout } = self;
                let stream: u32 = reader.reference_stream();
                match reader.read_line(line.as_str()) {
                    Ok(reader) => ProbeJob { binary, phase, reader, layout },
                    Err(error) => ProbeJob {
                        binary,
                        phase: ProbePhase::Stop,
                        reader: LayoutReader::new(stream),
                        layout: Err(error),
                    },
                }
            },
            (ProbePhase::Read, ProbeAnswer::LineFailed(cause)) => {
                let error = self.reader.read_failure(cause.as_str());
                let stream: u32 = self.reader.reference_stream();
                ProbeJob {
                    phase: ProbePhase::Stop,
                    reader: LayoutReader::new(stream),
                    layout: Err(error),
                    ..self
                }
            },
            (ProbePhase::Read, ProbeAnswer::LastLine) => {
                let ProbeJob { binary, phase, reader, layout } = self;
                let stream: u32 = reader.reference_stream();
                match reader.finish() {
                    Ok(layout) => ProbeJob {
                        binary,
                        phase: ProbePhase::Wait,
                        reader: LayoutReader::new(stream),
                        layout: Ok(layout),
                    },
                    Err(error) => ProbeJob {
                        binary,
                        phase: ProbePhase::Stop,
                        reader: LayoutReader::new(stream),
                        layout: Err(error),
                    },
                }
            },
            (ProbePhase::Stop, ProbeAnswer::Stopped) => ProbeJob {
                phase: ProbePhase::Wait,
                ..self
            },
            (ProbePhase::Wait, ProbeAnswer::Ended(outcome)) => {
                let ProbeJob { binary, phase, reader, layout } = self;
                ProbeJob {
                    binary,
                    phase: ProbePhase::Done,
                    reader,
                    layout: probe_result(layout, &outcome),
                }
            },
            _ => self,
        }
    }

    /// What the job found, once its action is to finish.
    pub fn result(self) -> (r: Result<PacketLayout>)
        ensures
            error::seen(r) == self@.layout,
    {
        self.layout
    }
}

// ---------------------------------------------------------------------------
// Laws
// ---------------------------------------------------------------------------

/// A job that has read lines.
pub open spec fn probe_after_lines(job: ProbeView, lines: Seq<Seq<char>>) -> ProbeView
    decreases lines.len(),
{
    if lines.len() == 0 {
        job
    } else {
        probe_step(
            probe_after_lines(job, lines.drop_last()),
            ProbeAnswerView::Line(lines.last()),
        )
    }
}

proof fn lemma_probe_lines(job: ProbeView, lines: Seq<Seq<char>>, stream: nat)
    requires
        job.phase is Read,
        job.reader == ffmpeg::fresh_reader(stream),
    ensures
        ({
            let end = probe_after_lines(job, lines);
            match ffmpeg::read_lines(lines, stream) {
                Ok(reader) => end == (ProbeView { reader, ..job }) && reader.reference_stream
                    == stream,
                Err(message) => end == probe_read(job, Err(message)),
            }
        }),
    decreases lines.len(),
{
    if lines.len() > 0 {
        lemma_probe_lines(job, lines.drop_last(), stream);
    }
}

/// A job that reads the lines of a report one by one finds the layout that they describe, and
/// stops ffprobe exactly where they describe none.
pub proof fn law_probe_reads_layout(job: ProbeView, lines: Seq<Seq<char>>, stream: nat)
    requires
        job.phase is Read,
        job.reader == ffmpeg::fresh_reader(stream),
    ensures
        probe_step(probe_after_lines(job, lines), ProbeAnswerView::LastLine) == probe_read(
            job,
            ffmpeg::packet_layout(lines, stream),
        ),
{
    lemma_probe_lines(job, lines, stream);
}

/// A job after all of the answers.
pub open spec fn probe_after_all(binary: Seq<char>, answers: Seq<ProbeAnswerView>) -> ProbeView
    decreases answers.len(),
{
    if answers.len() == 0 {
        fresh_probe(binary)
    } else {
        probe_step(probe_after_all(binary, answers.drop_last()), answers.last())
    }
}

proof fn lemma_probe_in_order(binary: Seq<char>, answers: Seq<ProbeAnswerView>)
    ensures
        ({
            let job = probe_after_all(binary, answers);
            &&& ffmpeg::are_in_order(job.reader.keyframes, job.reader.total_payload_bytes)
            &&& job.reader.total_payload_bytes <= u128::MAX
            &&& job.layout matches Ok(layout) ==> ffmpeg::are_in_order(
                layout.keyframes,
                layout.total_payload_bytes,
            ) && 0 < layout.total_payload_bytes <= u128::MAX
        }),
    decreases answers.len(),
{
    if answers.len() > 0 {
        let before = probe_after_all(binary, answers.drop_last());
        lemma_probe_in_order(binary, answers.drop_last());
        match answers.last() {
            ProbeAnswerView::Line(line) => {
                ffmpeg::law_line_keeps_order(before.reader, line);
            },
            _ => {},
        }
    }
}

/// Whatever ffprobe answers, a layout that is found has some payload and boundaries in order.
pub proof fn law_probe_in_order(binary: Seq<char>, answers: Seq<ProbeAnswerView>)
    ensures
        probe_after_all(binary, answers).layout matches Ok(layout) ==> ffmpeg::are_in_order(
            layout.keyframes,
            layout.total_payload_bytes,
        ) && 0 < layout.total_payload_bytes <= u128::MAX,
{
    lemma_probe_in_order(binary, answers);
}

/// A job that has its result is not changed by any answer.
pub proof fn law_probe_end(job: ProbeView, answer: ProbeAnswerView)
    requires
        probe_action(job) is Finish,
    ensures
        probe_step(job, answer) == job,
{
}

/// What ffprobe is asked, word by word: its version, then the number of the first video stream,
/// then the stream, the time, the size and the flags of every packet.
pub proof fn law_probe_asks(job: ProbeView)
    ensures
        job.phase is Version ==> probe_action(job) == ProbeActionView::RunVersion("-version"@),
        job.phase is Stream ==> probe_action(job) == ProbeActionView::RunStream(
            seq![
                "-v"@,
                "error"@,
                "-select_streams"@,
                "v:0"@,
                "-show_entries"@,
                "stream=index"@,
                "-of"@,
                "default=noprint_wrappers=1:nokey=1"@,
            ],
        ),
        job.phase is Start ==> probe_action(job) == ProbeActionView::Start(
            seq![
                "-v"@,
                "error"@,
                "-show_packets"@,
                "-show_entries"@,
                "packet=stream_index,pts_time,size,flags"@,
                "-of"@,
                "compact=p=0:nk=0"@,
            ],
        ),
        probe_action(job) is ReadLine <==> job.phase is Read,
        probe_action(job) is Stop <==> job.phase is Stop,
        probe_action(job) is Wait <==> job.phase is Wait,
        probe_action(job) is Finish <==> job.phase is Done,
{
}

/// A probe in which every program can be run, from its start to its end: it finds what the lines
/// of the report describe, for the stream that ffprobe named.
pub proof fn law_probe_finds_layout(
    binary: Seq<char>,
    version: Seq<char>,
    report: ffmpeg::StreamReportView,
    stream: nat,
    lines: Seq<Seq<char>>,
    outcome: ffmpeg::OutcomeView,
)
    requires
        ffmpeg::reference_stream_of(
            binary,
            report,
            ffmpeg::utf8_lossy(ffmpeg::error_output(report)),
        ) == Ok::<nat, Seq<char>>(stream),
    ensures
        ({
            let asked = probe_step(
                fresh_probe(binary),
                ProbeAnswerView::Ended(ffmpeg::OutcomeView::Exited(true, version)),
            );
            let found = probe_step(asked, ProbeAnswerView::Stream(report));
            let started = probe_step(found, ProbeAnswerView::Started(true));
            let read = probe_step(probe_after_lines(started, lines), ProbeAnswerView::LastLine);
            let layout = ffmpeg::packet_layout(lines, stream);
            let ended = if layout is Ok {
                probe_step(read, ProbeAnswerView::Ended(outcome))
            } else {
                probe_step(
                    probe_step(read, ProbeAnswerView::Stopped),
                    ProbeAnswerView::Ended(outcome),
                )
            };
            &&& fresh_probe(binary).phase is Version
            &&& asked.phase is Stream
            &&& found.phase is Start
            &&& started.phase is Read
            &&& layout is Ok <==> read.phase is Wait
            &&& layout is Err <==> read.phase is Stop
            &&& ended.phase is Done
            &&& ended.layout == ffmpeg::probe_result_of(layout, outcome)
        }),
{
    let asked = probe_step(
        fresh_probe(binary),
        ProbeAnswerView::Ended(ffmpeg::OutcomeView::Exited(true, version)),
    );
    let found = probe_step(asked, ProbeAnswerView::Stream(report));
    let started = probe_step(found, ProbeAnswerView::Started(true));
    law_probe_reads_layout(started, lines, stream);
}

/// Whatever cannot be done ends a probe with a message that says so, in the program's name.
pub proof fn law_probe_refusals(job: ProbeView, outcome: ffmpeg::OutcomeView, cause: Seq<char>)
    ensures
        job.phase is Version && !(outcome matches ffmpeg::OutcomeView::Exited(success, _)
            && success) ==> {
            let next = probe_step(job, ProbeAnswerView::Ended(outcome));
            &&& next.phase is Done
            &&& next.layout is Err
            &&& Some(next.layout->Err_0) == ffmpeg::program_failure(
                job.binary,
                "ffprobe"@,
                "FFPROBE_BIN"@,
                outcome,
            )
        },
        job.phase is Start ==> {
            let unread = probe_step(job, ProbeAnswerView::Started(false));
            let gone = probe_step(job, ProbeAnswerView::NotStarted(cause));
            &&& unread.phase is Done && gone.phase is Done
            &&& unread.layout == Err::<ffmpeg::LayoutView, Seq<char>>("无法读取 ffprobe 输出"@)
            &&& gone.layout == Err::<ffmpeg::LayoutView, Seq<char>>(
                "启动 `"@ + job.binary + "` 失败："@ + cause,
            )
        },
        job.phase is Read ==> {
            let broken = probe_step(job, ProbeAnswerView::LineFailed(cause));
            &&& broken.phase is Stop
            &&& broken.layout == Err::<ffmpeg::LayoutView, Seq<char>>(
                "读取 ffprobe 第 "@ + text::decimal(job.reader.packet_number + 1)
                    + " 个媒体包失败："@ + cause,
            )
        },
{
}

/// What the contracts see of what a job wants done and of what it is answered is all of it.
pub proof fn law_probe_views(
    word: String,
    args: Vec<String>,
    outcome: ProgramOutcome,
    report: StreamReport,
    yes: bool,
)
    ensures
        ProbeAction::RunVersion(word)@ == ProbeActionView::RunVersion(word@),
        ProbeAction::RunStream(args)@ == ProbeActionView::RunStream(text::texts(args@)),
        ProbeAction::Start(args)@ == ProbeActionView::Start(text::texts(args@)),
        ProbeAction::ReadLine@ == ProbeActionView::ReadLine,
        ProbeAction::Stop@ == ProbeActionView::Stop,
        ProbeAction::Wait@ == ProbeActionView::Wait,
        ProbeAction::Finish@ == ProbeActionView::Finish,
        ProbeAnswer::Ended(outcome)@ == ProbeAnswerView::Ended(outcome@),
        ProbeAnswer::Stream(report)@ == ProbeAnswerView::Stream(report@),
        ProbeAnswer::Started(yes)@ == ProbeAnswerView::Started(yes),
        ProbeAnswer::NotStarted(word)@ == ProbeAnswerView::NotStarted(word@),
        ProbeAnswer::Line(word)@ == ProbeAnswerView::Line(word@),
        ProbeAnswer::LineFailed(word)@ == ProbeAnswerView::LineFailed(word@),
        ProbeAnswer::LastLine@ == ProbeAnswerView::LastLine,
        ProbeAnswer::Stopped@ == ProbeAnswerView::Stopped,
{
}

/// Whether an answer fits what a job waits for.
pub open spec fn probe_fits(phase: ProbePhase, answer: ProbeAnswerView) -> bool {
    match answer {
        ProbeAnswerView::Ended(_) => phase is Version || phase is Wait,
        ProbeAnswerView::Stream(_) => phase is Stream,
        ProbeAnswerView::Started(_) => phase is Start,
        ProbeAnswerView::NotStarted(_) => phase is Start,
        ProbeAnswerView::Line(_) => phase is Read,
        ProbeAnswerView::LineFailed(_) => phase is Read,
        ProbeAnswerView::LastLine => phase is Read,
        ProbeAnswerView::Stopped => phase is Stop,
    }
}

/// An answer that does not fit changes nothing, and the program stays the one that was named.
pub proof fn law_probe_unfit_answers(job: ProbeView, answer: ProbeAnswerView)
    ensures
        !probe_fits(job.phase, answer) ==> probe_step(job, answer) == job,
        probe_step(job, answer).binary == job.binary,
{
}

} // verus!
