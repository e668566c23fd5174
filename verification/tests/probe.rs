use vidsplice::ffmpeg::{read_packet_layout, PacketLayout, ProgramOutcome, StreamReport};
use vidsplice::probe::{ProbeAction, ProbeAnswer, ProbeJob};

fn fine() -> ProgramOutcome {
    ProgramOutcome::Exited(true, "exit status: 0".to_owned())
}

fn stream(stdout: &str) -> StreamReport {
    StreamReport::Finished {
        success: true,
        status: "exit status: 0".to_owned(),
        stdout: stdout.as_bytes().to_vec(),
        stderr: Vec::new(),
    }
}

/// A job that is about to read the list of packets.
fn reading(stream_number: &str) -> ProbeJob {
    let job = ProbeJob::start("ffprobe");
    let job = job.answer(ProbeAnswer::Ended(fine()));
    let job = job.answer(ProbeAnswer::Stream(stream(stream_number)));
    job.answer(ProbeAnswer::Started(true))
}

fn message(job: ProbeJob) -> String {
    assert!(matches!(job.action(), ProbeAction::Finish));
    let job = job.answer(ProbeAnswer::Stopped);
    job.result().unwrap_err().message().to_owned()
}

fn offsets(layout: &PacketLayout) -> Vec<(u64, u128)> {
    layout
        .keyframes
        .iter()
        .map(|boundary| (boundary.elapsed_micros, boundary.payload_offset))
        .collect()
}

#[test]
fn what_ffprobe_is_asked() {
    let job = ProbeJob::start("ffprobe");
    match job.action() {
        ProbeAction::RunVersion(arg) => assert_eq!(arg, "-version"),
        other => panic!("{other:?}"),
    }
    let job = job.answer(ProbeAnswer::Ended(fine()));
    match job.action() {
        ProbeAction::RunStream(args) => assert_eq!(
            args,
            vec![
                "-v", "error", "-select_streams", "v:0", "-show_entries", "stream=index", "-of",
                "default=noprint_wrappers=1:nokey=1",
            ]
        ),
        other => panic!("{other:?}"),
    }
    let job = job.answer(ProbeAnswer::Stream(stream("0\n")));
    match job.action() {
        ProbeAction::Start(args) => assert_eq!(
            args,
            vec![
                "-v", "error", "-show_packets", "-show_entries",
                "packet=stream_index,pts_time,size,flags", "-of", "compact=p=0:nk=0",
            ]
        ),
        other => panic!("{other:?}"),
    }
    let job = job.answer(ProbeAnswer::Started(true));
    assert!(matches!(job.action(), ProbeAction::ReadLine));
    let job = job.answer(ProbeAnswer::Stopped);
    assert!(matches!(job.action(), ProbeAction::ReadLine));
}

#[test]
fn lines_are_read_to_a_layout() {
    let lines: Vec<String> = [
        "stream_index=1|pts_time=0|size=10|flags=K_",
        "stream_index=0|pts_time=0|size=5|flags=K_",
        "",
        "stream_index=1|pts_time=2.5|size=20|flags=K_",
        "stream_index=1|pts_time=5|size=30|flags=K_",
    ]
    .iter()
    .map(|line| line.to_string())
    .collect();
    let mut job = reading("1\n");
    for (index, line) in lines.iter().enumerate() {
        assert_eq!(job.packet_number(), index as u64);
        job = job.answer(ProbeAnswer::Line(line.clone()));
    }
    let job = job.answer(ProbeAnswer::LastLine);
    assert!(matches!(job.action(), ProbeAction::Wait));
    let layout = job.answer(ProbeAnswer::Ended(fine())).result().unwrap();
    let whole = read_packet_layout(&lines, 1).unwrap();
    assert_eq!(layout.total_payload_bytes, 65);
    assert_eq!(layout.total_payload_bytes, whole.total_payload_bytes);
    assert_eq!(offsets(&layout), vec![(2_500_000, 15), (5_000_000, 35)]);
    assert_eq!(offsets(&layout), offsets(&whole));
}

#[test]
fn ffprobe_is_stopped_where_its_report_cannot_be_used() {
    let job = reading("0").answer(ProbeAnswer::Line("x".to_owned()));
    assert!(matches!(job.action(), ProbeAction::Stop));
    // What comes after that is not read.
    let job = job.answer(ProbeAnswer::Line("y".to_owned()));
    let job = job.answer(ProbeAnswer::Stopped);
    assert!(matches!(job.action(), ProbeAction::Wait));
    let killed = ProgramOutcome::Exited(false, "signal: 9".to_owned());
    assert_eq!(
        message(job.answer(ProbeAnswer::Ended(killed))),
        "第 1 个媒体包缺少流编号"
    );

    let job = reading("0").answer(ProbeAnswer::LineFailed("invalid".to_owned()));
    assert!(matches!(job.action(), ProbeAction::Stop));
    let job = job.answer(ProbeAnswer::Stopped).answer(ProbeAnswer::Ended(fine()));
    assert_eq!(message(job), "读取 ffprobe 第 1 个媒体包失败：invalid");

    let job = reading("0").answer(ProbeAnswer::LastLine);
    assert!(matches!(job.action(), ProbeAction::Stop));
    let job = job.answer(ProbeAnswer::Stopped).answer(ProbeAnswer::Ended(fine()));
    assert_eq!(message(job), "ffprobe 未返回可用的媒体包");
}

#[test]
fn what_can_go_wrong_when_probing() {
    let gone = || ProgramOutcome::Failed("gone".to_owned());
    let job = ProbeJob::start("p").answer(ProbeAnswer::Ended(gone()));
    assert_eq!(
        message(job),
        "无法运行 `p`：gone。请安装 ffprobe 或设置 FFPROBE_BIN"
    );
    let bad = ProgramOutcome::Exited(false, "exit status: 2".to_owned());
    let job = ProbeJob::start("p").answer(ProbeAnswer::Ended(bad));
    assert_eq!(message(job), "`p` 不可用（退出状态：exit status: 2）");

    let asked = || ProbeJob::start("p").answer(ProbeAnswer::Ended(fine()));
    let job = asked().answer(ProbeAnswer::Stream(stream("")));
    assert_eq!(message(job), "按大小分片需要至少一个视频流");
    let broken = StreamReport::Finished {
        success: false,
        status: "exit status: 1".to_owned(),
        stdout: Vec::new(),
        stderr: b"moov \xc3 atom\n".to_vec(),
    };
    let job = asked().answer(ProbeAnswer::Stream(broken));
    assert_eq!(
        message(job),
        "ffprobe 无法读取视频流（退出状态：exit status: 1）：moov \u{fffd} atom"
    );

    let found = || asked().answer(ProbeAnswer::Stream(stream("0")));
    let job = found().answer(ProbeAnswer::NotStarted("busy".to_owned()));
    assert_eq!(message(job), "启动 `p` 失败：busy");
    assert_eq!(
        message(found().answer(ProbeAnswer::Started(false))),
        "无法读取 ffprobe 输出"
    );

    let read = || {
        reading("0")
            .answer(ProbeAnswer::Line(
                "stream_index=0|pts_time=1|size=1|flags=K".to_owned(),
            ))
            .answer(ProbeAnswer::LastLine)
    };
    assert_eq!(
        message(read().answer(ProbeAnswer::Ended(gone()))),
        "等待 ffprobe 结束失败：gone"
    );
    let bad = ProgramOutcome::Exited(false, "exit status: 3".to_owned());
    assert_eq!(
        message(read().answer(ProbeAnswer::Ended(bad))),
        "ffprobe 分析失败（退出状态：exit status: 3）"
    );
}
