//! FFmpeg and ffprobe: what they are asked, and what their answers mean.

use vstd::prelude::*;
use vstd::string::StrSliceExecFns;
use vstd::string::StringExecFns;

use crate::error;
use crate::error::{AppError, Result};
use crate::text;
use crate::text::{
    contains_char, decimal_text, join_texts, parse_number, parse_unsigned, replace, same_text,
    split_on, ten_to_the, to_chars, trim,
};

verus! {

// ---------------------------------------------------------------------------
// The layout of a media file
// ---------------------------------------------------------------------------

/// A key frame at which a video can be cut.
#[derive(Clone, Copy, Debug)]
pub struct KeyframeBoundary {
    /// The time since the first key frame.
    pub elapsed_micros: u64,
    /// The payload bytes before the key frame.
    pub payload_offset: u128,
}

/// The key frames of a media file and the size of its payload.
#[derive(Debug)]
pub struct PacketLayout {
    pub total_payload_bytes: u128,
    pub keyframes: Vec<KeyframeBoundary>,
}

/// A `PacketLayout`, as the contracts see it.
pub struct LayoutView {
    pub total_payload_bytes: nat,
    pub keyframes: Seq<KeyframeBoundary>,
}

impl View for PacketLayout {
    type V = LayoutView;

    open spec fn view(&self) -> LayoutView {
        LayoutView {
            total_payload_bytes: self.total_payload_bytes as nat,
            keyframes: self.keyframes@,
        }
    }
}

/// One media packet, as ffprobe reports it.
#[derive(Debug)]
pub struct ProbePacket {
    pub stream_index: u32,
    pub pts_micros: Option<i64>,
    pub size: u64,
    pub flags: String,
}

/// A `ProbePacket`, as the contracts see it.
pub struct PacketView {
    pub stream_index: nat,
    pub pts_micros: Option<int>,
    pub size: nat,
    pub flags: Seq<char>,
}

impl View for ProbePacket {
    type V = PacketView;

    open spec fn view(&self) -> PacketView {
        PacketView {
            stream_index: self.stream_index as nat,
            pts_micros: match self.pts_micros {
                Some(micros) => Some(micros as int),
                None => None,
            },
            size: self.size as nat,
            flags: self.flags@,
        }
    }
}

// ---------------------------------------------------------------------------
// Times
// ---------------------------------------------------------------------------

/// A message about the packet with the given number.
pub open spec fn packet_message(packet_number: nat, what: Seq<char>) -> Seq<char> {
    "第 "@ + text::decimal(packet_number) + what
}

/// A message about the time of the packet with the given number.
pub open spec fn packet_time_message(
    packet_number: nat,
    value: Seq<char>,
    what: Seq<char>,
) -> Seq<char> {
    packet_message(packet_number, " 个媒体包的时间戳 `"@) + value + what
}

/// Whether `value` is seconds with up to six decimals; decimals and a minus sign are optional.
pub open spec fn is_probe_time(value: Seq<char>) -> bool {
    let parts = text::split(without_sign(value), '.');
    &&& parts.len() <= 2
    &&& text::is_number(parts[0])
    &&& parts.len() == 2 ==> parts[1].len() <= 6 && text::all_digits(parts[1])
}

pub open spec fn is_negative(value: Seq<char>) -> bool {
    value.len() > 0 && value[0] == '-'
}

/// `value` without a minus sign at its start.
pub open spec fn without_sign(value: Seq<char>) -> Seq<char> {
    if is_negative(value) {
        value.skip(1)
    } else {
        value
    }
}

/// The microseconds of seconds with up to six decimals and no sign.
pub open spec fn micros_of(seconds: Seq<char>) -> nat {
    let parts = text::split(seconds, '.');
    let millionths = if parts.len() == 2 {
        text::number(parts[1]) * text::power_of_ten((6 - parts[1].len()) as nat)
    } else {
        0
    };
    text::number(parts[0]) * 1_000_000 + millionths
}

/// The microseconds that ffprobe's time of a packet stands for.
pub open spec fn probe_time(value: Seq<char>, packet_number: nat) -> std::result::Result<
    int,
    Seq<char>,
> {
    if !is_probe_time(value) {
        Err(packet_time_message(packet_number, value, "` 无效"@))
    } else {
        let magnitude = micros_of(without_sign(value));
        let micros = if is_negative(value) {
            -(magnitude as int)
        } else {
            magnitude as int
        };
        if i64::MIN <= micros <= i64::MAX {
            Ok(micros)
        } else {
            Err(packet_time_message(packet_number, value, "` 过大"@))
        }
    }
}

fn packet_error(packet_number: u64, what: &str) -> (e: AppError)
    ensures
        e@ == packet_message(packet_number as nat, what@),
{
    AppError::about("第 ", decimal_text(packet_number as u128).as_str(), what)
}

fn packet_time_error(packet_number: u64, value: &str, what: &str) -> (e: AppError)
    ensures
        e@ == packet_time_message(packet_number as nat, value@, what@),
{
    AppError::about_two(
        "第 ",
        decimal_text(packet_number as u128).as_str(),
        " 个媒体包的时间戳 `",
        value,
        what,
    )
}

/// The value of up to six digits behind a decimal point, in millionths.
fn parse_millionths(digits: &str) -> (r: Option<u128>)
    ensures
        r is Some == (digits@.len() <= 6 && text::all_digits(digits@)),
        r matches Some(millionths) ==> millionths == text::number(digits@) * text::power_of_ten(
            (6 - digits@.len()) as nat,
        ) && millionths < 1_000_000_000_000,
{
    let length = digits.unicode_len();
    if length > 6 {
        return None;
    }
    if length == 0 {
        assert(digits@ == Seq::<char>::empty());
        return Some(0);
    }
    proof {
        if text::all_digits(digits@) {
            text::lemma_number_bound(digits@);
        }
        text::lemma_power_of_ten_monotonic(digits@.len(), 6);
        text::lemma_power_of_ten_monotonic((6 - digits@.len()) as nat, 6);
        assert(text::power_of_ten(6) == 1_000_000) by {
            reveal_with_fuel(text::power_of_ten, 7);
        }
    }
    match parse_number(digits, 999_999) {
        Some(value) => {
            let power: u128 = ten_to_the(6 - length) as u128;
            assert(0 <= value * power < 1_000_000_000_000) by (nonlinear_arith)
                requires
                    0 <= value <= 999_999,
                    0 < power <= 1_000_000,
            ;
            Some(value * power)
        },
        None => None,
    }
}

/// The microseconds that ffprobe's time of a packet stands for.
pub fn parse_probe_time_micros(value: &str, packet_number: u64) -> (r: Result<i64>)
    ensures
        (match r {
            Ok(micros) => Ok(micros as int),
            Err(error) => Err(error@),
        }) == probe_time(value@, packet_number as nat),
{
    let length = value.unicode_len();
    let negative: bool = length > 0 && value.get_char(0) == '-';
    let unsigned = if negative {
        value.substring_char(1, length)
    } else {
        value
    };
    assert(unsigned@ == without_sign(value@));
    let parts = split_on(unsigned, '.');
    let ghost pieces = text::texts(parts@);
    assert(pieces[0] == parts@[0]@);
    if parts.len() > 2 || !text::is_number_text(parts[0].as_str()) {
        return Err(packet_time_error(packet_number, value, "` 无效"));
    }
    let mut millionths: u128 = 0;
    if parts.len() == 2 {
        assert(pieces[1] == parts@[1]@);
        millionths = match parse_millionths(parts[1].as_str()) {
            Some(millionths) => millionths,
            None => {
                return Err(packet_time_error(packet_number, value, "` 无效"));
            },
        };
    }
    // Ten to the thirteenth seconds are more microseconds than 64 bits hold.
    let whole: u128 = match parse_number(parts[0].as_str(), 10_000_000_000_000) {
        Some(whole) => whole,
        None => {
            return Err(packet_time_error(packet_number, value, "` 过大"));
        },
    };
    let magnitude: u128 = whole * 1_000_000 + millionths;
    if negative && magnitude <= 0x8000_0000_0000_0000 {
        Ok((-(magnitude as i128)) as i64)
    } else if !negative && magnitude <= i64::MAX as u128 {
        Ok(magnitude as i64)
    } else {
        Err(packet_time_error(packet_number, value, "` 过大"))
    }
}

// ---------------------------------------------------------------------------
// Packets
// ---------------------------------------------------------------------------

/// What the fields of a packet have said so far.
pub struct PacketScan {
    pub stream_index: Option<nat>,
    pub pts_micros: Option<int>,
    pub size: Option<nat>,
    pub flags: Seq<char>,
}

/// The value of a field that holds an unsigned integer of at most `limit`.
pub open spec fn bounded(value: Seq<char>, limit: nat) -> Option<nat> {
    match text::unsigned_value(value) {
        Some(number) if number <= limit => Some(number),
        _ => None,
    }
}

/// One field of a packet: a key and a value with `=` between them. Other fields say nothing.
pub open spec fn scan_field(
    scan: PacketScan,
    field: Seq<char>,
    packet_number: nat,
) -> std::result::Result<PacketScan, Seq<char>> {
    let at = text::first_index(field, '=') as int;
    let key = field.take(at);
    let value = field.skip(at + 1);
    if !field.contains('=') {
        Ok(scan)
    } else if key == "stream_index"@ {
        match bounded(value, u32::MAX as nat) {
            Some(index) => Ok(PacketScan { stream_index: Some(index), ..scan }),
            None => Err(packet_message(packet_number, " 个媒体包的流编号无效"@)),
        }
    } else if key == "pts_time"@ && value != "N/A"@ {
        match probe_time(value, packet_number) {
            Ok(micros) => Ok(PacketScan { pts_micros: Some(micros), ..scan }),
            Err(message) => Err(message),
        }
    } else if key == "size"@ {
        match bounded(value, u64::MAX as nat) {
            Some(size) => Ok(PacketScan { size: Some(size), ..scan }),
            None => Err(packet_message(packet_number, " 个媒体包的大小无效"@)),
        }
    } else if key == "flags"@ {
        Ok(PacketScan { flags: value, ..scan })
    } else {
        Ok(scan)
    }
}

/// What the fields of a packet say, read from the first to the last: of two fields with one key the
/// later counts.
pub open spec fn scan_fields(fields: Seq<Seq<char>>, packet_number: nat) -> std::result::Result<
    PacketScan,
    Seq<char>,
>
    decreases fields.len(),
{
    if fields.len() == 0 {
        Ok(PacketScan { stream_index: None, pts_micros: None, size: None, flags: Seq::empty() })
    } else {
        match scan_fields(fields.drop_last(), packet_number) {
            Err(message) => Err(message),
            Ok(scan) => scan_field(scan, fields.last(), packet_number),
        }
    }
}

/// The packet that a line of ffprobe's report describes.
pub open spec fn packet_of(line: Seq<char>, packet_number: nat) -> std::result::Result<
    PacketView,
    Seq<char>,
> {
    match scan_fields(text::split(line, '|'), packet_number) {
        Err(message) => Err(message),
        Ok(scan) => if scan.stream_index is None {
            Err(packet_message(packet_number, " 个媒体包缺少流编号"@))
        } else if scan.size is None {
            Err(packet_message(packet_number, " 个媒体包缺少大小"@))
        } else {
            Ok(
                PacketView {
                    stream_index: scan.stream_index->0,
                    pts_micros: scan.pts_micros,
                    size: scan.size->0,
                    flags: scan.flags,
                },
            )
        },
    }
}

/// A field that cannot be read decides the outcome, whatever follows it.
proof fn lemma_scan_fields_stops(fields: Seq<Seq<char>>, length: int, packet_number: nat)
    requires
        0 <= length <= fields.len(),
        scan_fields(fields.take(length), packet_number) is Err,
    ensures
        scan_fields(fields, packet_number) == scan_fields(fields.take(length), packet_number),
    decreases fields.len() - length,
{
    if length == fields.len() {
        assert(fields.take(length) == fields);
    } else {
        assert(fields.take(length + 1).drop_last() == fields.take(length));
        lemma_scan_fields_stops(fields, length + 1, packet_number);
    }
}

/// What the fields of a packet have said so far.
struct FieldScan {
    stream_index: Option<u32>,
    pts_micros: Option<i64>,
    size: Option<u64>,
    flags: String,
}

impl View for FieldScan {
    type V = PacketScan;

    closed spec fn view(&self) -> PacketScan {
        PacketScan {
            stream_index: match self.stream_index {
                Some(index) => Some(index as nat),
                None => None,
            },
            pts_micros: match self.pts_micros {
                Some(micros) => Some(micros as int),
                None => None,
            },
            size: match self.size {
                Some(size) => Some(size as nat),
                None => None,
            },
            flags: self.flags@,
        }
    }
}

impl FieldScan {
    fn take_field(self, field: &str, packet_number: u64) -> (r: Result<FieldScan>)
        ensures
            error::seen(r) == scan_field(self@, field@, packet_number as nat),
    {
        let at = match text::find_char(field, '=') {
            Some(at) => at,
            None => {
                return Ok(self);
            },
        };
        let length = field.unicode_len();
        let key = field.substring_char(0, at);
        let value = field.substring_char(at + 1, length);
        assert(key@ == field@.take(at as int));
        assert(value@ == field@.skip(at + 1));
        if same_text(key, "stream_index") {
            match parse_unsigned(value, u32::MAX as u128) {
                Some(index) => Ok(FieldScan { stream_index: Some(index as u32), ..self }),
                None => Err(packet_error(packet_number, " 个媒体包的流编号无效")),
            }
        } else if same_text(key, "pts_time") && !same_text(value, "N/A") {
            match parse_probe_time_micros(value, packet_number) {
                Ok(micros) => Ok(FieldScan { pts_micros: Some(micros), ..self }),
                Err(error) => Err(error),
            }
        } else if same_text(key, "size") {
            match parse_unsigned(value, u64::MAX as u128) {
                Some(size) => Ok(FieldScan { size: Some(size as u64), ..self }),
                None => Err(packet_error(packet_number, " 个媒体包的大小无效")),
            }
        } else if same_text(key, "flags") {
            Ok(FieldScan { flags: value.to_owned(), ..self })
        } else {
            Ok(self)
        }
    }
}

/// The packet that a line of ffprobe's report describes.
pub fn parse_packet(line: &str, packet_number: u64) -> (r: Result<ProbePacket>)
    ensures
        error::seen(r) == packet_of(line@, packet_number as nat),
{
    let fields = split_on(line, '|');
    let ghost pieces = text::texts(fields@);
    let mut scan = FieldScan {
        stream_index: None,
        pts_micros: None,
        size: None,
        flags: String::new(),
    };
    let mut i: usize = 0;
    assert(pieces.take(0) == Seq::<Seq<char>>::empty());
    while i < fields.len()
        invariant
            i <= fields.len(),
            pieces == text::texts(fields@),
            pieces == text::split(line@, '|'),
            scan_fields(pieces.take(i as int), packet_number as nat) == Ok::<PacketScan, Seq<char>>(
                scan@,
            ),
        decreases fields.len() - i,
    {
        assert(pieces.take(i + 1).drop_last() == pieces.take(i as int));
        assert(pieces.take(i + 1).last() == fields@[i as int]@);
        scan = match scan.take_field(fields[i].as_str(), packet_number) {
            Ok(next) => next,
            Err(error) => {
                proof {
                    lemma_scan_fields_stops(pieces, i + 1, packet_number as nat);
                }
                return Err(error);
            },
        };
        i += 1;
    }
    assert(pieces.take(pieces.len() as int) == pieces);
    let stream_index: u32 = match scan.stream_index {
        Some(index) => index,
        None => {
            return Err(packet_error(packet_number, " 个媒体包缺少流编号"));
        },
    };
    let size: u64 = match scan.size {
        Some(size) => size,
        None => {
            return Err(packet_error(packet_number, " 个媒体包缺少大小"));
        },
    };
    Ok(ProbePacket { stream_index, pts_micros: scan.pts_micros, size, flags: scan.flags })
}

// ---------------------------------------------------------------------------
// From packets to a layout
// ---------------------------------------------------------------------------

/// What the lines of ffprobe's report have said so far.
pub struct ReaderView {
    /// The stream whose key frames count.
    pub reference_stream: nat,
    /// The lines so far.
    pub packet_number: nat,
    pub total_payload_bytes: nat,
    /// The time of the first key frame.
    pub first_pts: Option<int>,
    pub keyframes: Seq<KeyframeBoundary>,
}

/// The time from `first` to `pts`, at most what a signed 64-bit integer holds.
pub open spec fn elapsed(first: int, pts: int) -> int {
    if pts - first > i64::MAX {
        i64::MAX as int
    } else {
        pts - first
    }
}

/// A packet at which a new segment may start: a key frame of the reference stream with a time.
pub open spec fn is_timed_keyframe(packet: PacketView, reference_stream: nat) -> bool {
    &&& packet.stream_index == reference_stream
    &&& packet.flags.contains('K')
    &&& packet.pts_micros is Some
}

/// The key frames after a packet. The first timed key frame is where time starts and no boundary;
/// each other becomes one if it is later than the start and than the last boundary.
pub open spec fn keyframes_after(reader: ReaderView, packet: PacketView) -> Seq<KeyframeBoundary> {
    if !is_timed_keyframe(packet, reader.reference_stream) || reader.first_pts is None {
        reader.keyframes
    } else {
        let time = elapsed(reader.first_pts->0, packet.pts_micros->0);
        if time > 0 && (reader.keyframes.len() > 0 ==> time
            > reader.keyframes.last().elapsed_micros) {
            reader.keyframes.push(
                KeyframeBoundary {
                    elapsed_micros: time as u64,
                    payload_offset: reader.total_payload_bytes as u128,
                },
            )
        } else {
            reader.keyframes
        }
    }
}

/// What is known after one more line. An empty line is counted and otherwise passed over.
pub open spec fn reader_step(reader: ReaderView, line: Seq<char>) -> std::result::Result<
    ReaderView,
    Seq<char>,
> {
    let counted = ReaderView { packet_number: reader.packet_number + 1, ..reader };
    if line.len() == 0 {
        Ok(counted)
    } else {
        match packet_of(line, counted.packet_number) {
            Err(message) => Err(message),
            Ok(packet) => if reader.total_payload_bytes + packet.size > u128::MAX {
                Err("媒体包总大小溢出"@)
            } else {
                Ok(
                    ReaderView {
                        total_payload_bytes: reader.total_payload_bytes + packet.size,
                        first_pts: if reader.first_pts is None && is_timed_keyframe(
                            packet,
                            reader.reference_stream,
                        ) {
                            packet.pts_micros
                        } else {
                            reader.first_pts
                        },
                        keyframes: keyframes_after(reader, packet),
                        ..counted
                    },
                )
            },
        }
    }
}

pub open spec fn fresh_reader(reference_stream: nat) -> ReaderView {
    ReaderView {
        reference_stream,
        packet_number: 0,
        total_payload_bytes: 0,
        first_pts: None,
        keyframes: Seq::empty(),
    }
}

/// What the lines of ffprobe's report say, read from the first to the last.
pub open spec fn read_lines(lines: Seq<Seq<char>>, reference_stream: nat) -> std::result::Result<
    ReaderView,
    Seq<char>,
>
    decreases lines.len(),
{
    if lines.len() == 0 {
        Ok(fresh_reader(reference_stream))
    } else {
        match read_lines(lines.drop_last(), reference_stream) {
            Err(message) => Err(message),
            Ok(reader) => reader_step(reader, lines.last()),
        }
    }
}

/// The layout that a whole report amounts to.
pub open spec fn layout_of(reader: ReaderView) -> std::result::Result<LayoutView, Seq<char>> {
    if reader.packet_number == 0 || reader.total_payload_bytes == 0 {
        Err("ffprobe 未返回可用的媒体包"@)
    } else if reader.first_pts is None {
        Err("第一视频流中没有带时间戳的关键帧"@)
    } else {
        Ok(
            LayoutView {
                total_payload_bytes: reader.total_payload_bytes,
                keyframes: reader.keyframes,
            },
        )
    }
}

/// The layout that ffprobe's report describes.
pub open spec fn packet_layout(
    lines: Seq<Seq<char>>,
    reference_stream: nat,
) -> std::result::Result<LayoutView, Seq<char>> {
    match read_lines(lines, reference_stream) {
        Err(message) => Err(message),
        Ok(reader) => layout_of(reader),
    }
}

/// What is said of a line that cannot be read.
pub open spec fn read_failure_message(packet_number: nat, cause: Seq<char>) -> Seq<char> {
    "读取 ffprobe 第 "@ + text::decimal(packet_number) + " 个媒体包失败："@ + cause
}

/// Reads ffprobe's report line by line.
#[derive(Debug)]
pub struct LayoutReader {
    reference_stream: u32,
    packet_number: u64,
    total_payload_bytes: u128,
    first_pts: Option<i64>,
    keyframes: Vec<KeyframeBoundary>,
}

impl View for LayoutReader {
    type V = ReaderView;

    closed spec fn view(&self) -> ReaderView {
        ReaderView {
            reference_stream: self.reference_stream as nat,
            packet_number: self.packet_number as nat,
            total_payload_bytes: self.total_payload_bytes as nat,
            first_pts: match self.first_pts {
                Some(pts) => Some(pts as int),
                None => None,
            },
            keyframes: self.keyframes@,
        }
    }
}

impl LayoutReader {
    /// A reader before the first line. The key frames of `reference_stream` count.
    pub fn new(reference_stream: u32) -> (reader: LayoutReader)
        ensures
            reader@ == fresh_reader(reference_stream as nat),
    {
        let reader = LayoutReader {
            reference_stream,
            packet_number: 0,
            total_payload_bytes: 0,
            first_pts: None,
            keyframes: Vec::new(),
        };
        assert(reader@.keyframes == Seq::<KeyframeBoundary>::empty());
        reader
    }

    /// The stream whose key frames count.
    pub fn reference_stream(&self) -> (stream: u32)
        ensures
            stream == self@.reference_stream,
    {
        self.reference_stream
    }

    /// How many lines were read.
    pub fn packet_number(&self) -> (count: u64)
        ensures
            count == self@.packet_number,
    {
        self.packet_number
    }

    /// Reads one line, without its line break.
    pub fn read_line(self, line: &str) -> (r: Result<LayoutReader>)
        requires
            self@.packet_number < u64::MAX,
        ensures
            error::seen(r) == reader_step(self@, line@),
    {
        let packet_number: u64 = self.packet_number + 1;
        if line.is_empty() {
            return Ok(LayoutReader { packet_number, ..self });
        }
        let packet = match parse_packet(line, packet_number) {
            Ok(packet) => packet,
            Err(error) => {
                return Err(error);
            },
        };
        let ghost seen = packet@;
        let ghost before = self@;
        let mut first_pts = self.first_pts;
        let mut keyframes = self.keyframes;
        if packet.stream_index == self.reference_stream && contains_char(
            packet.flags.as_str(),
            'K',
        ) {
            if let Some(pts) = packet.pts_micros {
                match first_pts {
                    None => {
                        first_pts = Some(pts);
                    },
                    Some(first) => {
                        let difference: i128 = pts as i128 - first as i128;
                        if difference > 0 {
                            let time: u64 = if difference > i64::MAX as i128 {
                                i64::MAX as u64
                            } else {
                                difference as u64
                            };
                            let count = keyframes.len();
                            if count == 0 || time > keyframes[count - 1].elapsed_micros {
                                keyframes.push(
                                    KeyframeBoundary {
                                        elapsed_micros: time,
                                        payload_offset: self.total_payload_bytes,
                                    },
                                );
                            }
                        }
                    },
                }
            }
        }
        assert(keyframes@ == keyframes_after(before, seen));
        match self.total_payload_bytes.checked_add(packet.size as u128) {
            Some(total_payload_bytes) => Ok(
                LayoutReader {
                    reference_stream: self.reference_stream,
                    packet_number,
                    total_payload_bytes,
                    first_pts,
                    keyframes,
                },
            ),
            None => Err(AppError::new("媒体包总大小溢出")),
        }
    }

    /// The layout, after the last line.
    pub fn finish(self) -> (r: Result<PacketLayout>)
        ensures
            error::seen(r) == layout_of(self@),
    {
        if self.packet_number == 0 || self.total_payload_bytes == 0 {
            return Err(AppError::new("ffprobe 未返回可用的媒体包"));
        }
        if self.first_pts.is_none() {
            return Err(AppError::new("第一视频流中没有带时间戳的关键帧"));
        }
        Ok(
            PacketLayout {
                total_payload_bytes: self.total_payload_bytes,
                keyframes: self.keyframes,
            },
        )
    }

    /// The error for the next line, where it cannot be read; `cause` says why.
    pub fn read_failure(&self, cause: &str) -> (e: AppError)
        requires
            self@.packet_number < u64::MAX,
        ensures
            e@ == read_failure_message(self@.packet_number + 1, cause@),
    {
        let mut line = "读取 ffprobe 第 ".to_owned();
        line.append(decimal_text((self.packet_number + 1) as u128).as_str());
        AppError::about(line.as_str(), " 个媒体包失败：", cause)
    }
}

/// A line that cannot be read decides the outcome, whatever follows it.
proof fn lemma_read_lines_stops(lines: Seq<Seq<char>>, length: int, reference_stream: nat)
    requires
        0 <= length <= lines.len(),
        read_lines(lines.take(length), reference_stream) is Err,
    ensures
        read_lines(lines, reference_stream) == read_lines(lines.take(length), reference_stream),
    decreases lines.len() - length,
{
    if length == lines.len() {
        assert(lines.take(length) == lines);
    } else {
        assert(lines.take(length + 1).drop_last() == lines.take(length));
        lemma_read_lines_stops(lines, length + 1, reference_stream);
    }
}

/// The layout that the lines of ffprobe's report describe.
pub fn read_packet_layout(lines: &[String], reference_stream: u32) -> (r: Result<PacketLayout>)
    ensures
        error::seen(r) == packet_layout(text::texts(lines@), reference_stream as nat),
{
    let mut reader = LayoutReader::new(reference_stream);
    let mut i: usize = 0;
    let ghost all = text::texts(lines@);
    assert(all.take(0) == Seq::<Seq<char>>::empty());
    while i < lines.len()
        invariant
            i <= lines@.len(),
            all == text::texts(lines@),
            reader@.packet_number == i,
            read_lines(all.take(i as int), reference_stream as nat) == Ok::<ReaderView, Seq<char>>(
                reader@,
            ),
        decreases lines@.len() - i,
    {
        assert(all.take(i + 1).drop_last() == all.take(i as int));
        assert(all.take(i + 1).last() == lines@[i as int]@);
        reader = match reader.read_line(lines[i].as_str()) {
            Ok(next) => next,
            Err(error) => {
                proof {
                    lemma_read_lines_stops(all, i + 1, reference_stream as nat);
                }
                return Err(error);
            },
        };
        i += 1;
    }
    assert(all.take(all.len() as int) == all);
    reader.finish()
}

// ---------------------------------------------------------------------------
// Running the programs
// ---------------------------------------------------------------------------

/// How running a program ended.
#[derive(Debug)]
pub enum ProgramOutcome {
    /// It could not be started, or not be waited for; the cause.
    Failed(String),
    /// It ended; whether with success, and its status in words.
    Exited(bool, String),
}

/// A `ProgramOutcome`, as the contracts see it.
pub enum OutcomeView {
    Failed(Seq<char>),
    Exited(bool, Seq<char>),
}

impl View for ProgramOutcome {
    type V = OutcomeView;

    open spec fn view(&self) -> OutcomeView {
        match self {
            ProgramOutcome::Failed(cause) => OutcomeView::Failed(cause@),
            ProgramOutcome::Exited(success, status) => OutcomeView::Exited(*success, status@),
        }
    }
}

/// What `-version` says of a program: nothing where it can be run, or why it cannot.
pub open spec fn program_failure(
    binary: Seq<char>,
    label: Seq<char>,
    environment_variable: Seq<char>,
    outcome: OutcomeView,
) -> Option<Seq<char>> {
    match outcome {
        OutcomeView::Failed(cause) => Some(
            "无法运行 `"@ + binary + "`："@ + cause + "。请安装 "@ + label + " 或设置 "@
                + environment_variable,
        ),
        OutcomeView::Exited(true, _) => None,
        OutcomeView::Exited(false, status) => Some(
            "`"@ + binary + "` 不可用（退出状态："@ + status + "）"@,
        ),
    }
}

/// Whether a program could be run to tell its version.
pub fn ensure_program(
    binary: &str,
    label: &str,
    environment_variable: &str,
    outcome: &ProgramOutcome,
) -> (r: Result<()>)
    ensures
        r is Ok == program_failure(binary@, label@, environment_variable@, outcome@) is None,
        r matches Err(error) ==> program_failure(
            binary@,
            label@,
            environment_variable@,
            outcome@,
        ) == Some(error@),
{
    match outcome {
        ProgramOutcome::Failed(cause) => {
            let mut message = "无法运行 `".to_owned();
            message.append(binary);
            message.append("`：");
            message.append(cause.as_str());
            message.append("。请安装 ");
            message.append(label);
            message.append(" 或设置 ");
            message.append(environment_variable);
            Err(AppError::new(message.as_str()))
        },
        ProgramOutcome::Exited(success, status) => if *success {
            Ok(())
        } else {
            Err(
                AppError::about_two(
                    "`",
                    binary,
                    "` 不可用（退出状态：",
                    status.as_str(),
                    "）",
                ),
            )
        },
    }
}

/// Whether FFmpeg could be run to tell its version.
pub fn ensure_available(binary: &str, outcome: &ProgramOutcome) -> (r: Result<()>)
    ensures
        (match r {
            Ok(_) => None,
            Err(error) => Some(error@),
        }) == program_failure(binary@, "FFmpeg"@, "FFMPEG_BIN"@, outcome@),
{
    ensure_program(binary, "FFmpeg", "FFMPEG_BIN", outcome)
}

/// Why a program was not run.
pub open spec fn start_failure(binary: Seq<char>, cause: Seq<char>) -> Seq<char> {
    "启动 `"@ + binary + "` 失败："@ + cause
}

/// The error where a program could not be started.
pub fn start_error(binary: &str, cause: &str) -> (e: AppError)
    ensures
        e@ == start_failure(binary@, cause@),
{
    let mut message = "启动 `".to_owned();
    message.append(binary);
    AppError::about(message.as_str(), "` 失败：", cause)
}

/// Whether FFmpeg did its work: nothing, or why not.
pub open spec fn run_failure(binary: Seq<char>, outcome: OutcomeView) -> Option<Seq<char>> {
    match outcome {
        OutcomeView::Failed(cause) => Some(start_failure(binary, cause)),
        OutcomeView::Exited(true, _) => None,
        OutcomeView::Exited(false, status) => Some(
            "FFmpeg 执行失败（退出状态："@ + status + "）"@,
        ),
    }
}

/// Whether FFmpeg did its work.
pub fn run_result(binary: &str, outcome: &ProgramOutcome) -> (r: Result<()>)
    ensures
        r is Ok == run_failure(binary@, outcome@) is None,
        r matches Err(error) ==> run_failure(binary@, outcome@) == Some(error@),
{
    match outcome {
        ProgramOutcome::Failed(cause) => Err(start_error(binary, cause.as_str())),
        ProgramOutcome::Exited(success, status) => if *success {
            Ok(())
        } else {
            Err(
                AppError::about(
                    "FFmpeg 执行失败（退出状态：",
                    status.as_str(),
                    "）",
                ),
            )
        },
    }
}

/// What probing gives: what was read of the report, unless ffprobe could not be waited for, or
/// failed though its report could be read.
pub open spec fn probe_result_of(
    layout: std::result::Result<LayoutView, Seq<char>>,
    outcome: OutcomeView,
) -> std::result::Result<LayoutView, Seq<char>> {
    match outcome {
        OutcomeView::Failed(cause) => Err("等待 ffprobe 结束失败："@ + cause),
        OutcomeView::Exited(true, _) => layout,
        OutcomeView::Exited(false, status) => match layout {
            Ok(_) => Err("ffprobe 分析失败（退出状态："@ + status + "）"@),
            Err(message) => Err(message),
        },
    }
}

/// What probing gives, from what was read of the report and how ffprobe ended.
pub fn probe_result(layout: Result<PacketLayout>, outcome: &ProgramOutcome) -> (r: Result<
    PacketLayout,
>)
    ensures
        error::seen(r) == probe_result_of(error::seen(layout), outcome@),
{
    match outcome {
        ProgramOutcome::Failed(cause) => {
            let mut message = "等待 ffprobe 结束失败：".to_owned();
            message.append(cause.as_str());
            Err(AppError::new(message.as_str()))
        },
        ProgramOutcome::Exited(success, status) => match layout {
            Ok(layout) => if *success {
                Ok(layout)
            } else {
                Err(
                    AppError::about(
                        "ffprobe 分析失败（退出状态：",
                        status.as_str(),
                        "）",
                    ),
                )
            },
            Err(error) => Err(error),
        },
    }
}

// ---------------------------------------------------------------------------
// The reference stream
// ---------------------------------------------------------------------------

/// The text that bytes stand for, with U+FFFD for what is not UTF-8.
pub uninterp spec fn utf8_lossy(bytes: Seq<u8>) -> Seq<char>;

/// `String::from_utf8`: the text that bytes encode, exactly where they are UTF-8.
#[verifier::external_body]
fn decode_text(bytes: Vec<u8>) -> (r: Option<String>)
    ensures
        r is Some == vstd::utf8::valid_utf8(bytes@),
        r matches Some(decoded) ==> decoded@ == vstd::utf8::decode_utf8(bytes@),
{
    String::from_utf8(bytes).ok()
}

/// `String::from_utf8_lossy`: a text that the bytes alone decide, and the text that they encode
/// where they are UTF-8. How many U+FFFD stand for bytes that are not UTF-8 is left to the name.
#[verifier::external_body]
fn decode_text_lossy(bytes: &Vec<u8>) -> (decoded: String)
    ensures
        decoded@ == utf8_lossy(bytes@),
        vstd::utf8::valid_utf8(bytes@) ==> decoded@ == vstd::utf8::decode_utf8(bytes@),
{
    String::from_utf8_lossy(bytes).into_owned()
}

/// What ffprobe answered when asked for the first video stream.
#[derive(Debug)]
pub enum StreamReport {
    /// It could not be started; the cause.
    NotStarted(String),
    /// It ended.
    Finished { success: bool, status: String, stdout: Vec<u8>, stderr: Vec<u8> },
}

/// A `StreamReport`, as the contracts see it.
pub enum StreamReportView {
    NotStarted(Seq<char>),
    Finished { success: bool, status: Seq<char>, stdout: Seq<u8>, stderr: Seq<u8> },
}

impl View for StreamReport {
    type V = StreamReportView;

    open spec fn view(&self) -> StreamReportView {
        match self {
            StreamReport::NotStarted(cause) => StreamReportView::NotStarted(cause@),
            StreamReport::Finished { success, status, stdout, stderr } => {
                StreamReportView::Finished {
                    success: *success,
                    status: status@,
                    stdout: stdout@,
                    stderr: stderr@,
                }
            },
        }
    }
}

/// The first line that holds more than white space, without the white space around it.
pub open spec fn first_filled(lines: Seq<Seq<char>>) -> Option<Seq<char>>
    decreases lines.len(),
{
    if lines.len() == 0 {
        None
    } else if text::trimmed(lines[0]).len() > 0 {
        Some(text::trimmed(lines[0]))
    } else {
        first_filled(lines.skip(1))
    }
}

/// The number of the video stream in ffprobe's answer.
pub open spec fn stream_number(answer: Seq<char>) -> std::result::Result<nat, Seq<char>> {
    match first_filled(text::split(answer, '\n')) {
        None => Err("按大小分片需要至少一个视频流"@),
        Some(line) => match bounded(line, u32::MAX as nat) {
            None => Err("ffprobe 返回了无效的视频流编号"@),
            Some(number) => Ok(number),
        },
    }
}

/// The number of the first video stream, or why there is none; `detail` is what ffprobe wrote to
/// its error output.
pub open spec fn reference_stream_of(
    binary: Seq<char>,
    report: StreamReportView,
    detail: Seq<char>,
) -> std::result::Result<nat, Seq<char>> {
    match report {
        StreamReportView::NotStarted(cause) => Err(start_failure(binary, cause)),
        StreamReportView::Finished { success, status, stdout, stderr } => if !success {
            Err(
                "ffprobe 无法读取视频流（退出状态："@ + status + "）："@ + text::trimmed(
                    detail,
                ),
            )
        } else if !vstd::utf8::valid_utf8(stdout) {
            Err("ffprobe 返回了非 UTF-8 的视频流信息"@)
        } else {
            stream_number(vstd::utf8::decode_utf8(stdout))
        },
    }
}

/// The error output in a report.
pub open spec fn error_output(report: StreamReportView) -> Seq<u8> {
    match report {
        StreamReportView::NotStarted(_) => Seq::empty(),
        StreamReportView::Finished { stderr, .. } => stderr,
    }
}

/// A number, or the text of the message why there is none.
pub open spec fn seen_index(result: Result<u32>) -> std::result::Result<nat, Seq<char>> {
    match result {
        Ok(value) => Ok(value as nat),
        Err(error) => Err(error@),
    }
}

/// The number of the video stream in the text of ffprobe's answer.
pub fn parse_stream_number(answer: &str) -> (r: Result<u32>)
    ensures
        seen_index(r) == stream_number(answer@),
{
    let lines = split_on(answer, '\n');
    let ghost pieces = text::texts(lines@);
    let mut i: usize = 0;
    assert(pieces.skip(0) == pieces);
    while i < lines.len()
        invariant
            i <= lines.len(),
            pieces == text::texts(lines@),
            pieces == text::split(answer@, '\n'),
            first_filled(pieces) == first_filled(pieces.skip(i as int)),
        decreases lines.len() - i,
    {
        let line = trim(lines[i].as_str());
        assert(pieces.skip(i as int)[0] == lines@[i as int]@);
        if !line.is_empty() {
            return match parse_unsigned(line, u32::MAX as u128) {
                Some(number) => Ok(number as u32),
                None => Err(AppError::new("ffprobe 返回了无效的视频流编号")),
            };
        }
        assert(pieces.skip(i as int).skip(1) == pieces.skip(i + 1));
        i += 1;
    }
    Err(AppError::new("按大小分片需要至少一个视频流"))
}

/// The number of the first video stream, from ffprobe's report.
pub fn parse_reference_stream(binary: &str, report: StreamReport) -> (r: Result<u32>)
    ensures
        seen_index(r) == reference_stream_of(
            binary@,
            report@,
            utf8_lossy(error_output(report@)),
        ),
{
    match report {
        StreamReport::NotStarted(cause) => Err(start_error(binary, cause.as_str())),
        StreamReport::Finished { success, status, stdout, stderr } => {
            if !success {
                let detail = decode_text_lossy(&stderr);
                return Err(stream_error(status.as_str(), detail.as_str()));
            }
            match decode_text(stdout) {
                Some(answer) => parse_stream_number(answer.as_str()),
                None => Err(
                    AppError::new("ffprobe 返回了非 UTF-8 的视频流信息"),
                ),
            }
        },
    }
}

/// The error where ffprobe found no video stream to read; `detail` is what it wrote to its error
/// output.
pub fn stream_error(status: &str, detail: &str) -> (e: AppError)
    ensures
        e@ == "ffprobe 无法读取视频流（退出状态："@ + status@ + "）："@ + text::trimmed(
            detail@,
        ),
{
    let mut message = "ffprobe 无法读取视频流（退出状态：".to_owned();
    message.append(status);
    AppError::about(message.as_str(), "）：", trim(detail))
}

// ---------------------------------------------------------------------------
// Command lines
// ---------------------------------------------------------------------------

/// A character that a shell takes as it stands.
pub open spec fn is_plain(c: char) -> bool {
    ||| 'a' <= c <= 'z'
    ||| 'A' <= c <= 'Z'
    ||| '0' <= c <= '9'
    ||| c == '_'
    ||| c == '-'
    ||| c == '.'
    ||| c == '/'
    ||| c == ':'
    ||| c == '='
    ||| c == '+'
    ||| c == ','
}

pub open spec fn all_plain(value: Seq<char>) -> bool {
    forall|i: int| 0 <= i < value.len() ==> is_plain(#[trigger] value[i])
}

/// `value` in single quotes. A single quote in it ends the quotes, stands behind a backslash, and
/// starts them again.
pub open spec fn single_quoted(value: Seq<char>) -> Seq<char> {
    "'"@ + text::replaced(value, '\'', "'\\''"@) + "'"@
}

/// `value` as one word of a shell.
pub open spec fn quoted(value: Seq<char>) -> Seq<char> {
    if value.len() > 0 && all_plain(value) {
        value
    } else {
        single_quoted(value)
    }
}

/// A program and its arguments as a line for a shell.
pub open spec fn command_line(binary: Seq<char>, args: Seq<Seq<char>>) -> Seq<char> {
    text::join(
        (seq![binary] + args).map_values(|part: Seq<char>| quoted(part)),
        " "@,
    )
}

fn is_plain_char(c: char) -> (plain: bool)
    ensures
        plain == is_plain(c),
{
    (c >= 'a' && c <= 'z') || (c >= 'A' && c <= 'Z') || (c >= '0' && c <= '9') || c == '_' || c
        == '-' || c == '.' || c == '/' || c == ':' || c == '=' || c == '+' || c == ','
}

/// `value` in single quotes.
pub fn single_quote(value: &str) -> (r: String)
    ensures
        r@ == single_quoted(value@),
{
    let mut out = "'".to_owned();
    out.append(replace(value, '\'', "'\\''").as_str());
    out.append("'");
    out
}

/// `value` as one word of a shell.
pub fn shell_quote(value: &str) -> (r: String)
    ensures
        r@ == quoted(value@),
{
    let chars = to_chars(value);
    let mut i: usize = 0;
    while i < chars.len()
        invariant
            i <= chars.len(),
            chars@ == value@,
            forall|k: int| 0 <= k < i ==> is_plain(#[trigger] value@[k]),
        decreases chars.len() - i,
    {
        if !is_plain_char(chars[i]) {
            assert(!is_plain(value@[i as int]));
            return single_quote(value);
        }
        i += 1;
    }
    if chars.len() > 0 {
        value.to_owned()
    } else {
        single_quote(value)
    }
}

/// A program and its arguments as a line for a shell.
pub fn display_command(binary: &str, args: &[String]) -> (r: String)
    ensures
        r@ == command_line(binary@, text::texts(args@)),
{
    let ghost parts = seq![binary@] + text::texts(args@);
    let ghost words = parts.map_values(|part: Seq<char>| quoted(part));
    let mut quoted_parts: Vec<String> = Vec::new();
    quoted_parts.push(shell_quote(binary));
    let mut i: usize = 0;
    assert(text::texts(quoted_parts@) == words.take(1));
    while i < args.len()
        invariant
            i <= args@.len(),
            parts == seq![binary@] + text::texts(args@),
            words == parts.map_values(|part: Seq<char>| quoted(part)),
            text::texts(quoted_parts@) == words.take(i + 1),
        decreases args@.len() - i,
    {
        let ghost before = text::texts(quoted_parts@);
        let word = shell_quote(args[i].as_str());
        assert(parts[i + 1] == args@[i as int]@);
        assert(word@ == words[i + 1]);
        quoted_parts.push(word);
        assert(text::texts(quoted_parts@) == before.push(words[i + 1]));
        assert(before.push(words[i + 1]) == words.take(i + 2));
        i += 1;
    }
    assert(words.take(words.len() as int) == words);
    join_texts(&quoted_parts, " ")
}

// ---------------------------------------------------------------------------
// Laws of layouts
// ---------------------------------------------------------------------------

/// Whether boundaries come one after the other: each later than the start and than the ones before
/// it, with no less payload before it than they have, and no more than `total`.
pub open spec fn are_in_order(boundaries: Seq<KeyframeBoundary>, total: nat) -> bool {
    &&& forall|i: int|
        0 <= i < boundaries.len() ==> 0 < (#[trigger] boundaries[i]).elapsed_micros
            && boundaries[i].payload_offset <= total
    &&& forall|i: int, j: int|
        0 <= i < j < boundaries.len() ==> (#[trigger] boundaries[i]).elapsed_micros < (
        #[trigger] boundaries[j]).elapsed_micros && boundaries[i].payload_offset
            <= boundaries[j].payload_offset
}

/// A line keeps the boundaries in order.
pub proof fn law_line_keeps_order(reader: ReaderView, line: Seq<char>)
    requires
        are_in_order(reader.keyframes, reader.total_payload_bytes),
        reader.total_payload_bytes <= u128::MAX,
    ensures
        reader_step(reader, line) matches Ok(next) ==> are_in_order(
            next.keyframes,
            next.total_payload_bytes,
        ) && next.total_payload_bytes <= u128::MAX && next.total_payload_bytes
            >= reader.total_payload_bytes,
{
}

/// What was read of a report is in order, whatever the lines say.
pub proof fn law_lines_in_order(lines: Seq<Seq<char>>, reference_stream: nat)
    ensures
        read_lines(lines, reference_stream) matches Ok(reader) ==> are_in_order(
            reader.keyframes,
            reader.total_payload_bytes,
        ) && reader.total_payload_bytes <= u128::MAX && reader.packet_number == lines.len(),
    decreases lines.len(),
{
    if lines.len() > 0 {
        law_lines_in_order(lines.drop_last(), reference_stream);
        match read_lines(lines.drop_last(), reference_stream) {
            Ok(reader) => {
                law_line_keeps_order(reader, lines.last());
            },
            Err(_) => {},
        }
    }
}

/// A layout has some payload, and its boundaries are in order.
pub proof fn law_layout_in_order(lines: Seq<Seq<char>>, reference_stream: nat)
    ensures
        packet_layout(lines, reference_stream) matches Ok(layout) ==> are_in_order(
            layout.keyframes,
            layout.total_payload_bytes,
        ) && 0 < layout.total_payload_bytes <= u128::MAX,
{
    law_lines_in_order(lines, reference_stream);
}

// ---------------------------------------------------------------------------
// Laws of quoting
// ---------------------------------------------------------------------------

/// The words of a line as a shell reads them: blanks part words, except between single quotes,
/// where every character stands for itself, and a backslash outside of quotes makes the next
/// character stand for itself. `inside` says whether the line starts between quotes, `word` what
/// was read of the word that goes on. There are none where a quote is left open.
pub open spec fn words_of(line: Seq<char>, inside: bool, word: Option<Seq<char>>) -> Option<
    Seq<Seq<char>>,
>
    decreases line.len(),
{
    let begun = match word {
        Some(word) => word,
        None => Seq::empty(),
    };
    if line.len() == 0 {
        if inside {
            None
        } else {
            match word {
                Some(word) => Some(seq![word]),
                None => Some(Seq::empty()),
            }
        }
    } else if line[0] == '\'' {
        words_of(line.skip(1), !inside, Some(begun))
    } else if inside {
        words_of(line.skip(1), true, Some(begun.push(line[0])))
    } else if line[0] == ' ' {
        match word {
            Some(word) => preceded(seq![word], words_of(line.skip(1), false, None)),
            None => words_of(line.skip(1), false, None),
        }
    } else if line[0] == '\\' {
        if line.len() < 2 {
            None
        } else {
            words_of(line.skip(2), false, Some(begun.push(line[1])))
        }
    } else {
        words_of(line.skip(1), false, Some(begun.push(line[0])))
    }
}

/// Words with some more before them.
pub open spec fn preceded(first: Seq<Seq<char>>, rest: Option<Seq<Seq<char>>>) -> Option<
    Seq<Seq<char>>,
> {
    match rest {
        Some(rest) => Some(first + rest),
        None => None,
    }
}

proof fn lemma_inside(part: Seq<char>, rest: Seq<char>, word: Seq<char>)
    requires
        !part.contains('\''),
    ensures
        words_of(part + rest, true, Some(word)) == words_of(rest, true, Some(word + part)),
    decreases part.len(),
{
    let line = part + rest;
    if part.len() == 0 {
        assert(line == rest);
        assert(word + part == word);
    } else {
        let tail = part.skip(1);
        assert(line[0] == part[0]);
        assert(part[0] != '\'');
        assert(!tail.contains('\'')) by {
            assert forall|i: int| 0 <= i < tail.len() implies tail[i] != '\'' by {
                assert(tail[i] == part[i + 1]);
            }
        }
        assert(line.skip(1) == tail + rest);
        assert(word.push(part[0]) + tail == word + part);
        lemma_inside(tail, rest, word.push(part[0]));
    }
}

/// A quote that ends the quotes, stands behind a backslash and starts them again is a quote.
proof fn lemma_escaped_quote(rest: Seq<char>, word: Seq<char>)
    ensures
        words_of("'\\''"@ + rest, true, Some(word)) == words_of(
            rest,
            true,
            Some(word.push('\'')),
        ),
{
    reveal_strlit("'\\''");
    let line = "'\\''"@ + rest;
    assert("'\\''"@ == seq!['\'', '\\', '\'', '\'']);
    let second = line.skip(1);
    let third = second.skip(2);
    assert(second[0] == '\\' && second[1] == '\'');
    assert(third[0] == '\'');
    assert(third.skip(1) == rest);
    assert(words_of(line, true, Some(word)) == words_of(second, false, Some(word)));
    assert(words_of(second, false, Some(word)) == words_of(third, false, Some(word.push('\''))));
}

proof fn lemma_joined_inside(parts: Seq<Seq<char>>, rest: Seq<char>, word: Seq<char>)
    requires
        parts.len() > 0,
        forall|i: int| 0 <= i < parts.len() ==> !(#[trigger] parts[i]).contains('\''),
    ensures
        words_of(text::join(parts, "'\\''"@) + rest, true, Some(word)) == words_of(
            rest,
            true,
            Some(word + text::join(parts, seq!['\''])),
        ),
    decreases parts.len(),
{
    if parts.len() == 1 {
        lemma_inside(parts[0], rest, word);
    } else {
        let front = parts.drop_last();
        let last = parts.last();
        assert(last == parts[parts.len() - 1]);
        let quote = "'\\''"@;
        let after = quote + (last + rest);
        assert forall|i: int| 0 <= i < front.len() implies !(#[trigger] front[i]).contains(
            '\'',
        ) by {
            assert(front[i] == parts[i]);
        }
        lemma_joined_inside(front, after, word);
        let so_far = word + text::join(front, seq!['\'']);
        assert(text::join(parts, quote) + rest == text::join(front, quote) + after);
        lemma_escaped_quote(last + rest, so_far);
        lemma_inside(last, rest, so_far.push('\''));
        assert(so_far.push('\'') + last == word + text::join(parts, seq!['\'']));
    }
}

/// What stands in single quotes is one word, which is what was quoted.
pub proof fn law_single_quoted(value: Seq<char>, rest: Seq<char>)
    ensures
        words_of(single_quoted(value) + rest, false, None) == words_of(rest, false, Some(value)),
        words_of(single_quoted(value), false, None) == Some(seq![value]),
{
    let parts = text::split(value, '\'');
    let inner = text::replaced(value, '\'', "'\\''"@);
    reveal_strlit("'");
    assert("'"@ == seq!['\'']);
    text::law_split_parts(value, '\'');
    text::law_join_split(value, '\'');
    assert forall|rest: Seq<char>|
        #[trigger] words_of(single_quoted(value) + rest, false, None) == words_of(
            rest,
            false,
            Some(value),
        ) by {
        let line = single_quoted(value) + rest;
        assert(line[0] == '\'');
        assert(line.skip(1) == inner + ("'"@ + rest));
        lemma_joined_inside(parts, "'"@ + rest, Seq::empty());
        assert(Seq::<char>::empty() + value == value);
        let end = "'"@ + rest;
        assert(end[0] == '\'');
        assert(end.skip(1) == rest);
        assert(words_of(end, true, Some(value)) == words_of(rest, false, Some(value)));
    }
    assert(words_of(single_quoted(value) + rest, false, None) == words_of(
        rest,
        false,
        Some(value),
    ));
    let nothing = Seq::<char>::empty();
    assert(single_quoted(value) + nothing == single_quoted(value));
    assert(words_of(single_quoted(value) + nothing, false, None) == words_of(
        nothing,
        false,
        Some(value),
    ));
}

proof fn lemma_plain(value: Seq<char>, rest: Seq<char>, word: Seq<char>)
    requires
        all_plain(value),
    ensures
        words_of(value + rest, false, Some(word)) == words_of(rest, false, Some(word + value)),
    decreases value.len(),
{
    let line = value + rest;
    if value.len() == 0 {
        assert(line == rest);
        assert(word + value == word);
    } else {
        let tail = value.skip(1);
        assert(line[0] == value[0]);
        assert(is_plain(value[0]));
        assert forall|i: int| 0 <= i < tail.len() implies is_plain(#[trigger] tail[i]) by {
            assert(tail[i] == value[i + 1]);
        }
        assert(line.skip(1) == tail + rest);
        assert(word.push(value[0]) + tail == word + value);
        lemma_plain(tail, rest, word.push(value[0]));
    }
}

/// A quoted text is one word, which is the text.
pub proof fn law_quoted(value: Seq<char>, rest: Seq<char>)
    ensures
        words_of(quoted(value) + rest, false, None) == words_of(rest, false, Some(value)),
        words_of(quoted(value), false, None) == Some(seq![value]),
{
    if value.len() > 0 && all_plain(value) {
        lemma_plain(value, rest, Seq::empty());
        lemma_plain(value, Seq::empty(), Seq::empty());
        let nothing = Seq::<char>::empty();
        assert(value + nothing == value);
        assert(nothing + value == value);
        let line = value + rest;
        assert(is_plain(value[0]));
        assert(line[0] == value[0]);
        assert(words_of(line, false, None) == words_of(line, false, Some(nothing)));
        assert(words_of(value, false, None) == words_of(value, false, Some(nothing)));
    } else {
        law_single_quoted(value, rest);
    }
}

proof fn lemma_joined_words(list: Seq<Seq<char>>, rest: Seq<char>)
    requires
        list.len() > 0,
    ensures
        words_of(
            text::join(list.map_values(|part: Seq<char>| quoted(part)), " "@) + rest,
            false,
            None,
        ) == preceded(list.drop_last(), words_of(rest, false, Some(list.last()))),
    decreases list.len(),
{
    let words = list.map_values(|part: Seq<char>| quoted(part));
    let end = words_of(rest, false, Some(list.last()));
    reveal_strlit(" ");
    if list.len() == 1 {
        law_quoted(list[0], rest);
        match end {
            Some(end) => {
                assert(list.drop_last() + end == end);
            },
            None => {},
        }
    } else {
        let front = list.drop_last();
        let after = " "@ + (quoted(list.last()) + rest);
        lemma_joined_words(front, after);
        assert(words.drop_last() == front.map_values(|part: Seq<char>| quoted(part)));
        assert(text::join(words, " "@) + rest == text::join(words.drop_last(), " "@) + after);
        law_quoted(list.last(), rest);
        assert(after[0] == ' ');
        assert(after.skip(1) == quoted(list.last()) + rest);
        assert(words_of(after, false, Some(front.last())) == preceded(seq![front.last()], end));
        match end {
            Some(end) => {
                assert(front.drop_last() + (seq![front.last()] + end) == front + end);
            },
            None => {},
        }
    }
}

/// A shell reads the shown command as the program and its arguments.
pub proof fn law_command_line(binary: Seq<char>, args: Seq<Seq<char>>)
    ensures
        words_of(command_line(binary, args), false, None) == Some(seq![binary] + args),
{
    let list = seq![binary] + args;
    let nothing = Seq::<char>::empty();
    lemma_joined_words(list, nothing);
    assert(command_line(binary, args) + nothing == command_line(binary, args));
    assert(list.drop_last() + seq![list.last()] == list);
}

// ---------------------------------------------------------------------------
// Laws of what a layout holds
// ---------------------------------------------------------------------------

/// The packets of a report, one for each line that is not empty.
pub open spec fn packets_of(lines: Seq<Seq<char>>) -> Seq<PacketView>
    decreases lines.len(),
{
    if lines.len() == 0 {
        Seq::empty()
    } else if lines.last().len() == 0 {
        packets_of(lines.drop_last())
    } else {
        packets_of(lines.drop_last()).push(packet_of(lines.last(), lines.len())->Ok_0)
    }
}

/// The sizes of packets, added up.
pub open spec fn sum_of_sizes(packets: Seq<PacketView>) -> nat
    decreases packets.len(),
{
    if packets.len() == 0 {
        0
    } else {
        sum_of_sizes(packets.drop_last()) + packets.last().size
    }
}

/// Whether the packet at `k` is a key frame of the stream whose time is known.
pub open spec fn has_key_time(packets: Seq<PacketView>, stream: nat, k: int) -> bool {
    &&& 0 <= k < packets.len()
    &&& packets[k].stream_index == stream
    &&& packets[k].flags.contains('K')
    &&& packets[k].pts_micros is Some
}

/// The microseconds from the packet at `first` to that at `k`; what 63 bits hold where it is more.
pub open spec fn time_between(packets: Seq<PacketView>, first: int, k: int) -> int {
    let difference = packets[k].pts_micros->0 - packets[first].pts_micros->0;
    if difference < 0x8000_0000_0000_0000 {
        difference
    } else {
        0x7fff_ffff_ffff_ffff
    }
}

/// Whether a cut is possible before the packet at `k`: it is a key frame, behind the first, and
/// later than all key frames before it.
pub open spec fn can_be_cut(packets: Seq<PacketView>, stream: nat, first: int, k: int) -> bool {
    &&& has_key_time(packets, stream, k)
    &&& first < k
    &&& forall|j: int|
        first <= j < k && #[trigger] has_key_time(packets, stream, j) ==> time_between(
            packets,
            first,
            j,
        ) < time_between(packets, first, k)
}

/// Whether the packet at `first` is the first key frame of the stream whose time is known.
pub open spec fn is_first_key(packets: Seq<PacketView>, stream: nat, first: int) -> bool {
    &&& has_key_time(packets, stream, first)
    &&& forall|j: int| 0 <= j < first ==> !#[trigger] has_key_time(packets, stream, j)
}

/// Whether boundaries are those before the packets at the given places.
pub open spec fn are_boundaries_at(
    packets: Seq<PacketView>,
    stream: nat,
    first: int,
    boundaries: Seq<KeyframeBoundary>,
    places: Seq<int>,
) -> bool {
    &&& places.len() == boundaries.len()
    &&& forall|b: int|
        0 <= b < places.len() ==> can_be_cut(packets, stream, first, #[trigger] places[b])
            && boundaries[b].elapsed_micros == time_between(packets, first, places[b])
            && boundaries[b].payload_offset == sum_of_sizes(packets.take(places[b]))
    &&& forall|b: int, c: int| 0 <= b < c < places.len() ==> places[b] < places[c]
}

proof fn lemma_packets(lines: Seq<Seq<char>>, stream: nat)
    requires
        read_lines(lines, stream) is Ok,
    ensures
        read_lines(lines, stream)->Ok_0.reference_stream == stream,
        read_lines(lines, stream)->Ok_0.packet_number == lines.len(),
        read_lines(lines, stream)->Ok_0.total_payload_bytes == sum_of_sizes(packets_of(lines)),
        read_lines(lines, stream)->Ok_0.total_payload_bytes <= u128::MAX,
        read_lines(lines, stream)->Ok_0.first_pts is None ==> read_lines(
            lines,
            stream,
        )->Ok_0.keyframes.len() == 0 && forall|j: int|
            !#[trigger] has_key_time(packets_of(lines), stream, j),
        read_lines(lines, stream)->Ok_0.first_pts matches Some(pts) ==> exists|first: int|
            #[trigger] is_first_key(packets_of(lines), stream, first) && packets_of(
                lines,
            )[first].pts_micros == Some(pts),
    decreases lines.len(),
{
    if lines.len() > 0 {
        let front = lines.drop_last();
        lemma_packets(front, stream);
        let before = read_lines(front, stream)->Ok_0;
        let old_packets = packets_of(front);
        let packets = packets_of(lines);
        if lines.last().len() > 0 {
            let packet = packet_of(lines.last(), lines.len())->Ok_0;
            assert(packets == old_packets.push(packet));
            assert(packets.drop_last() == old_packets);
            let k = old_packets.len() as int;
            assert forall|j: int| j != k implies has_key_time(packets, stream, j)
                == #[trigger] has_key_time(old_packets, stream, j) by {}
            match before.first_pts {
                Some(pts) => {
                    let first = choose|first: int|
                        #[trigger] is_first_key(old_packets, stream, first)
                            && old_packets[first].pts_micros == Some(pts);
                    assert forall|j: int| 0 <= j < first implies !#[trigger] has_key_time(
                        packets,
                        stream,
                        j,
                    ) by {
                        assert(!has_key_time(old_packets, stream, j));
                    }
                    assert(has_key_time(old_packets, stream, first));
                    assert(is_first_key(packets, stream, first));
                },
                None => {
                    assert forall|j: int| 0 <= j < k implies !#[trigger] has_key_time(
                        packets,
                        stream,
                        j,
                    ) by {
                        assert(!has_key_time(old_packets, stream, j));
                    }
                    if has_key_time(packets, stream, k) {
                        assert(is_first_key(packets, stream, k));
                    }
                    assert forall|j: int| !has_key_time(packets, stream, k) implies !(
                    #[trigger] has_key_time(packets, stream, j)) by {
                        if j != k {
                            assert(!has_key_time(old_packets, stream, j));
                        }
                    }
                },
            }
        }
    }
}

/// What is known of the boundaries after the lines, and where they are.
proof fn lemma_places(lines: Seq<Seq<char>>, stream: nat, first: int) -> (places: Seq<int>)
    requires
        read_lines(lines, stream) is Ok,
        is_first_key(packets_of(lines), stream, first),
    ensures
        read_lines(lines, stream)->Ok_0.first_pts == packets_of(lines)[first].pts_micros,
        are_boundaries_at(
            packets_of(lines),
            stream,
            first,
            read_lines(lines, stream)->Ok_0.keyframes,
            places,
        ),
        forall|k: int|
            #[trigger] can_be_cut(packets_of(lines), stream, first, k) ==> places.contains(k),
        forall|j: int|
            first <= j && #[trigger] has_key_time(packets_of(lines), stream, j) ==> time_between(
                packets_of(lines),
                first,
                j,
            ) <= (if read_lines(lines, stream)->Ok_0.keyframes.len() > 0 {
                read_lines(lines, stream)->Ok_0.keyframes.last().elapsed_micros as int
            } else {
                0
            }),
    decreases lines.len(),
{
    let front = lines.drop_last();
    let packets = packets_of(lines);
    let reader = read_lines(lines, stream)->Ok_0;
    let before = read_lines(front, stream)->Ok_0;
    let old_packets = packets_of(front);
    lemma_packets(front, stream);
    if lines.last().len() == 0 {
        lemma_places(front, stream, first)
    } else {
        let packet = packet_of(lines.last(), lines.len())->Ok_0;
        let last = old_packets.len() as int;
        assert(packets == old_packets.push(packet));
        assert forall|j: int| j != last implies has_key_time(packets, stream, j)
            == #[trigger] has_key_time(old_packets, stream, j) by {}
        if first == last {
            assert forall|j: int| !#[trigger] has_key_time(old_packets, stream, j) by {
                if 0 <= j < last {
                    assert(!has_key_time(packets, stream, j));
                }
            }
            if before.first_pts is Some {
                let other = choose|other: int|
                    #[trigger] is_first_key(old_packets, stream, other)
                        && old_packets[other].pts_micros == before.first_pts;
                assert(has_key_time(old_packets, stream, other));
            }
            assert(has_key_time(packets, stream, first));
            assert(reader.keyframes == before.keyframes);
            assert forall|j: int| first <= j && #[trigger] has_key_time(packets, stream, j) implies j
                == first by {}
            Seq::empty()
        } else {
            assert(has_key_time(old_packets, stream, first));
            assert forall|j: int| 0 <= j < first implies !#[trigger] has_key_time(
                old_packets,
                stream,
                j,
            ) by {
                assert(!has_key_time(packets, stream, j));
            }
            let old_places = lemma_places(front, stream, first);
            let old_end = if before.keyframes.len() > 0 {
                before.keyframes.last().elapsed_micros as int
            } else {
                0
            };
            assert forall|k: int| k != last implies can_be_cut(packets, stream, first, k)
                == #[trigger] can_be_cut(old_packets, stream, first, k) by {
                lemma_can_be_cut_earlier(old_packets, packet, stream, first, k);
            }
            assert forall|b: int| 0 <= b < old_places.len() implies packets.take(
                #[trigger] old_places[b],
            ) == old_packets.take(old_places[b]) by {
                assert(can_be_cut(old_packets, stream, first, old_places[b]));
            }
            assert(packets.take(last) == old_packets);
            let grew = reader.keyframes.len() > before.keyframes.len();
            // The new packet is later than all key frames before it exactly where it is later than
            // the last boundary.
            assert(can_be_cut(packets, stream, first, last) == grew) by {
                if has_key_time(packets, stream, last) {
                    assert(time_between(packets, first, last) == elapsed(
                        before.first_pts->0,
                        packet.pts_micros->0,
                    ));
                    if grew {
                        assert forall|j: int|
                            first <= j < last && #[trigger] has_key_time(
                                packets,
                                stream,
                                j,
                            ) implies time_between(packets, first, j) < time_between(
                            packets,
                            first,
                            last,
                        ) by {
                            assert(has_key_time(old_packets, stream, j));
                            assert(time_between(packets, first, j) == time_between(
                                old_packets,
                                first,
                                j,
                            ));
                        }
                    } else if can_be_cut(packets, stream, first, last) {
                        assert(has_key_time(packets, stream, first));
                        if before.keyframes.len() > 0 {
                            let b = before.keyframes.len() - 1;
                            assert(can_be_cut(old_packets, stream, first, old_places[b]));
                            assert(has_key_time(packets, stream, old_places[b]));
                        }
                    }
                }
            }
            let places = if grew {
                old_places.push(last)
            } else {
                old_places
            };
            assert forall|b: int| 0 <= b < places.len() implies can_be_cut(
                packets,
                stream,
                first,
                #[trigger] places[b],
            ) && reader.keyframes[b].elapsed_micros == time_between(packets, first, places[b])
                && reader.keyframes[b].payload_offset == sum_of_sizes(packets.take(places[b])) by {
                if b < old_places.len() {
                    assert(places[b] == old_places[b]);
                    assert(can_be_cut(old_packets, stream, first, old_places[b]));
                }
            }
            assert forall|k: int| #[trigger] can_be_cut(
                packets,
                stream,
                first,
                k,
            ) implies places.contains(k) by {
                if k == last {
                    assert(places[places.len() - 1] == last);
                } else {
                    assert(can_be_cut(old_packets, stream, first, k));
                    let b = choose|b: int| 0 <= b < old_places.len() && old_places[b] == k;
                    assert(places[b] == k);
                }
            }
            assert forall|b: int, c: int| 0 <= b < c < places.len() implies places[b]
                < places[c] by {
                assert(can_be_cut(old_packets, stream, first, old_places[b]));
                assert(places[b] == old_places[b]);
            }
            assert forall|j: int|
                first <= j && #[trigger] has_key_time(packets, stream, j) implies time_between(
                packets,
                first,
                j,
            ) <= (if reader.keyframes.len() > 0 {
                reader.keyframes.last().elapsed_micros as int
            } else {
                0
            }) by {
                if j != last {
                    assert(has_key_time(old_packets, stream, j));
                    assert(time_between(packets, first, j) == time_between(old_packets, first, j));
                }
            }
            places
        }
    }
}

/// Whether a cut is possible before a packet does not depend on the packets behind it.
proof fn lemma_can_be_cut_earlier(
    packets: Seq<PacketView>,
    packet: PacketView,
    stream: nat,
    first: int,
    k: int,
)
    requires
        0 <= first < packets.len(),
        k != packets.len(),
    ensures
        can_be_cut(packets.push(packet), stream, first, k) == can_be_cut(packets, stream, first, k),
{
    let more = packets.push(packet);
    if 0 <= k < packets.len() {
        assert forall|j: int| first <= j < k implies #[trigger] has_key_time(more, stream, j)
            == has_key_time(packets, stream, j) && time_between(more, first, j) == time_between(
            packets,
            first,
            j,
        ) by {}
        assert(time_between(more, first, k) == time_between(packets, first, k));
        if can_be_cut(packets, stream, first, k) {
            assert forall|j: int|
                first <= j < k && #[trigger] has_key_time(more, stream, j) implies time_between(
                more,
                first,
                j,
            ) < time_between(more, first, k) by {
                assert(has_key_time(packets, stream, j));
            }
        }
        if can_be_cut(more, stream, first, k) {
            assert forall|j: int|
                first <= j < k && #[trigger] has_key_time(packets, stream, j) implies time_between(
                packets,
                first,
                j,
            ) < time_between(packets, first, k) by {
                assert(has_key_time(more, stream, j));
            }
        }
    }
}

/// The boundaries of a layout are before exactly the key frames of the stream that are behind the
/// first and later than all key frames before them. The time of each is that since the first key
/// frame, its offset the size of all packets before it, and the payload the size of all packets.
/// The places of those key frames among the packets are what this gives.
pub proof fn law_layout_complete(lines: Seq<Seq<char>>, stream: nat, first: int) -> (places: Seq<
    int,
>)
    requires
        packet_layout(lines, stream) is Ok,
        is_first_key(packets_of(lines), stream, first),
    ensures
        packet_layout(lines, stream)->Ok_0.total_payload_bytes == sum_of_sizes(packets_of(lines)),
        are_boundaries_at(
            packets_of(lines),
            stream,
            first,
            packet_layout(lines, stream)->Ok_0.keyframes,
            places,
        ),
        forall|k: int|
            #[trigger] can_be_cut(packets_of(lines), stream, first, k) ==> places.contains(k),
{
    lemma_packets(lines, stream);
    lemma_places(lines, stream, first)
}

/// Whether every line that is not empty describes a packet.
pub open spec fn are_packets(lines: Seq<Seq<char>>) -> bool {
    forall|i: int|
        0 <= i < lines.len() && (#[trigger] lines[i]).len() > 0 ==> packet_of(
            lines[i],
            (i + 1) as nat,
        ) is Ok
}

proof fn lemma_readable(lines: Seq<Seq<char>>, stream: nat)
    ensures
        read_lines(lines, stream) is Ok <==> are_packets(lines) && sum_of_sizes(packets_of(lines))
            <= u128::MAX,
    decreases lines.len(),
{
    if lines.len() > 0 {
        let front = lines.drop_last();
        lemma_readable(front, stream);
        if lines.last().len() > 0 {
            assert(packets_of(lines).drop_last() == packets_of(front));
        }
        assert(are_packets(lines) ==> are_packets(front)) by {
            if are_packets(lines) {
                assert forall|i: int|
                    0 <= i < front.len() && (#[trigger] front[i]).len() > 0 implies packet_of(
                    front[i],
                    (i + 1) as nat,
                ) is Ok by {
                    assert(lines[i] == front[i]);
                }
            }
        }
        assert(lines[lines.len() - 1] == lines.last());
        if are_packets(front) && (lines.last().len() > 0 ==> packet_of(
            lines.last(),
            lines.len(),
        ) is Ok) {
            assert forall|i: int|
                0 <= i < lines.len() && (#[trigger] lines[i]).len() > 0 implies packet_of(
                lines[i],
                (i + 1) as nat,
            ) is Ok by {
                if i < front.len() {
                    assert(front[i] == lines[i]);
                }
            }
        }
        if read_lines(front, stream) is Ok {
            lemma_packets(front, stream);
        }
    }
}

/// There is a layout exactly where every line that is not empty describes a packet, the packets
/// have some size in all that 128 bits hold, and one of them is a key frame of the stream whose
/// time is known.
pub proof fn law_layout_exists(lines: Seq<Seq<char>>, stream: nat)
    ensures
        packet_layout(lines, stream) is Ok <==> are_packets(lines) && 0 < sum_of_sizes(
            packets_of(lines),
        ) <= u128::MAX && exists|k: int| #[trigger] has_key_time(packets_of(lines), stream, k),
{
    lemma_readable(lines, stream);
    if read_lines(lines, stream) is Ok {
        lemma_packets(lines, stream);
        let reader = read_lines(lines, stream)->Ok_0;
        if reader.first_pts is Some {
            let first = choose|first: int|
                #[trigger] is_first_key(packets_of(lines), stream, first) && packets_of(
                    lines,
                )[first].pts_micros == reader.first_pts;
            assert(has_key_time(packets_of(lines), stream, first));
        }
        if lines.len() == 0 {
            assert(packets_of(lines) == Seq::<PacketView>::empty());
        }
    }
}

// ---------------------------------------------------------------------------
// Laws of packets
// ---------------------------------------------------------------------------

/// Seconds as ffprobe writes them: a minus sign or none, digits, and a point with more digits or
/// none.
pub open spec fn written_time(
    negative: bool,
    whole: Seq<char>,
    fraction: Option<Seq<char>>,
) -> Seq<char> {
    let sign = if negative {
        seq!['-']
    } else {
        Seq::empty()
    };
    match fraction {
        Some(digits) => sign + (whole.push('.') + digits),
        None => sign + whole,
    }
}

/// The digits behind the point, filled up to six.
pub open spec fn six_digits(fraction: Option<Seq<char>>) -> Seq<char> {
    match fraction {
        Some(digits) => digits + text::zeros((6 - digits.len()) as nat),
        None => text::zeros(6),
    }
}

pub open spec fn is_six_at_most(fraction: Option<Seq<char>>) -> bool {
    fraction matches Some(digits) ==> digits.len() <= 6 && text::all_digits(digits)
}

proof fn lemma_written_time(negative: bool, whole: Seq<char>, fraction: Option<Seq<char>>)
    requires
        text::is_number(whole),
        is_six_at_most(fraction),
    ensures
        is_negative(written_time(negative, whole, fraction)) == negative,
        without_sign(written_time(negative, whole, fraction)) == written_time(
            false,
            whole,
            fraction,
        ),
        text::split(written_time(false, whole, fraction), '.') == (match fraction {
            Some(digits) => seq![whole, digits],
            None => seq![whole],
        }),
        micros_of(written_time(false, whole, fraction)) == text::number(
            whole + six_digits(fraction),
        ),
{
    let plain = written_time(false, whole, fraction);
    let value = written_time(negative, whole, fraction);
    assert(text::is_digit(whole[0]));
    text::lemma_only_digits(whole, '.');
    text::law_split_without_separator(whole, '.');
    assert(text::power_of_ten(6) == 1_000_000) by {
        reveal_with_fuel(text::power_of_ten, 7);
    }
    match fraction {
        Some(digits) => {
            text::lemma_only_digits(digits, '.');
            text::law_split_one_more(whole, '.', digits);
            assert(plain == whole.push('.') + digits);
            text::law_trailing_zeros(digits, (6 - digits.len()) as nat);
        },
        None => {
            assert(plain == whole);
            text::lemma_leading_zeros(6, Seq::empty());
            assert(text::zeros(6) + Seq::<char>::empty() == text::zeros(6));
        },
    }
    text::law_number_of_two(whole, six_digits(fraction));
    assert(plain[0] == whole[0]);
    if negative {
        assert(value[0] == '-');
        assert(value.skip(1) == plain);
    } else {
        assert(value == plain);
    }
}

/// A time is the number of its digits, those behind the point filled up to six, in microseconds;
/// where 64 bits with a sign hold it.
pub proof fn law_probe_time(
    negative: bool,
    whole: Seq<char>,
    fraction: Option<Seq<char>>,
    packet_number: nat,
)
    requires
        text::is_number(whole),
        is_six_at_most(fraction),
    ensures
        ({
            let magnitude = text::number(whole + six_digits(fraction)) as int;
            let micros = if negative {
                -magnitude
            } else {
                magnitude
            };
            let read = probe_time(written_time(negative, whole, fraction), packet_number);
            &&& -0x8000_0000_0000_0000 <= micros <= 0x7fff_ffff_ffff_ffff ==> read == Ok::<
                int,
                Seq<char>,
            >(micros)
            &&& !(-0x8000_0000_0000_0000 <= micros <= 0x7fff_ffff_ffff_ffff) ==> read == Err::<
                int,
                Seq<char>,
            >(
                "第 "@ + text::decimal(packet_number) + " 个媒体包的时间戳 `"@ + written_time(
                    negative,
                    whole,
                    fraction,
                ) + "` 过大"@,
            )
        }),
{
    lemma_written_time(negative, whole, fraction);
}

/// Nothing else is a time.
pub proof fn law_only_probe_times(value: Seq<char>, packet_number: nat)
    requires
        probe_time(value, packet_number) is Ok,
    ensures
        exists|negative: bool, whole: Seq<char>, fraction: Option<Seq<char>>|
            value == #[trigger] written_time(negative, whole, fraction) && text::is_number(whole)
                && is_six_at_most(fraction),
{
    lemma_time_parts(value);
}

/// A time is made of a sign or none, digits, and a point with more digits or none.
proof fn lemma_time_parts(value: Seq<char>)
    requires
        is_probe_time(value),
    ensures
        exists|negative: bool, whole: Seq<char>, fraction: Option<Seq<char>>|
            value == #[trigger] written_time(negative, whole, fraction) && text::is_number(whole)
                && is_six_at_most(fraction),
{
    let negative = is_negative(value);
    let plain = without_sign(value);
    let parts = text::split(plain, '.');
    text::law_join_split(plain, '.');
    text::law_split_parts(plain, '.');
    let whole = parts[0];
    let fraction = if parts.len() == 2 {
        Some(parts[1])
    } else {
        None
    };
    if parts.len() == 2 {
        reveal_with_fuel(text::join, 3);
        assert(parts.drop_last() == seq![whole]);
        assert(whole + seq!['.'] + parts[1] == whole.push('.') + parts[1]);
    }
    assert(plain == written_time(false, whole, fraction));
    if negative {
        assert(seq!['-'] + plain == value);
    }
    assert(value == written_time(negative, whole, fraction));
}

/// What is told of a text that is no time at all.
pub proof fn law_no_probe_time(value: Seq<char>, packet_number: nat)
    requires
        !exists|negative: bool, whole: Seq<char>, fraction: Option<Seq<char>>|
            value == #[trigger] written_time(negative, whole, fraction) && text::is_number(whole)
                && is_six_at_most(fraction),
    ensures
        probe_time(value, packet_number) == Err::<int, Seq<char>>(
            "第 "@ + text::decimal(packet_number) + " 个媒体包的时间戳 `"@ + value + "` 无效"@,
        ),
{
    if is_probe_time(value) {
        lemma_time_parts(value);
    }
}

/// The value of a field with this key: what stands behind the key and `=`.
pub open spec fn value_under(field: Seq<char>, key: Seq<char>) -> Option<Seq<char>> {
    let start = key.push('=');
    if start.len() <= field.len() && field.take(start.len() as int) == start {
        Some(field.skip(start.len() as int))
    } else {
        None
    }
}

/// The value of the last field with this key.
pub open spec fn last_under(fields: Seq<Seq<char>>, key: Seq<char>) -> Option<Seq<char>>
    decreases fields.len(),
{
    if fields.len() == 0 {
        None
    } else {
        match value_under(fields.last(), key) {
            Some(value) => Some(value),
            None => last_under(fields.drop_last(), key),
        }
    }
}

/// The value of the last field `pts_time` that is not `N/A`.
pub open spec fn last_time(fields: Seq<Seq<char>>) -> Option<Seq<char>>
    decreases fields.len(),
{
    if fields.len() == 0 {
        None
    } else {
        match value_under(fields.last(), "pts_time"@) {
            Some(value) if value != "N/A"@ => Some(value),
            _ => last_time(fields.drop_last()),
        }
    }
}

/// Whether a field says something that can be understood, or nothing of interest.
pub open spec fn is_sound_field(field: Seq<char>, packet_number: nat) -> bool {
    &&& value_under(field, "stream_index"@) matches Some(value) ==> (text::unsigned_value(
        value,
    ) matches Some(n) && n <= u32::MAX)
    &&& value_under(field, "size"@) matches Some(value) ==> (text::unsigned_value(
        value,
    ) matches Some(n) && n <= u64::MAX)
    &&& value_under(field, "pts_time"@) matches Some(value) ==> value == "N/A"@ || probe_time(
        value,
        packet_number,
    ) is Ok
}

proof fn lemma_first_index(s: Seq<char>, c: char)
    ensures
        first_index_facts(s, c),
    decreases s.len(),
{
    if s.len() > 0 && s[0] != c {
        let tail = s.skip(1);
        lemma_first_index(tail, c);
        let at = text::first_index(tail, c);
        if s.contains(c) {
            let k = choose|k: int| 0 <= k < s.len() && s[k] == c;
            assert(tail[k - 1] == c);
            assert(tail.contains(c));
            assert(s[at as int + 1] == tail[at as int]);
        }
        assert forall|i: int| 0 <= i < at + 1 implies s[i] != c by {
            if i > 0 {
                assert(s[i] == tail[i - 1]);
            }
        }
        if tail.contains(c) {
            let k = choose|k: int| 0 <= k < tail.len() && tail[k] == c;
            assert(s[k + 1] == c);
        }
    } else if s.len() > 0 {
        assert(s[0] == c);
    }
}

spec fn first_index_facts(s: Seq<char>, c: char) -> bool {
    let at = text::first_index(s, c);
    &&& at <= s.len()
    &&& forall|i: int| 0 <= i < at ==> s[i] != c
    &&& s.contains(c) ==> at < s.len() && s[at as int] == c
    &&& !s.contains(c) ==> at == s.len()
}

/// A field has a key exactly where it starts with the key and `=`.
proof fn lemma_value_under(field: Seq<char>, key: Seq<char>)
    requires
        !key.contains('='),
    ensures
        ({
            let at = text::first_index(field, '=') as int;
            value_under(field, key) == (if field.contains('=') && field.take(at) == key {
                Some(field.skip(at + 1))
            } else {
                None
            })
        }),
{
    lemma_first_index(field, '=');
    let at = text::first_index(field, '=') as int;
    let start = key.push('=');
    if field.contains('=') && field.take(at) == key {
        assert(field.take(start.len() as int) == start);
    }
    if start.len() <= field.len() && field.take(start.len() as int) == start {
        let k = key.len() as int;
        assert(field[k] == start[k]);
        assert(field.contains('='));
        if at < k {
            assert(field[at] == start[at]);
            assert(key[at] == '=');
        }
        if at > k {
            assert(field[k] != '=');
        }
        assert(field.take(at) == key);
    }
}

proof fn lemma_keys()
    ensures
        !"stream_index"@.contains('='),
        !"size"@.contains('='),
        !"pts_time"@.contains('='),
        !"flags"@.contains('='),
        "stream_index"@ != "size"@,
        "stream_index"@ != "pts_time"@,
        "stream_index"@ != "flags"@,
        "size"@ != "pts_time"@,
        "size"@ != "flags"@,
        "pts_time"@ != "flags"@,
{
    reveal_strlit("stream_index");
    reveal_strlit("size");
    reveal_strlit("pts_time");
    reveal_strlit("flags");
    assert("stream_index"@.len() == 12 && "size"@.len() == 4 && "pts_time"@.len() == 8
        && "flags"@.len() == 5);
}

/// What one field changes.
proof fn lemma_scan_field(scan: PacketScan, field: Seq<char>, packet_number: nat)
    ensures
        ({
            let next = scan_field(scan, field, packet_number);
            &&& next is Ok <==> is_sound_field(field, packet_number)
            &&& next matches Ok(next) ==> {
                &&& next.stream_index == (match value_under(field, "stream_index"@) {
                    Some(value) => text::unsigned_value(value),
                    None => scan.stream_index,
                })
                &&& next.size == (match value_under(field, "size"@) {
                    Some(value) => text::unsigned_value(value),
                    None => scan.size,
                })
                &&& next.flags == (match value_under(field, "flags"@) {
                    Some(value) => value,
                    None => scan.flags,
                })
                &&& next.pts_micros == (match value_under(field, "pts_time"@) {
                    Some(value) if value != "N/A"@ => Some(
                        probe_time(value, packet_number)->Ok_0,
                    ),
                    _ => scan.pts_micros,
                })
            }
        }),
{
    lemma_keys();
    lemma_value_under(field, "stream_index"@);
    lemma_value_under(field, "size"@);
    lemma_value_under(field, "pts_time"@);
    lemma_value_under(field, "flags"@);
}

proof fn lemma_scan_fields(fields: Seq<Seq<char>>, packet_number: nat)
    ensures
        scan_fields(fields, packet_number) is Ok <==> forall|i: int|
            0 <= i < fields.len() ==> is_sound_field(#[trigger] fields[i], packet_number),
        scan_fields(fields, packet_number) matches Ok(scan) ==> {
            &&& scan.stream_index == (match last_under(fields, "stream_index"@) {
                Some(value) => text::unsigned_value(value),
                None => None,
            })
            &&& scan.size == (match last_under(fields, "size"@) {
                Some(value) => text::unsigned_value(value),
                None => None,
            })
            &&& scan.flags == (match last_under(fields, "flags"@) {
                Some(value) => value,
                None => Seq::empty(),
            })
            &&& scan.pts_micros == (match last_time(fields) {
                Some(value) => Some(probe_time(value, packet_number)->Ok_0),
                None => None,
            })
        },
    decreases fields.len(),
{
    if fields.len() > 0 {
        let front = fields.drop_last();
        lemma_scan_fields(front, packet_number);
        match scan_fields(front, packet_number) {
            Ok(scan) => {
                lemma_scan_field(scan, fields.last(), packet_number);
                assert(fields[fields.len() - 1] == fields.last());
                if is_sound_field(fields.last(), packet_number) {
                    assert forall|i: int| 0 <= i < fields.len() implies is_sound_field(
                        #[trigger] fields[i],
                        packet_number,
                    ) by {
                        if i < front.len() {
                            assert(fields[i] == front[i]);
                        }
                    }
                }
            },
            Err(_) => {
                let i = choose|i: int|
                    0 <= i < front.len() && !is_sound_field(#[trigger] front[i], packet_number);
                assert(fields[i] == front[i]);
            },
        }
    }
}

/// A line describes a packet exactly where all of its fields can be understood and it tells a
/// stream and a size. Of two fields with one key the later counts; there are no flags where none
/// are told, and no time where none but `N/A` is told.
pub proof fn law_packet(line: Seq<char>, packet_number: nat)
    ensures
        ({
            let fields = text::split(line, '|');
            &&& packet_of(line, packet_number) is Ok <==> (forall|i: int|
                0 <= i < fields.len() ==> is_sound_field(#[trigger] fields[i], packet_number))
                && last_under(fields, "stream_index"@) is Some && last_under(fields, "size"@) is Some
            &&& packet_of(line, packet_number) matches Ok(packet) ==> {
                &&& Some(packet.stream_index) == text::unsigned_value(
                    last_under(fields, "stream_index"@)->0,
                )
                &&& Some(packet.size) == text::unsigned_value(last_under(fields, "size"@)->0)
                &&& packet.flags == (match last_under(fields, "flags"@) {
                    Some(flags) => flags,
                    None => Seq::empty(),
                })
                &&& packet.pts_micros == (match last_time(fields) {
                    Some(time) => Some(probe_time(time, packet_number)->Ok_0),
                    None => None,
                })
            }
        }),
{
    let fields = text::split(line, '|');
    lemma_scan_fields(fields, packet_number);
    if forall|i: int|
        0 <= i < fields.len() ==> is_sound_field(#[trigger] fields[i], packet_number) {
        lemma_last_under_sound(fields, "stream_index"@, packet_number);
        lemma_last_under_sound(fields, "size"@, packet_number);
    }
}

/// The last value under a key is that of one of the fields.
proof fn lemma_last_under_sound(fields: Seq<Seq<char>>, key: Seq<char>, packet_number: nat)
    ensures
        last_under(fields, key) matches Some(value) ==> exists|i: int|
            0 <= i < fields.len() && value_under(#[trigger] fields[i], key) == Some(value),
    decreases fields.len(),
{
    if fields.len() > 0 {
        let front = fields.drop_last();
        lemma_last_under_sound(front, key, packet_number);
        match value_under(fields.last(), key) {
            Some(_) => {
                assert(fields[fields.len() - 1] == fields.last());
            },
            None => {
                if last_under(front, key) is Some {
                    let i = choose|i: int|
                        0 <= i < front.len() && value_under(#[trigger] front[i], key) == last_under(
                            front,
                            key,
                        );
                    assert(fields[i] == front[i]);
                }
            },
        }
    }
}

// ---------------------------------------------------------------------------
// Laws of programs
// ---------------------------------------------------------------------------

/// A program can be used exactly where it could be started and ended with success. Else it is told
/// which program, why, and what to do about it.
pub proof fn law_program_failure(
    binary: Seq<char>,
    label: Seq<char>,
    variable: Seq<char>,
    outcome: OutcomeView,
)
    ensures
        program_failure(binary, label, variable, outcome) is None <==> (outcome matches
            OutcomeView::Exited(success, _) && success),
        outcome matches OutcomeView::Failed(cause) ==> program_failure(
            binary,
            label,
            variable,
            outcome,
        ) == Some(
            "无法运行 `"@ + binary + "`："@ + cause + "。请安装 "@ + label + " 或设置 "@ + variable,
        ),
        outcome matches OutcomeView::Exited(success, status) ==> !success ==> program_failure(
            binary,
            label,
            variable,
            outcome,
        ) == Some("`"@ + binary + "` 不可用（退出状态："@ + status + "）"@),
{
}

/// FFmpeg did its work exactly where it could be started and ended with success. Else it is told
/// what went wrong.
pub proof fn law_run_failure(binary: Seq<char>, outcome: OutcomeView)
    ensures
        run_failure(binary, outcome) is None <==> (outcome matches OutcomeView::Exited(success, _)
            && success),
        outcome matches OutcomeView::Failed(cause) ==> run_failure(binary, outcome) == Some(
            "启动 `"@ + binary + "` 失败："@ + cause,
        ),
        outcome matches OutcomeView::Exited(success, status) ==> !success ==> run_failure(
            binary,
            outcome,
        ) == Some("FFmpeg 执行失败（退出状态："@ + status + "）"@),
{
}

/// Probing gives the layout that was read exactly where it could be read and ffprobe ended with
/// success. Else it is told what went wrong: that ffprobe could not be waited for, else what could
/// not be read, else how ffprobe ended.
pub proof fn law_probe_result(
    layout: std::result::Result<LayoutView, Seq<char>>,
    outcome: OutcomeView,
)
    ensures
        probe_result_of(layout, outcome) is Ok <==> layout is Ok && (outcome matches
            OutcomeView::Exited(success, _) && success),
        probe_result_of(layout, outcome) is Ok ==> probe_result_of(layout, outcome) == layout,
        outcome matches OutcomeView::Failed(cause) ==> probe_result_of(layout, outcome) == Err::<
            LayoutView,
            Seq<char>,
        >("等待 ffprobe 结束失败："@ + cause),
        outcome is Exited && layout is Err ==> probe_result_of(layout, outcome) == layout,
        outcome matches OutcomeView::Exited(success, status) ==> !success && layout is Ok
            ==> probe_result_of(layout, outcome) == Err::<LayoutView, Seq<char>>(
            "ffprobe 分析失败（退出状态："@ + status + "）"@,
        ),
{
}

/// The stream is the number on the first line that is not blank.
pub proof fn law_stream_number(answer: Seq<char>, line: int)
    requires
        0 <= line < text::split(answer, '\n').len(),
        forall|j: int|
            0 <= j < line ==> text::trimmed(#[trigger] text::split(answer, '\n')[j]).len() == 0,
        text::trimmed(text::split(answer, '\n')[line]).len() > 0,
    ensures
        match text::unsigned_value(text::trimmed(text::split(answer, '\n')[line])) {
            Some(n) if n <= u32::MAX => stream_number(answer) == Ok::<nat, Seq<char>>(n),
            _ => stream_number(answer) == Err::<nat, Seq<char>>(
                "ffprobe 返回了无效的视频流编号"@,
            ),
        },
{
    lemma_first_filled(text::split(answer, '\n'), line);
}

/// Where all lines are blank, there is no stream.
pub proof fn law_no_stream(answer: Seq<char>)
    requires
        forall|j: int|
            0 <= j < text::split(answer, '\n').len() ==> text::trimmed(
                #[trigger] text::split(answer, '\n')[j],
            ).len() == 0,
    ensures
        stream_number(answer) == Err::<nat, Seq<char>>("按大小分片需要至少一个视频流"@),
{
    let lines = text::split(answer, '\n');
    lemma_first_filled(lines, lines.len() as int);
}

proof fn lemma_first_filled(lines: Seq<Seq<char>>, at: int)
    requires
        0 <= at <= lines.len(),
        forall|j: int| 0 <= j < at ==> text::trimmed(#[trigger] lines[j]).len() == 0,
        at < lines.len() ==> text::trimmed(lines[at]).len() > 0,
    ensures
        first_filled(lines) == (if at < lines.len() {
            Some(text::trimmed(lines[at]))
        } else {
            None
        }),
    decreases lines.len(),
{
    if at > 0 {
        let rest = lines.skip(1);
        assert(text::trimmed(lines[0]).len() == 0);
        assert forall|j: int| 0 <= j < at - 1 implies text::trimmed(#[trigger] rest[j]).len()
            == 0 by {
            assert(rest[j] == lines[j + 1]);
        }
        lemma_first_filled(rest, at - 1);
    }
}

/// What ffprobe's answer about the stream means: the text that it wrote where it ended with
/// success and wrote Unicode, else what went wrong.
pub proof fn law_reference_stream(binary: Seq<char>, report: StreamReportView, detail: Seq<char>)
    ensures
        report matches StreamReportView::NotStarted(cause) ==> reference_stream_of(
            binary,
            report,
            detail,
        ) == Err::<nat, Seq<char>>("启动 `"@ + binary + "` 失败："@ + cause),
        report matches StreamReportView::Finished { success, status, stdout, stderr } ==> {
            &&& !success ==> reference_stream_of(binary, report, detail) == Err::<nat, Seq<char>>(
                "ffprobe 无法读取视频流（退出状态："@ + status + "）："@ + text::trimmed(
                    detail,
                ),
            )
            &&& success && !vstd::utf8::valid_utf8(stdout) ==> reference_stream_of(
                binary,
                report,
                detail,
            ) == Err::<nat, Seq<char>>("ffprobe 返回了非 UTF-8 的视频流信息"@)
            &&& success && vstd::utf8::valid_utf8(stdout) ==> reference_stream_of(
                binary,
                report,
                detail,
            ) == stream_number(vstd::utf8::decode_utf8(stdout))
            &&& error_output(report) == stderr
        },
{
}

/// A word of letters, digits and a few signs is shown as it is; any other starts and ends with a
/// quote.
pub proof fn law_quoted_only_where_needed(value: Seq<char>)
    ensures
        value.len() > 0 && (forall|i: int|
            0 <= i < value.len() ==> ('a' <= #[trigger] value[i] <= 'z' || 'A' <= value[i] <= 'Z'
                || '0' <= value[i] <= '9' || value[i] == '_' || value[i] == '-' || value[i] == '.'
                || value[i] == '/' || value[i] == ':' || value[i] == '=' || value[i] == '+'
                || value[i] == ',')) ==> quoted(value) == value,
        value.len() == 0 || (exists|i: int|
            0 <= i < value.len() && !('a' <= #[trigger] value[i] <= 'z' || 'A' <= value[i] <= 'Z'
                || '0' <= value[i] <= '9' || value[i] == '_' || value[i] == '-' || value[i] == '.'
                || value[i] == '/' || value[i] == ':' || value[i] == '=' || value[i] == '+'
                || value[i] == ',')) ==> quoted(value)[0] == '\'' && quoted(value).last() == '\'',
{
    reveal_strlit("'");
    if value.len() > 0 && (exists|i: int|
        0 <= i < value.len() && !('a' <= #[trigger] value[i] <= 'z' || 'A' <= value[i] <= 'Z'
            || '0' <= value[i] <= '9' || value[i] == '_' || value[i] == '-' || value[i] == '.'
            || value[i] == '/' || value[i] == ':' || value[i] == '=' || value[i] == '+' || value[i]
            == ',')) {
        assert(!all_plain(value));
    }
}

/// What the contracts see of a layout, a packet and an outcome is all that they hold.
pub proof fn law_views(
    layout: PacketLayout,
    packet: ProbePacket,
    cause: String,
    success: bool,
    status: String,
    stdout: Vec<u8>,
    stderr: Vec<u8>,
)
    ensures
        layout@.total_payload_bytes == layout.total_payload_bytes,
        layout@.keyframes == layout.keyframes@,
        packet@.stream_index == packet.stream_index,
        packet@.size == packet.size,
        packet@.flags == packet.flags@,
        packet.pts_micros matches Some(micros) ==> packet@.pts_micros == Some(micros as int),
        packet.pts_micros is None ==> packet@.pts_micros is None,
        ProgramOutcome::Failed(cause)@ == OutcomeView::Failed(cause@),
        ProgramOutcome::Exited(success, status)@ == OutcomeView::Exited(success, status@),
        StreamReport::NotStarted(cause)@ == StreamReportView::NotStarted(cause@),
        (StreamReport::Finished { success, status, stdout, stderr })@ == (
        StreamReportView::Finished {
            success,
            status: status@,
            stdout: stdout@,
            stderr: stderr@,
        }),
{
}

/// What is seen of a number is the number, and of a failure its message.
pub proof fn law_seen_index(number: u32, error: AppError)
    ensures
        seen_index(Ok(number)) == Ok::<nat, Seq<char>>(number as nat),
        seen_index(Err(error)) == Err::<nat, Seq<char>>(error@),
{
}

// ---------------------------------------------------------------------------
// Laws of what is told of a report
// ---------------------------------------------------------------------------

/// What is told of a field that cannot be understood.
pub open spec fn field_failure(field: Seq<char>, packet_number: nat) -> Seq<char> {
    let start = "第 "@ + text::decimal(packet_number);
    if value_under(field, "stream_index"@) is Some {
        start + " 个媒体包的流编号无效"@
    } else if value_under(field, "size"@) is Some {
        start + " 个媒体包的大小无效"@
    } else {
        probe_time(value_under(field, "pts_time"@)->0, packet_number)->Err_0
    }
}

proof fn lemma_field_failure(scan: PacketScan, field: Seq<char>, packet_number: nat)
    requires
        !is_sound_field(field, packet_number),
    ensures
        scan_field(scan, field, packet_number) == Err::<PacketScan, Seq<char>>(
            field_failure(field, packet_number),
        ),
{
    lemma_keys();
    lemma_value_under(field, "stream_index"@);
    lemma_value_under(field, "size"@);
    lemma_value_under(field, "pts_time"@);
    lemma_value_under(field, "flags"@);
}

/// Of the fields of a line the first that cannot be understood is told; where all can, that the
/// stream is missing, or else the size.
pub proof fn law_packet_failures(line: Seq<char>, packet_number: nat, bad: int)
    ensures
        ({
            let fields = text::split(line, '|');
            let start = "第 "@ + text::decimal(packet_number);
            &&& 0 <= bad < fields.len() && !is_sound_field(fields[bad], packet_number) && (forall|
                i: int,
            |
                0 <= i < bad ==> is_sound_field(#[trigger] fields[i], packet_number)) ==> packet_of(
                line,
                packet_number,
            ) == Err::<PacketView, Seq<char>>(field_failure(fields[bad], packet_number))
            &&& (forall|i: int|
                0 <= i < fields.len() ==> is_sound_field(#[trigger] fields[i], packet_number))
                && last_under(fields, "stream_index"@) is None ==> packet_of(line, packet_number)
                == Err::<PacketView, Seq<char>>(start + " 个媒体包缺少流编号"@)
            &&& (forall|i: int|
                0 <= i < fields.len() ==> is_sound_field(#[trigger] fields[i], packet_number))
                && last_under(fields, "stream_index"@) is Some && last_under(fields, "size"@)
                is None ==> packet_of(line, packet_number) == Err::<PacketView, Seq<char>>(
                start + " 个媒体包缺少大小"@,
            )
        }),
{
    let fields = text::split(line, '|');
    lemma_scan_fields(fields, packet_number);
    if 0 <= bad < fields.len() && !is_sound_field(fields[bad], packet_number) && (forall|i: int|
        0 <= i < bad ==> is_sound_field(#[trigger] fields[i], packet_number)) {
        let front = fields.take(bad);
        lemma_scan_fields(front, packet_number);
        assert forall|i: int| 0 <= i < front.len() implies is_sound_field(
            #[trigger] front[i],
            packet_number,
        ) by {
            assert(front[i] == fields[i]);
        }
        lemma_field_failure(scan_fields(front, packet_number)->Ok_0, fields[bad], packet_number);
        assert(fields.take(bad + 1).drop_last() == front);
        assert(fields.take(bad + 1).last() == fields[bad]);
        lemma_scan_fields_stops(fields, bad + 1, packet_number);
    }
    if forall|i: int|
        0 <= i < fields.len() ==> is_sound_field(#[trigger] fields[i], packet_number) {
        lemma_last_under_sound(fields, "stream_index"@, packet_number);
        lemma_last_under_sound(fields, "size"@, packet_number);
    }
}

/// Of the lines of a report the first that describes no packet is told, with what is wrong with
/// it; or that the sizes are more than 128 bits hold. Where all lines can be read, it is told that
/// there is no payload, or else that there is no key frame.
pub proof fn law_layout_failures(lines: Seq<Seq<char>>, stream: nat, bad: int)
    ensures
        0 <= bad < lines.len() && lines[bad].len() > 0 && packet_of(
            lines[bad],
            (bad + 1) as nat,
        ) is Err && are_packets(lines.take(bad)) && sum_of_sizes(packets_of(lines.take(bad)))
            <= u128::MAX ==> packet_layout(lines, stream) == Err::<LayoutView, Seq<char>>(
            packet_of(lines[bad], (bad + 1) as nat)->Err_0,
        ),
        0 <= bad < lines.len() && are_packets(lines.take(bad + 1)) && sum_of_sizes(
            packets_of(lines.take(bad)),
        ) <= u128::MAX && sum_of_sizes(packets_of(lines.take(bad + 1))) > u128::MAX
            ==> packet_layout(lines, stream) == Err::<LayoutView, Seq<char>>(
            "媒体包总大小溢出"@,
        ),
        are_packets(lines) && sum_of_sizes(packets_of(lines)) == 0 ==> packet_layout(lines, stream)
            == Err::<LayoutView, Seq<char>>("ffprobe 未返回可用的媒体包"@),
        are_packets(lines) && 0 < sum_of_sizes(packets_of(lines)) <= u128::MAX && (forall|k: int|
            !#[trigger] has_key_time(packets_of(lines), stream, k)) ==> packet_layout(lines, stream)
            == Err::<LayoutView, Seq<char>>("第一视频流中没有带时间戳的关键帧"@),
{
    lemma_readable(lines, stream);
    if read_lines(lines, stream) is Ok {
        lemma_packets(lines, stream);
        let reader = read_lines(lines, stream)->Ok_0;
        if reader.first_pts is Some {
            let first = choose|first: int|
                #[trigger] is_first_key(packets_of(lines), stream, first) && packets_of(
                    lines,
                )[first].pts_micros == reader.first_pts;
            assert(has_key_time(packets_of(lines), stream, first));
        }
    }
    if 0 <= bad < lines.len() {
        let front = lines.take(bad);
        let more = lines.take(bad + 1);
        assert(more.drop_last() == front);
        assert(more.last() == lines[bad]);
        lemma_readable(front, stream);
        if read_lines(front, stream) is Ok {
            lemma_packets(front, stream);
            if read_lines(more, stream) is Err {
                lemma_read_lines_stops(lines, bad + 1, stream);
            }
        }
        if are_packets(more) {
            assert(are_packets(front)) by {
                assert forall|i: int|
                    0 <= i < front.len() && (#[trigger] front[i]).len() > 0 implies packet_of(
                    front[i],
                    (i + 1) as nat,
                ) is Ok by {
                    assert(more[i] == front[i]);
                }
            }
            assert(more[bad] == lines[bad]);
            if lines[bad].len() > 0 {
                assert(packets_of(more).drop_last() == packets_of(front));
            }
        }
    }
}

} // verus!
