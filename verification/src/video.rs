//! Where to cut, and how the pieces are named.

use vstd::prelude::*;
use vstd::string::StrSliceExecFns;
use vstd::string::StringExecFns;

use crate::cli;
use crate::error;
use crate::error::{AppError, Result};
use crate::ffmpeg;
use crate::ffmpeg::{KeyframeBoundary, PacketLayout};
use crate::text;
use crate::text::{
    decimal_text, is_number_text, padded_text, parse_number, replace, same_text, strip_prefix,
    strip_suffix,
};
use crate::time;
use crate::time::Timestamp;

verus! {

// ---------------------------------------------------------------------------
// Cutting by size
// ---------------------------------------------------------------------------

/// Microseconds as seconds with six decimals.
pub open spec fn micros_text(micros: nat) -> Seq<char> {
    text::decimal(micros / 1_000_000) + "."@ + text::padded(micros % 1_000_000, 6)
}

/// `a - b`, and zero where that is negative.
pub open spec fn rest_of(a: nat, b: nat) -> nat {
    if a > b {
        (a - b) as nat
    } else {
        0
    }
}

/// The first boundary, from `from` on, with at least `bytes` of payload before it; the number of
/// boundaries where there is none.
pub open spec fn first_reaching(
    boundaries: Seq<KeyframeBoundary>,
    from: nat,
    bytes: nat,
) -> nat
    decreases boundaries.len() - from,
{
    if from >= boundaries.len() {
        boundaries.len()
    } else if boundaries[from as int].payload_offset >= bytes {
        from
    } else {
        first_reaching(boundaries, from + 1, bytes)
    }
}

/// How far a boundary is from where it should be.
pub open spec fn distance(a: nat, b: nat) -> nat {
    if a >= b {
        (a - b) as nat
    } else {
        (b - a) as nat
    }
}

/// Of two boundaries the one whose payload before it is closer to `desired`, the first if both are
/// equally close; where there is only one, that.
pub open spec fn closest(
    boundaries: Seq<KeyframeBoundary>,
    desired: nat,
    before: Option<nat>,
    after: Option<nat>,
) -> Option<nat> {
    match (before, after) {
        (Some(b), Some(a)) => if distance(
            boundaries[b as int].payload_offset as nat,
            desired,
        ) <= distance(boundaries[a as int].payload_offset as nat, desired) {
            Some(b)
        } else {
            Some(a)
        },
        (Some(b), None) => Some(b),
        (None, Some(a)) => Some(a),
        (None, None) => None,
    }
}

/// The payload that a segment should hold: the share of the payload that the target size is of the
/// size of the file.
pub open spec fn payload_goal(total_payload: nat, target: nat, input_size: nat) -> nat {
    target * total_payload / input_size
}

/// The payload before which the segment that starts at `last` should end.
pub open spec fn desired_end(total_payload: nat, goal: nat, last: nat) -> nat {
    if last + goal > u128::MAX {
        total_payload
    } else {
        last + goal
    }
}

/// Whether what follows a boundary is at least half of the goal.
pub open spec fn leaves_enough(layout: ffmpeg::LayoutView, goal: nat, index: nat) -> bool {
    rest_of(
        layout.total_payload_bytes,
        layout.keyframes[index as int].payload_offset as nat,
    ) >= goal / 2
}

/// The boundary that ends the segment that starts with `last` bytes of payload before it, among
/// those from `from` on: the one closest to the goal. If that leaves less than half the goal for
/// the last segment, the boundary before the goal is taken instead, if it leaves enough. There is
/// none where what is left is no more than the goal.
pub open spec fn next_cut(layout: ffmpeg::LayoutView, goal: nat, last: nat, from: nat) -> Option<
    nat,
> {
    let boundaries = layout.keyframes;
    let start = first_reaching(boundaries, from, last + 1);
    let desired = desired_end(layout.total_payload_bytes, goal, last);
    let reaching = first_reaching(boundaries, start, desired);
    let before = if reaching > start {
        Some((reaching - 1) as nat)
    } else {
        None
    };
    let after = if reaching < boundaries.len() {
        Some(reaching)
    } else {
        None
    };
    if rest_of(layout.total_payload_bytes, last) <= goal || start >= boundaries.len() {
        None
    } else {
        let nearest = closest(boundaries, desired, before, after)->0;
        let chosen = if leaves_enough(layout, goal, nearest) {
            Some(nearest)
        } else if before is Some && before->0 != nearest && leaves_enough(
            layout,
            goal,
            before->0,
        ) {
            before
        } else {
            None
        };
        match chosen {
            Some(index) if boundaries[index as int].payload_offset > last => chosen,
            _ => None,
        }
    }
}

/// The boundaries at which to cut, after one with `last` bytes of payload before it, among those
/// from `from` on.
pub open spec fn cuts_from(layout: ffmpeg::LayoutView, goal: nat, last: nat, from: nat) -> Seq<nat>
    decreases layout.keyframes.len() - from,
{
    match next_cut(layout, goal, last, from) {
        Some(index) if from <= index < layout.keyframes.len() => seq![index] + cuts_from(
            layout,
            goal,
            layout.keyframes[index as int].payload_offset as nat,
            index + 1,
        ),
        _ => Seq::empty(),
    }
}

/// The boundaries at which to cut for segments of about `target` bytes, or why there are none.
pub open spec fn size_cuts(
    layout: ffmpeg::LayoutView,
    target: nat,
    input_size: nat,
) -> std::result::Result<Seq<nat>, Seq<char>> {
    if input_size <= target {
        Ok(Seq::empty())
    } else if target * layout.total_payload_bytes > u128::MAX || payload_goal(
        layout.total_payload_bytes,
        target,
        input_size,
    ) == 0 {
        Err("无法根据媒体包计算目标分片大小"@)
    } else {
        Ok(
            cuts_from(
                layout,
                payload_goal(layout.total_payload_bytes, target, input_size),
                0,
                0,
            ),
        )
    }
}

/// The times of boundaries, as FFmpeg reads them.
pub open spec fn cut_times(boundaries: Seq<KeyframeBoundary>, cuts: Seq<nat>) -> Seq<Seq<char>> {
    cuts.map_values(|index: nat| micros_text(boundaries[index as int].elapsed_micros as nat))
}

/// Microseconds as seconds with six decimals.
pub fn format_micros(micros: u64) -> (r: String)
    ensures
        r@ == micros_text(micros as nat),
{
    let mut out = decimal_text((micros / 1_000_000) as u128);
    out.append(".");
    out.append(padded_text((micros % 1_000_000) as u128, 6).as_str());
    out
}

/// An index, as the contracts see it.
pub open spec fn index_of(index: Option<usize>) -> Option<nat> {
    match index {
        Some(index) => Some(index as nat),
        None => None,
    }
}

fn difference(a: u128, b: u128) -> (r: u128)
    ensures
        r == distance(a as nat, b as nat),
{
    if a >= b {
        a - b
    } else {
        b - a
    }
}

/// Of two boundaries the one whose payload before it is closer to `desired`.
pub fn closest_boundary(
    boundaries: &[KeyframeBoundary],
    desired: u128,
    before: Option<usize>,
    after: Option<usize>,
) -> (r: Option<usize>)
    requires
        before matches Some(index) ==> index < boundaries@.len(),
        after matches Some(index) ==> index < boundaries@.len(),
    ensures
        index_of(r) == closest(boundaries@, desired as nat, index_of(before), index_of(after)),
{
    match (before, after) {
        (Some(before), Some(after)) => {
            let before_error = difference(boundaries[before].payload_offset, desired);
            let after_error = difference(boundaries[after].payload_offset, desired);
            if before_error <= after_error {
                Some(before)
            } else {
                Some(after)
            }
        },
        (Some(index), None) => Some(index),
        (None, Some(index)) => Some(index),
        (None, None) => None,
    }
}

/// The first boundary, from `from` on, with at least `bytes` of payload before it.
fn find_reaching(boundaries: &Vec<KeyframeBoundary>, from: usize, bytes: u128) -> (index: usize)
    requires
        from <= boundaries@.len(),
    ensures
        index == first_reaching(boundaries@, from as nat, bytes as nat),
        from <= index <= boundaries@.len(),
{
    let mut index: usize = from;
    while index < boundaries.len() && boundaries[index].payload_offset < bytes
        invariant
            from <= index <= boundaries@.len(),
            first_reaching(boundaries@, from as nat, bytes as nat) == first_reaching(
                boundaries@,
                index as nat,
                bytes as nat,
            ),
        decreases boundaries@.len() - index,
    {
        index += 1;
    }
    index
}

fn has_enough_after(layout: &PacketLayout, goal: u128, index: usize) -> (r: bool)
    requires
        index < layout.keyframes@.len(),
    ensures
        r == leaves_enough(layout@, goal as nat, index as nat),
{
    layout.total_payload_bytes.saturating_sub(layout.keyframes[index].payload_offset) >= goal / 2
}

/// The boundary that ends the segment after `last` bytes of payload.
fn find_next_cut(layout: &PacketLayout, goal: u128, last: u128, from: usize) -> (r: Option<usize>)
    requires
        from <= layout.keyframes@.len(),
    ensures
        index_of(r) == next_cut(layout@, goal as nat, last as nat, from as nat),
        r matches Some(index) ==> from <= index < layout.keyframes@.len(),
{
    if layout.total_payload_bytes.saturating_sub(last) <= goal {
        return None;
    }
    // The rest is more than nothing, so `last` is less than the largest integer.
    let start = find_reaching(&layout.keyframes, from, last + 1);
    if start == layout.keyframes.len() {
        return None;
    }
    let desired: u128 = match last.checked_add(goal) {
        Some(desired) => desired,
        None => layout.total_payload_bytes,
    };
    let reaching = find_reaching(&layout.keyframes, start, desired);
    let before: Option<usize> = if reaching > start {
        Some(reaching - 1)
    } else {
        None
    };
    let after: Option<usize> = if reaching < layout.keyframes.len() {
        Some(reaching)
    } else {
        None
    };
    let mut chosen: usize = match closest_boundary(
        layout.keyframes.as_slice(),
        desired,
        before,
        after,
    ) {
        Some(nearest) => nearest,
        None => {
            return None;
        },
    };
    if !has_enough_after(layout, goal, chosen) {
        match before {
            Some(earlier) if earlier != chosen && has_enough_after(layout, goal, earlier) => {
                chosen = earlier;
            },
            _ => {
                return None;
            },
        }
    }
    if layout.keyframes[chosen].payload_offset <= last {
        return None;
    }
    Some(chosen)
}

/// Where to cut for segments of about `target_bytes`, as FFmpeg reads it.
pub fn choose_size_split_times(
    layout: &PacketLayout,
    target_bytes: u64,
    input_size: u64,
) -> (r: Result<Vec<String>>)
    ensures
        (match r {
            Ok(times) => Ok(text::texts(times@)),
            Err(error) => Err(error@),
        }) == (match size_cuts(layout@, target_bytes as nat, input_size as nat) {
            Ok(cuts) => Ok(cut_times(layout@.keyframes, cuts)),
            Err(message) => Err(message),
        }),
{
    if input_size <= target_bytes {
        let none: Vec<String> = Vec::new();
        assert(text::texts(none@) == cut_times(layout@.keyframes, Seq::empty()));
        return Ok(none);
    }
    let goal: u128 = match (target_bytes as u128).checked_mul(layout.total_payload_bytes) {
        Some(product) => product / (input_size as u128),
        None => {
            return Err(AppError::new("无法根据媒体包计算目标分片大小"));
        },
    };
    if goal == 0 {
        return Err(AppError::new("无法根据媒体包计算目标分片大小"));
    }
    let mut selected: Vec<String> = Vec::new();
    let mut last: u128 = 0;
    let mut from: usize = 0;
    let count = layout.keyframes.len();
    let ghost all = cuts_from(layout@, goal as nat, 0, 0);
    let ghost mut done: Seq<nat> = Seq::empty();
    assert(all == done + cuts_from(layout@, goal as nat, 0, 0));
    assert(text::texts(selected@) == cut_times(layout@.keyframes, done));
    loop
        invariant
            from <= count == layout.keyframes@.len(),
            all == done + cuts_from(layout@, goal as nat, last as nat, from as nat),
            text::texts(selected@) == cut_times(layout@.keyframes, done),
            size_cuts(layout@, target_bytes as nat, input_size as nat) == Ok::<
                Seq<nat>,
                Seq<char>,
            >(all),
        decreases count - from,
    {
        match find_next_cut(layout, goal, last, from) {
            None => {
                assert(all == done);
                return Ok(selected);
            },
            Some(index) => {
                let ghost rest = cuts_from(
                    layout@,
                    goal as nat,
                    layout@.keyframes[index as int].payload_offset as nat,
                    (index + 1) as nat,
                );
                let ghost before = text::texts(selected@);
                let cut = format_micros(layout.keyframes[index].elapsed_micros);
                selected.push(cut);
                last = layout.keyframes[index].payload_offset;
                from = index + 1;
                proof {
                    assert(done + (seq![index as nat] + rest) == done.push(index as nat) + rest);
                    assert(text::texts(selected@) == before.push(cut@));
                    assert(cut_times(layout@.keyframes, done.push(index as nat)) == before.push(
                        cut@,
                    ));
                    done = done.push(index as nat);
                }
            },
        }
    }
}

// ---------------------------------------------------------------------------
// Points in time
// ---------------------------------------------------------------------------

/// Whether each point in time comes before the next.
pub open spec fn is_increasing(times: Seq<nat>) -> bool {
    forall|i: int| 0 <= i < times.len() - 1 ==> #[trigger] times[i] < times[i + 1]
}

pub open spec fn disorder_message(first: nat, second: nat) -> Seq<char> {
    "拆分点必须严格递增，但 "@ + time::clock_text(first) + " 不早于 "@ + time::clock_text(second)
}

/// The message about the first two points in time of which the second does not come after the
/// first, where there are two such.
pub open spec fn order_failure(times: Seq<nat>) -> Option<Seq<char>>
    decreases times.len(),
{
    if times.len() < 2 {
        None
    } else if times[0] >= times[1] {
        Some(disorder_message(times[0], times[1]))
    } else {
        order_failure(times.skip(1))
    }
}

/// Nothing, where each point in time comes before the next.
pub fn ensure_strictly_increasing(times: &[Timestamp]) -> (r: Result<()>)
    ensures
        r is Ok == order_failure(cli::millis_of_all(times@)) is None,
        r matches Err(error) ==> order_failure(cli::millis_of_all(times@)) == Some(error@),
        r is Ok == is_increasing(cli::millis_of_all(times@)),
{
    let ghost all = cli::millis_of_all(times@);
    proof {
        lemma_order_failure(all);
    }
    let mut i: usize = 0;
    assert(all.skip(0) == all);
    while i < times.len() && times.len() - i >= 2
        invariant
            i <= times@.len(),
            all == cli::millis_of_all(times@),
            order_failure(all) == order_failure(all.skip(i as int)),
            order_failure(all) is None == is_increasing(all),
        decreases times@.len() - i,
    {
        let first = times[i];
        let second = times[i + 1];
        assert(all.skip(i as int)[0] == first@);
        assert(all.skip(i as int)[1] == second@);
        if first.millis() >= second.millis() {
            let mut message = "拆分点必须严格递增，但 ".to_owned();
            message.append(first.to_string().as_str());
            return Err(
                AppError::about(
                    message.as_str(),
                    " 不早于 ",
                    second.to_string().as_str(),
                ),
            );
        }
        assert(all.skip(i as int).skip(1) == all.skip(i + 1));
        i += 1;
    }
    Ok(())
}

/// There is nothing to complain about exactly where each point in time comes before the next.
pub proof fn lemma_order_failure(times: Seq<nat>)
    ensures
        order_failure(times) is None == is_increasing(times),
    decreases times.len(),
{
    if times.len() >= 2 {
        let rest = times.skip(1);
        lemma_order_failure(rest);
        if times[0] < times[1] {
            if is_increasing(rest) {
                assert forall|i: int| 0 <= i < times.len() - 1 implies #[trigger] times[i] < times[i
                    + 1] by {
                    if i > 0 {
                        assert(rest[i - 1] < rest[i]);
                    }
                }
            }
            if is_increasing(times) {
                assert forall|i: int| 0 <= i < rest.len() - 1 implies #[trigger] rest[i] < rest[i
                    + 1] by {
                    assert(times[i + 1] < times[i + 2]);
                }
            }
        }
    }
}

// ---------------------------------------------------------------------------
// Names of outputs
// ---------------------------------------------------------------------------

/// The file name of the output with number `index`: the number has three digits, or more where it
/// needs them.
pub open spec fn output_name(prefix: Seq<char>, index: nat, extension: Seq<char>) -> Seq<char> {
    prefix + "-"@ + text::padded(index, 3) + "."@ + extension
}

/// Whether a file name is a number between a beginning and an end, in the form in which outputs
/// are numbered.
pub open spec fn is_numbered(
    file_name: Seq<char>,
    name_prefix: Seq<char>,
    index: nat,
    name_suffix: Seq<char>,
) -> bool {
    0 < index <= usize::MAX && file_name == name_prefix + text::padded(index, 3) + name_suffix
}

/// The number of the output that a file name belongs to, where it belongs to one.
pub open spec fn output_index(
    file_name: Seq<char>,
    name_prefix: Seq<char>,
    name_suffix: Seq<char>,
) -> Option<nat> {
    if exists|index: nat| is_numbered(file_name, name_prefix, index, name_suffix) {
        Some(choose|index: nat| is_numbered(file_name, name_prefix, index, name_suffix))
    } else {
        None
    }
}

/// The number of the output that a file name belongs to, where it belongs to one.
pub fn numbered_output_index(file_name: &str, name_prefix: &str, name_suffix: &str) -> (r: Option<
    usize,
>)
    ensures
        index_of(r) == output_index(file_name@, name_prefix@, name_suffix@),
        r matches Some(index) ==> is_numbered(
            file_name@,
            name_prefix@,
            index as nat,
            name_suffix@,
        ),
        r is None ==> forall|index: nat|
            !is_numbered(file_name@, name_prefix@, index, name_suffix@),
{
    proof {
        assert forall|index: nat|
            is_numbered(file_name@, name_prefix@, index, name_suffix@) implies text::starts_with(
            file_name@,
            name_prefix@,
        ) && text::ends_with(file_name@.skip(name_prefix@.len() as int), name_suffix@)
            && file_name@.skip(name_prefix@.len() as int).take(
            file_name@.len() - name_prefix@.len() - name_suffix@.len(),
        ) == text::padded(index, 3) by {
            lemma_cut_out(name_prefix@, text::padded(index, 3), name_suffix@);
        }
    }
    let rest = match strip_prefix(file_name, name_prefix) {
        Some(rest) => rest,
        None => {
            return None;
        },
    };
    let digits = match strip_suffix(rest, name_suffix) {
        Some(digits) => digits,
        None => {
            return None;
        },
    };
    proof {
        assert(file_name@ == name_prefix@ + digits@ + name_suffix@) by {
            assert(file_name@.take(name_prefix@.len() as int) + rest@ == file_name@);
            assert(digits@ + name_suffix@ == rest@);
        }
        assert forall|index: nat|
            is_numbered(file_name@, name_prefix@, index, name_suffix@) implies digits@
            == text::padded(index, 3) && text::is_number(digits@) && text::number(digits@)
            == index by {
            text::lemma_padded(index, 3);
        }
    }
    if digits.unicode_len() < 3 || !is_number_text(digits) {
        proof {
            assert forall|index: nat|
                !is_numbered(file_name@, name_prefix@, index, name_suffix@) by {
                if is_numbered(file_name@, name_prefix@, index, name_suffix@) {
                    text::lemma_padded(index, 3);
                }
            }
        }
        return None;
    }
    match parse_number(digits, usize::MAX as u128) {
        Some(number) => {
            if number > 0 && same_text(digits, padded_text(number, 3).as_str()) {
                assert(is_numbered(file_name@, name_prefix@, number as nat, name_suffix@));
                Some(number as usize)
            } else {
                None
            }
        },
        None => None,
    }
}

/// What stands between a beginning and an end can be cut out again.
proof fn lemma_cut_out(beginning: Seq<char>, middle: Seq<char>, end: Seq<char>)
    ensures
        text::starts_with(beginning + middle + end, beginning),
        text::ends_with((beginning + middle + end).skip(beginning.len() as int), end),
        (beginning + middle + end).skip(beginning.len() as int).take(middle.len() as int) == middle,
{
    let whole = beginning + middle + end;
    let rest = whole.skip(beginning.len() as int);
    assert(whole.take(beginning.len() as int) == beginning);
    assert(rest == middle + end);
    assert(rest.skip(middle.len() as int) == end);
    assert(rest.take(middle.len() as int) == middle);
}

/// What the names of outputs begin with.
pub open spec fn beginning_of(prefix: Seq<char>) -> Seq<char> {
    prefix + "-"@
}

/// What the names of outputs end with.
pub open spec fn end_of(extension: Seq<char>) -> Seq<char> {
    "."@ + extension
}

/// The number of the output that a file in the output directory is, where it is one. A name that
/// is not Unicode is none.
pub open spec fn entry_index(
    name: Option<Seq<char>>,
    prefix: Seq<char>,
    extension: Seq<char>,
) -> Option<nat> {
    match name {
        Some(name) => output_index(name, beginning_of(prefix), end_of(extension)),
        None => None,
    }
}

/// An ascending sequence with one more number at its place.
pub open spec fn placed(sorted: Seq<nat>, number: nat) -> Seq<nat>
    decreases sorted.len(),
{
    if sorted.len() > 0 && sorted.last() > number {
        placed(sorted.drop_last(), number).push(sorted.last())
    } else {
        sorted.push(number)
    }
}

/// The numbers of the outputs among the files of a directory, in ascending order.
pub open spec fn numbers_in(
    names: Seq<Option<Seq<char>>>,
    prefix: Seq<char>,
    extension: Seq<char>,
) -> Seq<nat>
    decreases names.len(),
{
    if names.len() == 0 {
        Seq::empty()
    } else {
        let rest = numbers_in(names.drop_last(), prefix, extension);
        match entry_index(names.last(), prefix, extension) {
            Some(index) => placed(rest, index),
            None => rest,
        }
    }
}

/// The texts of names, where they are Unicode.
pub open spec fn name_texts(names: Seq<Option<String>>) -> Seq<Option<Seq<char>>> {
    names.map_values(|name: Option<String>| cli::text_of(name))
}

pub open spec fn numbers(list: Seq<usize>) -> Seq<nat> {
    list.map_values(|number: usize| number as nat)
}

/// Ascending order.
pub open spec fn is_ascending(list: Seq<nat>) -> bool {
    forall|i: int, j: int| 0 <= i <= j < list.len() ==> list[i] <= list[j]
}

proof fn lemma_placed(sorted: Seq<nat>, position: int, number: nat)
    requires
        0 <= position <= sorted.len(),
        position > 0 ==> sorted[position - 1] <= number,
        forall|i: int| position <= i < sorted.len() ==> sorted[i] > number,
    ensures
        placed(sorted, number) == sorted.insert(position, number),
    decreases sorted.len(),
{
    if position == sorted.len() {
        assert(sorted.insert(position, number) == sorted.push(number));
    } else {
        assert(sorted.last() > number);
        lemma_placed(sorted.drop_last(), position, number);
        assert(sorted.insert(position, number) == sorted.drop_last().insert(position, number).push(
            sorted.last(),
        ));
    }
}

fn place(sorted: &mut Vec<usize>, number: usize)
    ensures
        numbers(final(sorted)@) == placed(numbers(old(sorted)@), number as nat),
{
    let ghost before = numbers(sorted@);
    let mut position: usize = sorted.len();
    while position > 0 && sorted[position - 1] > number
        invariant
            position <= sorted@.len(),
            forall|i: int| position <= i < sorted@.len() ==> sorted@[i] > number,
        decreases position,
    {
        position -= 1;
    }
    proof {
        lemma_placed(before, position as int, number as nat);
    }
    sorted.insert(position, number);
    assert(numbers(sorted@) == before.insert(position as int, number as nat));
}

/// The numbers of the outputs among the files of the output directory, in ascending order. A name
/// that is not Unicode is given as none.
pub fn matching_numbered_outputs(
    names: &Vec<Option<String>>,
    prefix: &str,
    extension: &str,
) -> (found: Vec<usize>)
    ensures
        numbers(found@) == numbers_in(name_texts(names@), prefix@, extension@),
{
    let mut name_prefix = prefix.to_owned();
    name_prefix.append("-");
    let mut name_suffix = ".".to_owned();
    name_suffix.append(extension);
    let ghost all = name_texts(names@);
    let mut found: Vec<usize> = Vec::new();
    let mut i: usize = 0;
    assert(all.take(0) == Seq::<Option<Seq<char>>>::empty());
    assert(numbers(found@) == Seq::<nat>::empty());
    while i < names.len()
        invariant
            i <= names@.len(),
            all == name_texts(names@),
            name_prefix@ == beginning_of(prefix@),
            name_suffix@ == end_of(extension@),
            numbers(found@) == numbers_in(all.take(i as int), prefix@, extension@),
        decreases names@.len() - i,
    {
        assert(all.take(i + 1).drop_last() == all.take(i as int));
        assert(all.take(i + 1).last() == cli::text_of(names@[i as int]));
        if let Some(name) = &names[i] {
            if let Some(index) = numbered_output_index(
                name.as_str(),
                name_prefix.as_str(),
                name_suffix.as_str(),
            ) {
                place(&mut found, index);
            }
        }
        i += 1;
    }
    assert(all.take(all.len() as int) == all);
    found
}

/// The file name of an output.
pub fn output_file_name(prefix: &str, index: u128, extension: &str) -> (r: String)
    ensures
        r@ == output_name(prefix@, index as nat, extension@),
{
    let mut name = prefix.to_owned();
    name.append("-");
    name.append(padded_text(index, 3).as_str());
    name.append(".");
    name.append(extension);
    name
}

/// The file names of the outputs with the given numbers.
pub open spec fn names_of(
    prefix: Seq<char>,
    indices: Seq<nat>,
    extension: Seq<char>,
) -> Seq<Seq<char>> {
    indices.map_values(|index: nat| output_name(prefix, index, extension))
}

/// The file names of the outputs with the given numbers.
pub fn output_file_names(prefix: &str, indices: &Vec<usize>, extension: &str) -> (r: Vec<String>)
    ensures
        text::texts(r@) == names_of(prefix@, numbers(indices@), extension@),
{
    let mut names: Vec<String> = Vec::new();
    let mut i: usize = 0;
    while i < indices.len()
        invariant
            i <= indices@.len(),
            names@.len() == i,
            forall|k: int|
                0 <= k < i ==> #[trigger] names@[k]@ == output_name(
                    prefix@,
                    indices@[k] as nat,
                    extension@,
                ),
        decreases indices@.len() - i,
    {
        names.push(output_file_name(prefix, indices[i] as u128, extension));
        i += 1;
    }
    assert(text::texts(names@) == names_of(prefix@, numbers(indices@), extension@));
    names
}

/// The numbers from one to `count`.
pub open spec fn one_to(count: nat) -> Seq<nat> {
    Seq::new(count, |i: int| (i + 1) as nat)
}

/// The first number that does not follow from the one before it, counted from one: where it stands,
/// and what it is.
pub open spec fn numbering_failure(indices: Seq<nat>, from: nat) -> Option<Seq<char>>
    decreases indices.len() - from,
{
    if from >= indices.len() {
        None
    } else if indices[from as int] != from + 1 {
        Some(
            "输出分段编号不连续：预期 "@ + text::padded(from + 1, 3) + "，实际为 "@
                + text::padded(indices[from as int], 3),
        )
    } else {
        numbering_failure(indices, from + 1)
    }
}

/// The names of the segments that were made, from the files in the output directory: their numbers
/// are those from one to how many they are.
pub open spec fn discovered(
    names: Seq<Option<Seq<char>>>,
    directory: Seq<char>,
    prefix: Seq<char>,
    extension: Seq<char>,
) -> std::result::Result<Seq<Seq<char>>, Seq<char>> {
    let indices = numbers_in(names, prefix, extension);
    if indices.len() == 0 {
        Err("FFmpeg 未在 `"@ + directory + "` 中生成任何分段"@)
    } else {
        match numbering_failure(indices, 0) {
            Some(message) => Err(message),
            None => Ok(names_of(prefix, indices, extension)),
        }
    }
}

/// A list of names, or the text of the message why there is none.
pub open spec fn seen_names(result: Result<Vec<String>>) -> std::result::Result<
    Seq<Seq<char>>,
    Seq<char>,
> {
    match result {
        Ok(names) => Ok(text::texts(names@)),
        Err(error) => Err(error@),
    }
}

/// The segments that were made, from the files in the output directory.
pub fn discover_periodic_outputs(
    names: &Vec<Option<String>>,
    directory: &str,
    prefix: &str,
    extension: &str,
) -> (r: Result<Vec<String>>)
    ensures
        seen_names(r) == discovered(name_texts(names@), directory@, prefix@, extension@),
{
    let indices = matching_numbered_outputs(names, prefix, extension);
    if indices.len() == 0 {
        return Err(AppError::about("FFmpeg 未在 `", directory, "` 中生成任何分段"));
    }
    let ghost all = numbers(indices@);
    let mut position: usize = 0;
    while position < indices.len()
        invariant
            position <= indices@.len(),
            all == numbers(indices@),
            numbering_failure(all, 0) == numbering_failure(all, position as nat),
            all == numbers_in(name_texts(names@), prefix@, extension@),
            all.len() > 0,
        decreases indices@.len() - position,
    {
        let expected: u128 = position as u128 + 1;
        if indices[position] as u128 != expected {
            let mut message = "输出分段编号不连续：预期 ".to_owned();
            message.append(padded_text(expected, 3).as_str());
            return Err(
                AppError::about(
                    message.as_str(),
                    "，实际为 ",
                    padded_text(indices[position] as u128, 3).as_str(),
                ),
            );
        }
        position += 1;
    }
    Ok(output_file_names(prefix, &indices, extension))
}

// ---------------------------------------------------------------------------
// Arguments for FFmpeg
// ---------------------------------------------------------------------------

/// The path of the segments, with a place for their number: `%` itself is written twice.
pub open spec fn pattern_of(
    directory: Seq<char>,
    separator: Seq<char>,
    prefix: Seq<char>,
    extension: Seq<char>,
) -> Seq<char> {
    text::replaced(directory, '%', "%%"@) + separator + text::replaced(prefix, '%', "%%"@)
        + "-%03d."@ + text::replaced(extension, '%', "%%"@)
}

/// The path of the segments for FFmpeg. `directory` is none where it is not Unicode; `separator`
/// stands between a directory and what is in it.
pub fn segment_pattern(
    directory: Option<&str>,
    separator: &str,
    prefix: &str,
    extension: &str,
) -> (r: Result<String>)
    ensures
        r is Ok == directory is Some,
        r matches Ok(pattern) ==> pattern@ == pattern_of(
            directory->0@,
            separator@,
            prefix@,
            extension@,
        ),
        r matches Err(error) ==> error@ == "FFmpeg segment 输出目录必须是有效 UTF-8 路径"@,
{
    match directory {
        Some(directory) => {
            let mut pattern = replace(directory, '%', "%%");
            pattern.append(separator);
            pattern.append(replace(prefix, '%', "%%").as_str());
            pattern.append("-%03d.");
            pattern.append(replace(extension, '%', "%%").as_str());
            Ok(pattern)
        },
        None => Err(
            AppError::new("FFmpeg segment 输出目录必须是有效 UTF-8 路径"),
        ),
    }
}

/// The option that lets FFmpeg overwrite files, or keeps it from doing so.
pub open spec fn overwrite_option(overwrite: bool) -> Seq<char> {
    if overwrite {
        "-y"@
    } else {
        "-n"@
    }
}

/// The option that lets FFmpeg overwrite files, or keeps it from doing so.
pub fn overwrite_flag(overwrite: bool) -> (r: &'static str)
    ensures
        r@ == overwrite_option(overwrite),
{
    if overwrite {
        "-y"
    } else {
        "-n"
    }
}

/// A component of a path.
#[derive(Debug)]
pub enum NamePart {
    /// The path has no such component.
    Missing,
    /// The component is not Unicode.
    NotUnicode,
    Text(String),
}

/// A `NamePart`, as the contracts see it.
pub enum NamePartView {
    Missing,
    NotUnicode,
    Text(Seq<char>),
}

impl View for NamePart {
    type V = NamePartView;

    open spec fn view(&self) -> NamePartView {
        match self {
            NamePart::Missing => NamePartView::Missing,
            NamePart::NotUnicode => NamePartView::NotUnicode,
            NamePart::Text(part) => NamePartView::Text(part@),
        }
    }
}

/// The text of a component, or why it has none; `missing` is the message where there is none.
pub open spec fn component(part: NamePartView, missing: Seq<char>) -> std::result::Result<
    Seq<char>,
    Seq<char>,
> {
    match part {
        NamePartView::Missing => Err(missing),
        NamePartView::NotUnicode => Err("文件名和扩展名必须是有效 UTF-8 文本"@),
        NamePartView::Text(part) => Ok(part),
    }
}

/// The text of a component of a path.
pub fn utf8_component(part: &NamePart, missing: &str) -> (r: Result<String>)
    ensures
        error::seen(r) == component(part@, missing@),
{
    match part {
        NamePart::Missing => Err(AppError::new(missing)),
        NamePart::NotUnicode => Err(
            AppError::new("文件名和扩展名必须是有效 UTF-8 文本"),
        ),
        NamePart::Text(part) => Ok(part.clone()),
    }
}

/// What is said of an input that is no file.
pub open spec fn missing_input_message(shown: Seq<char>) -> Seq<char> {
    "输入文件 `"@ + shown + "` 不存在或不是普通文件"@
}

/// Nothing, where an input is a file. `shown` is how its path is shown.
pub fn require_input_file(shown: &str, is_file: bool) -> (r: Result<()>)
    ensures
        r is Ok == is_file,
        r matches Err(error) ==> error@ == missing_input_message(shown@),
{
    if is_file {
        Ok(())
    } else {
        Err(AppError::about("输入文件 `", shown, "` 不存在或不是普通文件"))
    }
}

/// What is said against an input with this file name: it is not Unicode, or the input lies in the
/// output directory and is named like an output.
pub open spec fn collision_failure(
    shown: Seq<char>,
    file_name: NamePartView,
    same_directory: bool,
    prefix: Seq<char>,
    extension: Seq<char>,
) -> Option<Seq<char>> {
    match file_name {
        NamePartView::Text(name) => if same_directory && entry_index(
            Some(name),
            prefix,
            extension,
        ) is Some {
            Some(
                "输入文件 `"@ + shown
                    + "` 与拆分输出命名范围冲突；请更换 --output-dir 或 --prefix"@,
            )
        } else {
            None
        },
        _ => Some("输入文件名必须是有效 UTF-8 文本"@),
    }
}

/// Nothing, where no output can take the place of the input.
pub fn reject_split_input_collision(
    shown: &str,
    file_name: &NamePart,
    same_directory: bool,
    prefix: &str,
    extension: &str,
) -> (r: Result<()>)
    ensures
        (match r {
            Ok(_) => None,
            Err(error) => Some(error@),
        }) == collision_failure(shown@, file_name@, same_directory, prefix@, extension@),
{
    let name = match file_name {
        NamePart::Text(name) => name,
        _ => {
            return Err(AppError::new("输入文件名必须是有效 UTF-8 文本"));
        },
    };
    let mut name_prefix = prefix.to_owned();
    name_prefix.append("-");
    let mut name_suffix = ".".to_owned();
    name_suffix.append(extension);
    if same_directory && numbered_output_index(
        name.as_str(),
        name_prefix.as_str(),
        name_suffix.as_str(),
    ).is_some() {
        return Err(
            AppError::about(
                "输入文件 `",
                shown,
                "` 与拆分输出命名范围冲突；请更换 --output-dir 或 --prefix",
            ),
        );
    }
    Ok(())
}

// ---------------------------------------------------------------------------
// Laws of cutting by size
// ---------------------------------------------------------------------------

/// `first_reaching` is the first that reaches, and all before it do not.
proof fn lemma_first_reaching(boundaries: Seq<KeyframeBoundary>, from: nat, bytes: nat)
    requires
        from <= boundaries.len(),
    ensures
        from <= first_reaching(boundaries, from, bytes) <= boundaries.len(),
        forall|i: int|
            from <= i < first_reaching(boundaries, from, bytes) ==> (
            #[trigger] boundaries[i]).payload_offset < bytes,
        first_reaching(boundaries, from, bytes) < boundaries.len() ==> boundaries[first_reaching(
            boundaries,
            from,
            bytes,
        ) as int].payload_offset >= bytes,
    decreases boundaries.len() - from,
{
    if from < boundaries.len() && boundaries[from as int].payload_offset < bytes {
        lemma_first_reaching(boundaries, from + 1, bytes);
    }
}

/// A cut is one of the boundaries that are left, lies behind the cut before it, and leaves at
/// least half of the goal behind it.
pub proof fn law_next_cut(layout: ffmpeg::LayoutView, goal: nat, last: nat, from: nat)
    requires
        from <= layout.keyframes.len(),
    ensures
        next_cut(layout, goal, last, from) matches Some(index) ==> from <= index
            < layout.keyframes.len() && layout.keyframes[index as int].payload_offset > last
            && leaves_enough(layout, goal, index),
{
    let boundaries = layout.keyframes;
    let start = first_reaching(boundaries, from, last + 1);
    let desired = desired_end(layout.total_payload_bytes, goal, last);
    lemma_first_reaching(boundaries, from, last + 1);
    lemma_first_reaching(boundaries, start, desired);
}

/// Where the boundaries are in order, a cut is as close to the goal as any boundary that is left
/// and leaves at least half of the goal behind it.
pub proof fn law_next_cut_is_closest(
    layout: ffmpeg::LayoutView,
    goal: nat,
    last: nat,
    from: nat,
    other: nat,
)
    requires
        ffmpeg::are_in_order(layout.keyframes, layout.total_payload_bytes),
        from <= other < layout.keyframes.len(),
        layout.keyframes[other as int].payload_offset > last,
        leaves_enough(layout, goal, other),
    ensures
        next_cut(layout, goal, last, from) matches Some(index) ==> distance(
            layout.keyframes[index as int].payload_offset as nat,
            desired_end(layout.total_payload_bytes, goal, last),
        ) <= distance(
            layout.keyframes[other as int].payload_offset as nat,
            desired_end(layout.total_payload_bytes, goal, last),
        ),
{
    let boundaries = layout.keyframes;
    let start = first_reaching(boundaries, from, last + 1);
    let desired = desired_end(layout.total_payload_bytes, goal, last);
    let reaching = first_reaching(boundaries, start, desired);
    lemma_first_reaching(boundaries, from, last + 1);
    lemma_first_reaching(boundaries, start, desired);
    assert(start <= other);
    if other < reaching {
        assert(boundaries[other as int].payload_offset < desired);
        if other < reaching - 1 {
            assert(boundaries[other as int].payload_offset <= boundaries[reaching
                - 1].payload_offset);
        }
        assert(boundaries[reaching - 1].payload_offset < desired);
    } else {
        if reaching < other {
            assert(boundaries[reaching as int].payload_offset
                <= boundaries[other as int].payload_offset);
        }
        assert(leaves_enough(layout, goal, reaching));
    }
}

/// Whether cuts are boundaries, one behind the other in the file, behind `last` bytes of payload,
/// each with at least half of the goal behind it.
pub open spec fn are_sound_cuts(
    layout: ffmpeg::LayoutView,
    goal: nat,
    last: nat,
    from: nat,
    cuts: Seq<nat>,
) -> bool {
    &&& forall|i: int|
        0 <= i < cuts.len() ==> from <= (#[trigger] cuts[i]) < layout.keyframes.len()
            && leaves_enough(layout, goal, cuts[i])
            && layout.keyframes[cuts[i] as int].payload_offset > last
    &&& forall|i: int, j: int|
        0 <= i < j < cuts.len() ==> (#[trigger] cuts[i]) < (#[trigger] cuts[j])
            && layout.keyframes[cuts[i] as int].payload_offset
            < layout.keyframes[cuts[j] as int].payload_offset
}

proof fn lemma_cuts_from(layout: ffmpeg::LayoutView, goal: nat, last: nat, from: nat)
    requires
        from <= layout.keyframes.len(),
    ensures
        are_sound_cuts(layout, goal, last, from, cuts_from(layout, goal, last, from)),
    decreases layout.keyframes.len() - from,
{
    law_next_cut(layout, goal, last, from);
    let cuts = cuts_from(layout, goal, last, from);
    match next_cut(layout, goal, last, from) {
        Some(index) => {
            let offset = layout.keyframes[index as int].payload_offset as nat;
            let rest = cuts_from(layout, goal, offset, index + 1);
            lemma_cuts_from(layout, goal, offset, index + 1);
            assert(cuts == seq![index] + rest);
            assert forall|i: int| 0 <= i < cuts.len() implies from <= (#[trigger] cuts[i])
                < layout.keyframes.len() && leaves_enough(layout, goal, cuts[i])
                && layout.keyframes[cuts[i] as int].payload_offset > last by {
                if i > 0 {
                    assert(cuts[i] == rest[i - 1]);
                }
            }
            assert forall|i: int, j: int| 0 <= i < j < cuts.len() implies (#[trigger] cuts[i]) < (
            #[trigger] cuts[j]) && layout.keyframes[cuts[i] as int].payload_offset
                < layout.keyframes[cuts[j] as int].payload_offset by {
                assert(cuts[j] == rest[j - 1]);
                if i > 0 {
                    assert(cuts[i] == rest[i - 1]);
                }
            }
        },
        None => {},
    }
}

/// The cuts for a target size are boundaries, one behind the other, each with at least half of the
/// payload goal behind it.
pub proof fn law_size_cuts(layout: ffmpeg::LayoutView, target: nat, input_size: nat)
    ensures
        size_cuts(layout, target, input_size) matches Ok(cuts) ==> are_sound_cuts(
            layout,
            payload_goal(layout.total_payload_bytes, target, input_size),
            0,
            0,
            cuts,
        ),
{
    lemma_cuts_from(layout, payload_goal(layout.total_payload_bytes, target, input_size), 0, 0);
}

/// A file that is no larger than the target is not cut.
pub proof fn law_small_file(layout: ffmpeg::LayoutView, target: nat, input_size: nat)
    requires
        input_size <= target,
    ensures
        size_cuts(layout, target, input_size) == Ok::<Seq<nat>, Seq<char>>(Seq::empty()),
{
}

/// Where the boundaries are in order, the times of the cuts increase, and none is the start.
pub proof fn law_cut_times_increase(layout: ffmpeg::LayoutView, target: nat, input_size: nat)
    requires
        ffmpeg::are_in_order(layout.keyframes, layout.total_payload_bytes),
    ensures
        size_cuts(layout, target, input_size) matches Ok(cuts) ==> {
            &&& forall|i: int|
                0 <= i < cuts.len() ==> layout.keyframes[(
                #[trigger] cuts[i]) as int].elapsed_micros > 0
            &&& forall|i: int, j: int|
                0 <= i < j < cuts.len() ==> layout.keyframes[(
                #[trigger] cuts[i]) as int].elapsed_micros < layout.keyframes[(
                #[trigger] cuts[j]) as int].elapsed_micros
        },
{
    law_size_cuts(layout, target, input_size);
}

/// ffprobe's reader reads the time of a cut as what it is.
pub proof fn law_micros_text(micros: nat, packet_number: nat)
    requires
        micros <= i64::MAX,
    ensures
        ffmpeg::probe_time(micros_text(micros), packet_number) == Ok::<int, Seq<char>>(
            micros as int,
        ),
{
    let whole = text::decimal(micros / 1_000_000);
    let fraction = text::padded(micros % 1_000_000, 6);
    let value = micros_text(micros);
    reveal_strlit(".");
    assert(text::power_of_ten(6) == 1_000_000) by {
        reveal_with_fuel(text::power_of_ten, 7);
    }
    text::lemma_decimal(micros / 1_000_000);
    text::lemma_padded(micros % 1_000_000, 6);
    text::lemma_padded_length(micros % 1_000_000, 6);
    text::lemma_only_digits(whole, '.');
    text::lemma_only_digits(fraction, '.');
    text::law_split_without_separator(whole, '.');
    text::law_split_one_more(whole, '.', fraction);
    assert(value == whole.push('.') + fraction);
    assert(text::split(value, '.') == seq![whole, fraction]);
    assert(value[0] == whole[0]);
    assert(text::is_digit(whole[0]));
    let power = text::power_of_ten((6 - fraction.len()) as nat);
    assert(power == 1);
    assert(text::number(fraction) * power == micros % 1_000_000) by (nonlinear_arith)
        requires
            text::number(fraction) == micros % 1_000_000,
            power == 1,
    ;
}

// ---------------------------------------------------------------------------
// Laws of points in time
// ---------------------------------------------------------------------------

/// Where each point in time comes before the next, each comes before all later ones.
pub proof fn law_increasing(times: Seq<nat>, i: int, j: int)
    requires
        is_increasing(times),
        0 <= i < j < times.len(),
    ensures
        times[i] < times[j],
    decreases j - i,
{
    if j - i > 1 {
        law_increasing(times, i, j - 1);
    }
    assert(times[j - 1] < times[j - 1 + 1]);
}

// ---------------------------------------------------------------------------
// Laws of names
// ---------------------------------------------------------------------------

/// Names with different numbers are different.
pub proof fn law_output_names_apart(prefix: Seq<char>, extension: Seq<char>, a: nat, b: nat)
    requires
        output_name(prefix, a, extension) == output_name(prefix, b, extension),
    ensures
        a == b,
{
    lemma_output_name(prefix, a, extension);
    lemma_output_name(prefix, b, extension);
    lemma_cut_out(beginning_of(prefix), text::padded(a, 3), end_of(extension));
    lemma_cut_out(beginning_of(prefix), text::padded(b, 3), end_of(extension));
    assert(text::padded(a, 3).len() == text::padded(b, 3).len());
    text::law_padded_apart(a, b, 3);
}

proof fn lemma_output_name(prefix: Seq<char>, index: nat, extension: Seq<char>)
    ensures
        output_name(prefix, index, extension) == beginning_of(prefix) + text::padded(index, 3)
            + end_of(extension),
{
    assert(output_name(prefix, index, extension) == beginning_of(prefix) + text::padded(index, 3)
        + end_of(extension));
}

/// The number of an output can be read from its name, and from no other name.
pub proof fn law_entry_index(name: Seq<char>, prefix: Seq<char>, extension: Seq<char>, index: nat)
    ensures
        entry_index(Some(name), prefix, extension) == Some(index) <==> 0 < index <= usize::MAX
            && name == output_name(prefix, index, extension),
{
    let beginning = beginning_of(prefix);
    let end = end_of(extension);
    lemma_output_name(prefix, index, extension);
    if 0 < index <= usize::MAX && name == output_name(prefix, index, extension) {
        assert(is_numbered(name, beginning, index, end));
        let found = choose|index: nat| is_numbered(name, beginning, index, end);
        lemma_output_name(prefix, found, extension);
        law_output_names_apart(prefix, extension, index, found);
    }
}

proof fn lemma_placed_keeps(sorted: Seq<nat>, number: nat)
    requires
        is_ascending(sorted),
    ensures
        is_ascending(placed(sorted, number)),
        placed(sorted, number).len() == sorted.len() + 1,
        forall|n: nat|
            #[trigger] placed(sorted, number).contains(n) <==> n == number || sorted.contains(n),
    decreases sorted.len(),
{
    let out = placed(sorted, number);
    if sorted.len() > 0 && sorted.last() > number {
        let front = sorted.drop_last();
        lemma_placed_keeps(front, number);
        let head = placed(front, number);
        assert(out == head.push(sorted.last()));
        assert forall|i: int, j: int| 0 <= i <= j < out.len() implies out[i] <= out[j] by {
            if j == out.len() - 1 && i < j {
                assert(head.contains(head[i]));
                if head[i] != number {
                    assert(front.contains(head[i]));
                    let k = choose|k: int| 0 <= k < front.len() && front[k] == head[i];
                    assert(sorted[k] <= sorted[sorted.len() - 1]);
                }
            }
        }
        assert forall|n: nat|
            #[trigger] out.contains(n) <==> n == number || sorted.contains(n) by {
            if out.contains(n) {
                let k = choose|k: int| 0 <= k < out.len() && out[k] == n;
                if k < head.len() {
                    assert(head.contains(n));
                    if n != number {
                        let m = choose|m: int| 0 <= m < front.len() && front[m] == n;
                        assert(sorted[m] == n);
                    }
                } else {
                    assert(sorted[sorted.len() - 1] == n);
                }
            }
            if n == number || sorted.contains(n) {
                if n == sorted.last() {
                    assert(out[out.len() - 1] == n);
                } else {
                    if n != number {
                        let m = choose|m: int| 0 <= m < sorted.len() && sorted[m] == n;
                        assert(front[m] == n);
                    }
                    assert(head.contains(n));
                    let k = choose|k: int| 0 <= k < head.len() && head[k] == n;
                    assert(out[k] == n);
                }
            }
        }
    } else {
        assert forall|n: nat|
            #[trigger] out.contains(n) <==> n == number || sorted.contains(n) by {
            if n == number {
                assert(out[out.len() - 1] == n);
            } else if sorted.contains(n) {
                let k = choose|k: int| 0 <= k < sorted.len() && sorted[k] == n;
                assert(out[k] == n);
            }
            if out.contains(n) {
                let k = choose|k: int| 0 <= k < out.len() && out[k] == n;
                if k < sorted.len() {
                    assert(sorted[k] == n);
                }
            }
        }
    }
}

/// The numbers of the outputs among the files of a directory ascend, and they are those of the
/// names that are there.
pub proof fn law_numbers_in(
    names: Seq<Option<Seq<char>>>,
    prefix: Seq<char>,
    extension: Seq<char>,
)
    ensures
        is_ascending(numbers_in(names, prefix, extension)),
        forall|n: nat|
            #[trigger] numbers_in(names, prefix, extension).contains(n) <==> 0 < n <= usize::MAX
                && names.contains(Some(output_name(prefix, n, extension))),
    decreases names.len(),
{
    let all = numbers_in(names, prefix, extension);
    if names.len() == 0 {
        assert forall|n: nat| #[trigger] all.contains(n) <==> 0 < n <= usize::MAX && names.contains(
            Some(output_name(prefix, n, extension)),
        ) by {}
    } else {
        let front = names.drop_last();
        law_numbers_in(front, prefix, extension);
        let rest = numbers_in(front, prefix, extension);
        let index = entry_index(names.last(), prefix, extension);
        if index is Some {
            lemma_placed_keeps(rest, index->0);
        }
        assert forall|n: nat| #[trigger] all.contains(n) <==> 0 < n <= usize::MAX && names.contains(
            Some(output_name(prefix, n, extension)),
        ) by {
            let name = Some(output_name(prefix, n, extension));
            match names.last() {
                Some(last) => {
                    law_entry_index(last, prefix, extension, n);
                },
                None => {},
            }
            assert(rest.contains(n) <==> 0 < n <= usize::MAX && front.contains(name));
            assert(names.contains(name) <==> front.contains(name) || names.last() == name) by {
                if names.contains(name) {
                    let k = choose|k: int| 0 <= k < names.len() && names[k] == name;
                    if k < front.len() {
                        assert(front[k] == name);
                    }
                }
                if front.contains(name) {
                    let k = choose|k: int| 0 <= k < front.len() && front[k] == name;
                    assert(names[k] == name);
                }
                if names.last() == name {
                    assert(names[names.len() - 1] == name);
                }
            }
        }
    }
}

proof fn lemma_numbering(indices: Seq<nat>, from: nat)
    requires
        from <= indices.len(),
    ensures
        numbering_failure(indices, from) is None <==> forall|i: int|
            from <= i < indices.len() ==> (#[trigger] indices[i]) == i + 1,
    decreases indices.len() - from,
{
    if from < indices.len() {
        lemma_numbering(indices, from + 1);
    }
}

/// Segments are discovered exactly where there are some and their numbers are those from one to
/// how many they are; then they are listed by number, and each of them is there.
pub proof fn law_discovered(
    names: Seq<Option<Seq<char>>>,
    directory: Seq<char>,
    prefix: Seq<char>,
    extension: Seq<char>,
)
    ensures
        discovered(names, directory, prefix, extension) is Ok <==> numbers_in(
            names,
            prefix,
            extension,
        ).len() > 0 && numbers_in(names, prefix, extension) == one_to(
            numbers_in(names, prefix, extension).len(),
        ),
        discovered(names, directory, prefix, extension) matches Ok(files) ==> files.len() > 0
            && files == names_of(prefix, one_to(files.len()), extension) && forall|i: int|
            0 <= i < files.len() ==> names.contains(Some(#[trigger] files[i])),
{
    let indices = numbers_in(names, prefix, extension);
    lemma_numbering(indices, 0);
    law_numbers_in(names, prefix, extension);
    if numbering_failure(indices, 0) is None {
        assert(indices == one_to(indices.len()));
        let files = names_of(prefix, indices, extension);
        assert forall|i: int| 0 <= i < files.len() implies names.contains(
            Some(#[trigger] files[i]),
        ) by {
            assert(indices.contains(indices[i]));
        }
    } else if indices == one_to(indices.len()) {
        assert(forall|i: int| 0 <= i < indices.len() ==> (#[trigger] indices[i]) == i + 1);
    }
}

// ---------------------------------------------------------------------------
// Laws of patterns
// ---------------------------------------------------------------------------

/// A path with its pattern filled in: `%%` is a percent sign and `%03d` a number of three digits or
/// more. There is none where a percent sign stands before anything else.
pub open spec fn filled_in(pattern: Seq<char>, number: nat) -> Option<Seq<char>>
    decreases pattern.len(),
{
    if pattern.len() == 0 {
        Some(Seq::empty())
    } else if pattern[0] != '%' {
        behind(seq![pattern[0]], filled_in(pattern.skip(1), number))
    } else if pattern.len() >= 2 && pattern[1] == '%' {
        behind(seq!['%'], filled_in(pattern.skip(2), number))
    } else if pattern.len() >= 4 && pattern[1] == '0' && pattern[2] == '3' && pattern[3] == 'd' {
        behind(text::padded(number, 3), filled_in(pattern.skip(4), number))
    } else {
        None
    }
}

/// A text with some more before it.
pub open spec fn behind(first: Seq<char>, rest: Option<Seq<char>>) -> Option<Seq<char>> {
    match rest {
        Some(rest) => Some(first + rest),
        None => None,
    }
}

proof fn lemma_filled_plain(part: Seq<char>, rest: Seq<char>, number: nat)
    requires
        !part.contains('%'),
    ensures
        filled_in(part + rest, number) == behind(part, filled_in(rest, number)),
    decreases part.len(),
{
    let pattern = part + rest;
    if part.len() == 0 {
        assert(pattern == rest);
        match filled_in(rest, number) {
            Some(end) => {
                assert(part + end == end);
            },
            None => {},
        }
    } else {
        let tail = part.skip(1);
        assert(part[0] != '%');
        assert(pattern[0] == part[0]);
        assert(!tail.contains('%')) by {
            assert forall|i: int| 0 <= i < tail.len() implies tail[i] != '%' by {
                assert(tail[i] == part[i + 1]);
            }
        }
        assert(pattern.skip(1) == tail + rest);
        lemma_filled_plain(tail, rest, number);
        match filled_in(rest, number) {
            Some(end) => {
                assert(seq![part[0]] + (tail + end) == part + end);
            },
            None => {},
        }
    }
}

proof fn lemma_filled_joined(parts: Seq<Seq<char>>, rest: Seq<char>, number: nat)
    requires
        parts.len() > 0,
        forall|i: int| 0 <= i < parts.len() ==> !(#[trigger] parts[i]).contains('%'),
    ensures
        filled_in(text::join(parts, "%%"@) + rest, number) == behind(
            text::join(parts, seq!['%']),
            filled_in(rest, number),
        ),
    decreases parts.len(),
{
    let end = filled_in(rest, number);
    if parts.len() == 1 {
        lemma_filled_plain(parts[0], rest, number);
    } else {
        let front = parts.drop_last();
        let last = parts.last();
        assert(last == parts[parts.len() - 1]);
        let after = "%%"@ + (last + rest);
        reveal_strlit("%%");
        assert forall|i: int| 0 <= i < front.len() implies !(#[trigger] front[i]).contains(
            '%',
        ) by {
            assert(front[i] == parts[i]);
        }
        lemma_filled_joined(front, after, number);
        assert(text::join(parts, "%%"@) + rest == text::join(front, "%%"@) + after);
        assert(after[0] == '%' && after[1] == '%');
        assert(after.skip(2) == last + rest);
        lemma_filled_plain(last, rest, number);
        match end {
            Some(end) => {
                assert(text::join(front, seq!['%']) + (seq!['%'] + (last + end)) == text::join(
                    parts,
                    seq!['%'],
                ) + end);
            },
            None => {},
        }
    }
}

/// A percent sign that is written twice is filled in as one.
proof fn lemma_filled_escaped(value: Seq<char>, rest: Seq<char>, number: nat)
    ensures
        filled_in(text::replaced(value, '%', "%%"@) + rest, number) == behind(
            value,
            filled_in(rest, number),
        ),
{
    text::law_split_parts(value, '%');
    text::law_join_split(value, '%');
    lemma_filled_joined(text::split(value, '%'), rest, number);
}

/// Filled in, the path of the segments is that of the output with the number.
pub proof fn law_pattern(
    directory: Seq<char>,
    separator: Seq<char>,
    prefix: Seq<char>,
    extension: Seq<char>,
    number: nat,
)
    requires
        !separator.contains('%'),
    ensures
        filled_in(pattern_of(directory, separator, prefix, extension), number) == Some(
            directory + separator + output_name(prefix, number, extension),
        ),
{
    let end = text::replaced(extension, '%', "%%"@);
    let nothing = Seq::<char>::empty();
    lemma_filled_escaped(extension, nothing, number);
    assert(end + nothing == end);
    assert(extension + nothing == extension);
    assert(filled_in(end, number) == Some(extension));
    reveal_strlit("-%03d.");
    reveal_strlit("-");
    reveal_strlit(".");
    let numbered = "-%03d."@ + end;
    let tail = output_name(Seq::empty(), number, extension);
    assert(filled_in(numbered, number) == Some(tail)) by {
        let second = numbered.skip(1);
        let third = second.skip(4);
        assert(numbered[0] == '-');
        assert(second[0] == '%' && second[1] == '0' && second[2] == '3' && second[3] == 'd');
        assert(third[0] == '.');
        assert(third.skip(1) == end);
        assert(filled_in(third, number) == Some(seq!['.'] + extension));
        assert(filled_in(second, number) == Some(
            text::padded(number, 3) + (seq!['.'] + extension),
        ));
        assert(tail == seq!['-'] + (text::padded(number, 3) + (seq!['.'] + extension)));
    }
    lemma_filled_escaped(prefix, numbered, number);
    let named = text::replaced(prefix, '%', "%%"@) + numbered;
    lemma_filled_plain(separator, named, number);
    lemma_filled_escaped(directory, separator + named, number);
    assert(pattern_of(directory, separator, prefix, extension) == text::replaced(
        directory,
        '%',
        "%%"@,
    ) + (separator + named));
    assert(directory + (separator + (prefix + tail)) == directory + separator + output_name(
        prefix,
        number,
        extension,
    ));
}

// ---------------------------------------------------------------------------
// Laws of which boundaries are chosen
// ---------------------------------------------------------------------------

/// The payload before the boundary at `k`.
pub open spec fn offset_at(layout: ffmpeg::LayoutView, k: int) -> int {
    layout.keyframes[k].payload_offset as int
}

/// Whether the boundary at `k` has at least half of the goal behind it.
pub open spec fn has_tail(layout: ffmpeg::LayoutView, goal: nat, k: int) -> bool {
    2 * (layout.total_payload_bytes - offset_at(layout, k)) + 1 >= goal
}

/// Whether the boundary at `k` lies behind `last` bytes of payload.
pub open spec fn lies_behind(layout: ffmpeg::LayoutView, last: nat, k: int) -> bool {
    0 <= k < layout.keyframes.len() && offset_at(layout, k) > last
}

/// Whether the boundary at `k` is the one to cut at after `last` bytes of payload: more than the
/// goal is left; it lies behind them, and no other boundary between it and the goal; it has a
/// tail; and none with a tail is closer to the goal, nor as close and before the goal while it
/// itself is not.
pub open spec fn is_cut_after(layout: ffmpeg::LayoutView, goal: nat, last: nat, k: int) -> bool {
    let desired = last + goal;
    &&& layout.total_payload_bytes - last > goal
    &&& lies_behind(layout, last, k)
    &&& has_tail(layout, goal, k)
    &&& offset_at(layout, k) < desired ==> forall|j: int|
        k < j < layout.keyframes.len() ==> #[trigger] offset_at(layout, j) >= desired
    &&& offset_at(layout, k) >= desired ==> forall|j: int|
        0 <= j < k ==> #[trigger] offset_at(layout, j) < desired
    &&& forall|j: int|
        #[trigger] lies_behind(layout, last, j) && has_tail(layout, goal, j) ==> {
            let off = offset_at(layout, k) - desired;
            let other = offset_at(layout, j) - desired;
            &&& off < 0 && other >= 0 ==> -off <= other
            &&& off >= 0 && other < 0 ==> off < -other
        }
}

/// Whether nothing is cut after `last` bytes of payload: no more than the goal is left, or the
/// last boundary before the goal, or else the first behind it, has no tail.
pub open spec fn ends_after(layout: ffmpeg::LayoutView, goal: nat, last: nat) -> bool {
    let desired = last + goal;
    ||| layout.total_payload_bytes - last <= goal
    ||| (forall|k: int| !#[trigger] lies_behind(layout, last, k))
    ||| (exists|k: int|
        #[trigger] lies_behind(layout, last, k) && offset_at(layout, k) < desired && !has_tail(
            layout,
            goal,
            k,
        ) && forall|j: int|
            k < j < layout.keyframes.len() ==> #[trigger] offset_at(layout, j) >= desired)
    ||| (exists|k: int|
        #[trigger] lies_behind(layout, last, k) && offset_at(layout, k) >= desired && !has_tail(
            layout,
            goal,
            k,
        ) && forall|j: int| 0 <= j < k ==> #[trigger] offset_at(layout, j) <= last)
}

/// The next cut is the boundary to cut at, and there is none exactly where nothing is to be cut.
proof fn lemma_next_cut_exact(layout: ffmpeg::LayoutView, goal: nat, last: nat, from: nat)
    requires
        ffmpeg::are_in_order(layout.keyframes, layout.total_payload_bytes),
        layout.total_payload_bytes <= u128::MAX,
        goal > 0,
        from <= layout.keyframes.len(),
        forall|j: int| 0 <= j < from ==> #[trigger] offset_at(layout, j) <= last,
    ensures
        match next_cut(layout, goal, last, from) {
            Some(index) => is_cut_after(layout, goal, last, index as int),
            None => ends_after(layout, goal, last),
        },
{
    let boundaries = layout.keyframes;
    let total = layout.total_payload_bytes;
    let start = first_reaching(boundaries, from, last + 1);
    let desired = desired_end(total, goal, last);
    let reaching = first_reaching(boundaries, start, desired);
    lemma_first_reaching(boundaries, from, last + 1);
    lemma_first_reaching(boundaries, start, desired);
    law_next_cut(layout, goal, last, from);
    if total - last > goal {
        assert(desired == last + goal);
        assert forall|j: int| #[trigger] lies_behind(layout, last, j) implies j >= start by {
            if j < from {
                assert(offset_at(layout, j) <= last);
            } else if j < start {
                assert(boundaries[j].payload_offset < last + 1);
            }
        }
        assert forall|j: int| 0 <= j < reaching implies #[trigger] offset_at(layout, j)
            < desired by {
            if j < from {
                assert(offset_at(layout, j) <= last);
            } else if j < start {
                assert(boundaries[j].payload_offset < last + 1);
            } else {
                assert(boundaries[j].payload_offset < desired);
            }
        }
        assert forall|j: int| reaching <= j < boundaries.len() implies #[trigger] offset_at(
            layout,
            j,
        ) >= desired by {
            if j > reaching {
                assert(boundaries[reaching as int].payload_offset <= boundaries[j].payload_offset);
            }
        }
        assert forall|j: int| 0 <= j < start implies #[trigger] offset_at(layout, j) <= last by {
            if j >= from {
                assert(boundaries[j].payload_offset < last + 1);
            }
        }
        if start < boundaries.len() {
            assert(lies_behind(layout, last, start as int));
            assert forall|k: int| 0 <= k < boundaries.len() implies leaves_enough(
                layout,
                goal,
                k as nat,
            ) == #[trigger] has_tail(layout, goal, k) by {
                assert(boundaries[k].payload_offset <= total);
            }
            if reaching > start {
                let before = (reaching - 1) as int;
                if before > start {
                    assert(boundaries[start as int].payload_offset
                        <= boundaries[before].payload_offset);
                }
                assert(lies_behind(layout, last, before));
                assert(offset_at(layout, before) < desired);
            }
            if reaching < boundaries.len() {
                assert(lies_behind(layout, last, reaching as int));
                assert(offset_at(layout, reaching as int) >= desired);
            }
            match next_cut(layout, goal, last, from) {
                Some(index) => {
                    let k = index as int;
                    assert(k == reaching - 1 || k == reaching);
                    assert forall|j: int|
                        #[trigger] lies_behind(layout, last, j) && has_tail(
                            layout,
                            goal,
                            j,
                        ) implies ({
                        let off = offset_at(layout, k) - desired;
                        let other = offset_at(layout, j) - desired;
                        &&& off < 0 && other >= 0 ==> -off <= other
                        &&& off >= 0 && other < 0 ==> off < -other
                    }) by {
                        if k == reaching - 1 && j >= reaching {
                            if j > reaching {
                                assert(boundaries[reaching as int].payload_offset
                                    <= boundaries[j].payload_offset);
                            }
                            assert(has_tail(layout, goal, reaching as int));
                        }
                        if k == reaching && j < reaching {
                            if j < reaching - 1 {
                                assert(boundaries[j].payload_offset <= boundaries[reaching
                                    - 1].payload_offset);
                            }
                        }
                    }
                },
                None => {
                    if reaching > start {
                        let before = (reaching - 1) as int;
                        if has_tail(layout, goal, before) {
                            assert(leaves_enough(layout, goal, before as nat));
                        } else if reaching < boundaries.len() {
                            assert(boundaries[before].payload_offset
                                <= boundaries[reaching as int].payload_offset);
                        }
                        assert(!has_tail(layout, goal, before));
                    } else {
                        assert(!has_tail(layout, goal, reaching as int));
                    }
                },
            }
        } else {
            assert forall|k: int| !#[trigger] lies_behind(layout, last, k) by {}
        }
    }
}

/// The payload before the cut before that at `i`; nothing before the first.
pub open spec fn offset_before(layout: ffmpeg::LayoutView, cuts: Seq<nat>, i: int) -> nat {
    if i == 0 {
        0
    } else {
        offset_at(layout, cuts[i - 1] as int) as nat
    }
}

proof fn lemma_cuts_exact(layout: ffmpeg::LayoutView, goal: nat, last: nat, from: nat)
    requires
        ffmpeg::are_in_order(layout.keyframes, layout.total_payload_bytes),
        layout.total_payload_bytes <= u128::MAX,
        goal > 0,
        from <= layout.keyframes.len(),
        forall|j: int| 0 <= j < from ==> #[trigger] offset_at(layout, j) <= last,
    ensures
        ({
            let cuts = cuts_from(layout, goal, last, from);
            &&& forall|i: int|
                0 <= i < cuts.len() ==> is_cut_after(
                    layout,
                    goal,
                    if i == 0 {
                        last
                    } else {
                        offset_at(layout, cuts[i - 1] as int) as nat
                    },
                    (#[trigger] cuts[i]) as int,
                )
            &&& ends_after(
                layout,
                goal,
                if cuts.len() == 0 {
                    last
                } else {
                    offset_at(layout, cuts.last() as int) as nat
                },
            )
        }),
    decreases layout.keyframes.len() - from,
{
    lemma_next_cut_exact(layout, goal, last, from);
    law_next_cut(layout, goal, last, from);
    let cuts = cuts_from(layout, goal, last, from);
    match next_cut(layout, goal, last, from) {
        Some(index) => {
            let offset = layout.keyframes[index as int].payload_offset as nat;
            let rest = cuts_from(layout, goal, offset, index + 1);
            assert forall|j: int| 0 <= j < index + 1 implies #[trigger] offset_at(layout, j)
                <= offset by {
                if j < index {
                    assert(layout.keyframes[j].payload_offset
                        <= layout.keyframes[index as int].payload_offset);
                }
            }
            lemma_cuts_exact(layout, goal, offset, index + 1);
            assert(cuts == seq![index] + rest);
            assert forall|i: int| 0 <= i < cuts.len() implies is_cut_after(
                layout,
                goal,
                if i == 0 {
                    last
                } else {
                    offset_at(layout, cuts[i - 1] as int) as nat
                },
                (#[trigger] cuts[i]) as int,
            ) by {
                if i > 0 {
                    assert(cuts[i] == rest[i - 1]);
                    if i > 1 {
                        assert(cuts[i - 1] == rest[i - 2]);
                    }
                }
            }
            if rest.len() > 0 {
                assert(cuts.last() == rest.last());
            }
        },
        None => {},
    }
}

/// Where the boundaries are in order, the file is larger than the target and a goal can be
/// computed: the goal is to the payload what the target is to the file; from nothing on, each cut
/// is the boundary to cut at after the one before it; and after the last nothing is to be cut.
pub proof fn law_size_cuts_exact(
    layout: ffmpeg::LayoutView,
    target: nat,
    input_size: nat,
    goal: nat,
)
    requires
        ffmpeg::are_in_order(layout.keyframes, layout.total_payload_bytes),
        layout.total_payload_bytes <= u128::MAX,
        input_size > target,
        target * layout.total_payload_bytes <= u128::MAX,
        goal * input_size <= target * layout.total_payload_bytes < (goal + 1) * input_size,
    ensures
        goal == 0 ==> size_cuts(layout, target, input_size) is Err,
        goal > 0 ==> (size_cuts(layout, target, input_size) matches Ok(cuts) && (forall|i: int|
            0 <= i < cuts.len() ==> is_cut_after(
                layout,
                goal,
                offset_before(layout, cuts, i),
                (#[trigger] cuts[i]) as int,
            )) && ends_after(layout, goal, offset_before(layout, cuts, cuts.len() as int))),
{
    lemma_goal(target * layout.total_payload_bytes, input_size, goal);
    if goal > 0 {
        lemma_cuts_exact(layout, goal, 0, 0);
        let cuts = cuts_from(layout, goal, 0, 0);
        assert forall|i: int| 0 <= i < cuts.len() implies is_cut_after(
            layout,
            goal,
            offset_before(layout, cuts, i),
            (#[trigger] cuts[i]) as int,
        ) by {}
    }
}

proof fn lemma_goal(product: nat, divisor: nat, goal: nat)
    requires
        divisor > 0,
        goal * divisor <= product < (goal + 1) * divisor,
    ensures
        product / divisor == goal,
{
    let remainder = product - goal * divisor;
    assert((goal + 1) * divisor == goal * divisor + divisor) by (nonlinear_arith);
    vstd::arithmetic::div_mod::lemma_fundamental_div_mod_converse(
        product as int,
        divisor as int,
        goal as int,
        remainder,
    );
}

/// A boundary to cut at is one alone.
pub proof fn law_cut_is_one(layout: ffmpeg::LayoutView, goal: nat, last: nat, a: int, b: int)
    requires
        ffmpeg::are_in_order(layout.keyframes, layout.total_payload_bytes),
        is_cut_after(layout, goal, last, a),
        is_cut_after(layout, goal, last, b),
    ensures
        a == b,
{
    let desired = last + goal;
    assert(lies_behind(layout, last, a) && lies_behind(layout, last, b));
    if a < b {
        assert(offset_at(layout, a) >= desired || offset_at(layout, b) >= desired);
        if offset_at(layout, a) >= desired && offset_at(layout, b) >= desired {
            assert(offset_at(layout, a) < desired);
        }
        if offset_at(layout, a) >= desired && offset_at(layout, b) < desired {
            assert(layout.keyframes[a].payload_offset <= layout.keyframes[b].payload_offset);
        }
    }
    if b < a {
        assert(offset_at(layout, a) >= desired || offset_at(layout, b) >= desired);
        if offset_at(layout, a) >= desired && offset_at(layout, b) >= desired {
            assert(offset_at(layout, b) < desired);
        }
        if offset_at(layout, b) >= desired && offset_at(layout, a) < desired {
            assert(layout.keyframes[b].payload_offset <= layout.keyframes[a].payload_offset);
        }
    }
}

/// The times of cuts are as many as the cuts, each is read as the time of its boundary, and none
/// holds a comma.
pub proof fn law_cut_times(boundaries: Seq<KeyframeBoundary>, cuts: Seq<nat>, i: int)
    requires
        0 <= i < cuts.len(),
        boundaries[cuts[i] as int].elapsed_micros <= 0x7fff_ffff_ffff_ffff,
    ensures
        cut_times(boundaries, cuts).len() == cuts.len(),
        ffmpeg::probe_time(cut_times(boundaries, cuts)[i], 0) == Ok::<int, Seq<char>>(
            boundaries[cuts[i] as int].elapsed_micros as int,
        ),
        !cut_times(boundaries, cuts)[i].contains(','),
{
    let micros = boundaries[cuts[i] as int].elapsed_micros as nat;
    law_micros_text(micros, 0);
    lemma_micros_without_comma(micros);
}

/// Microseconds are written without a comma.
pub proof fn lemma_micros_without_comma(micros: nat)
    ensures
        !micros_text(micros).contains(','),
{
    let whole = text::decimal(micros / 1_000_000);
    let fraction = text::padded(micros % 1_000_000, 6);
    let value = micros_text(micros);
    reveal_strlit(".");
    text::lemma_decimal(micros / 1_000_000);
    text::lemma_padded(micros % 1_000_000, 6);
    text::lemma_only_digits(whole, ',');
    text::lemma_only_digits(fraction, ',');
    assert forall|i: int| 0 <= i < value.len() implies value[i] != ',' by {
        if i < whole.len() {
            assert(value[i] == whole[i]);
        } else if i > whole.len() {
            assert(value[i] == fraction[i - whole.len() - 1]);
        }
    }
}

/// Microseconds are written with exactly six decimals.
pub proof fn law_micros_form(micros: nat)
    ensures
        ({
            let parts = text::split(micros_text(micros), '.');
            parts.len() == 2 && parts[1].len() == 6 && text::number(parts[0] + parts[1]) == micros
        }),
{
    let whole = text::decimal(micros / 1_000_000);
    let fraction = text::padded(micros % 1_000_000, 6);
    reveal_strlit(".");
    assert(text::power_of_ten(6) == 1_000_000) by {
        reveal_with_fuel(text::power_of_ten, 7);
    }
    text::lemma_decimal(micros / 1_000_000);
    text::lemma_padded(micros % 1_000_000, 6);
    text::lemma_padded_length(micros % 1_000_000, 6);
    text::lemma_only_digits(whole, '.');
    text::lemma_only_digits(fraction, '.');
    text::law_split_without_separator(whole, '.');
    text::law_split_one_more(whole, '.', fraction);
    assert(micros_text(micros) == whole.push('.') + fraction);
    assert(text::split(micros_text(micros), '.') == seq![whole, fraction]);
    text::law_number_of_two(whole, fraction);
}

/// Where no goal can be computed, that is told: 128 bits do not hold the product, or the goal is
/// nothing.
pub proof fn law_no_goal(layout: ffmpeg::LayoutView, target: nat, input_size: nat)
    requires
        input_size > target,
        target * layout.total_payload_bytes > u128::MAX || target * layout.total_payload_bytes
            < input_size,
    ensures
        size_cuts(layout, target, input_size) == Err::<Seq<nat>, Seq<char>>(
            "无法根据媒体包计算目标分片大小"@,
        ),
{
    if target * layout.total_payload_bytes < input_size {
        assert(0 * input_size == 0 && 1 * input_size == input_size);
        lemma_goal(target * layout.total_payload_bytes, input_size, 0);
    }
}

/// The first two points in time of which the second does not come after the first are told, as
/// they are shown.
pub proof fn law_disorder(times: Seq<nat>, i: int)
    requires
        0 <= i < times.len() - 1,
        times[i] >= times[i + 1],
        forall|j: int| 0 <= j < i ==> #[trigger] times[j] < times[j + 1],
    ensures
        order_failure(times) == Some(
            "拆分点必须严格递增，但 "@ + time::clock_text(times[i]) + " 不早于 "@
                + time::clock_text(times[i + 1]),
        ),
    decreases times.len(),
{
    if i > 0 {
        assert(times[0] < times[0int + 1]);
        let rest = times.skip(1);
        assert forall|j: int| 0 <= j < i - 1 implies #[trigger] rest[j] < rest[j + 1] by {
            assert(times[j + 1] < times[j + 2]);
        }
        assert(rest[i - 1] == times[i] && rest[i - 1 + 1] == times[i + 1]);
        law_disorder(rest, i - 1);
    }
}

/// An output is named by the prefix, a dash, its number with three digits or more, a point and the
/// extension.
pub proof fn law_output_name(prefix: Seq<char>, index: nat, extension: Seq<char>)
    ensures
        exists|digits: Seq<char>|
            output_name(prefix, index, extension) == #[trigger] (prefix.push('-') + digits).push(
                '.',
            ) + extension && text::is_number(digits) && text::number(digits) == index
                && digits.len() >= 3 && (digits.len() > 3 ==> digits[0] != '0'),
{
    let digits = text::padded(index, 3);
    reveal_strlit("-");
    reveal_strlit(".");
    text::lemma_padded(index, 3);
    text::law_padded(index, 3);
    text::law_decimal(index);
    assert(output_name(prefix, index, extension) == (prefix.push('-') + digits).push('.')
        + extension);
}

/// The outputs with given numbers are named each by its own.
pub proof fn law_names_of(
    prefix: Seq<char>,
    indices: Seq<nat>,
    extension: Seq<char>,
    count: nat,
    i: int,
)
    requires
        0 <= i < indices.len(),
    ensures
        names_of(prefix, indices, extension).len() == indices.len(),
        names_of(prefix, indices, extension)[i] == output_name(prefix, indices[i], extension),
        one_to(count).len() == count,
        i < count ==> one_to(count)[i] == i + 1,
{
}

/// Whether all names are different.
pub open spec fn are_apart(names: Seq<Option<Seq<char>>>) -> bool {
    forall|i: int, j: int| 0 <= i < j < names.len() ==> #[trigger] names[i] != #[trigger] names[j]
}

/// The numbers of the outputs among different names are all different: each comes before the next.
pub proof fn law_numbers_are_apart(
    names: Seq<Option<Seq<char>>>,
    prefix: Seq<char>,
    extension: Seq<char>,
)
    requires
        are_apart(names),
    ensures
        forall|i: int, j: int|
            0 <= i < j < numbers_in(names, prefix, extension).len() ==> numbers_in(
                names,
                prefix,
                extension,
            )[i] < numbers_in(names, prefix, extension)[j],
    decreases names.len(),
{
    if names.len() > 0 {
        let front = names.drop_last();
        assert forall|i: int, j: int| 0 <= i < j < front.len() implies #[trigger] front[i]
            != #[trigger] front[j] by {
            assert(names[i] != names[j]);
        }
        law_numbers_are_apart(front, prefix, extension);
        law_numbers_in(front, prefix, extension);
        let rest = numbers_in(front, prefix, extension);
        match entry_index(names.last(), prefix, extension) {
            Some(index) => {
                let last = names.last()->0;
                law_entry_index(last, prefix, extension, index);
                assert(!rest.contains(index)) by {
                    if rest.contains(index) {
                        let name = Some(output_name(prefix, index, extension));
                        let k = choose|k: int| 0 <= k < front.len() && front[k] == name;
                        assert(names[k] != names[names.len() - 1]);
                    }
                }
                lemma_placed_apart(rest, index);
            },
            None => {},
        }
    }
}

proof fn lemma_placed_apart(sorted: Seq<nat>, number: nat)
    requires
        forall|i: int, j: int| 0 <= i < j < sorted.len() ==> sorted[i] < sorted[j],
        !sorted.contains(number),
    ensures
        forall|i: int, j: int|
            0 <= i < j < placed(sorted, number).len() ==> placed(sorted, number)[i] < placed(
                sorted,
                number,
            )[j],
    decreases sorted.len(),
{
    let out = placed(sorted, number);
    assert(is_ascending(sorted));
    if sorted.len() > 0 && sorted.last() > number {
        let front = sorted.drop_last();
        assert(!front.contains(number)) by {
            if front.contains(number) {
                let k = choose|k: int| 0 <= k < front.len() && front[k] == number;
                assert(sorted[k] == number);
            }
        }
        lemma_placed_apart(front, number);
        lemma_placed_keeps(front, number);
        let head = placed(front, number);
        assert forall|i: int, j: int| 0 <= i < j < out.len() implies out[i] < out[j] by {
            if j == out.len() - 1 {
                assert(head.contains(head[i]));
                if head[i] != number {
                    let k = choose|k: int| 0 <= k < front.len() && front[k] == head[i];
                    assert(sorted[k] < sorted[sorted.len() - 1]);
                }
            }
        }
    } else {
        assert forall|i: int, j: int| 0 <= i < j < out.len() implies out[i] < out[j] by {
            if j == out.len() - 1 {
                assert(sorted[i] <= sorted[sorted.len() - 1]);
                assert(sorted.contains(sorted[sorted.len() - 1]));
            }
        }
    }
}

/// What is told where no segments are found, or one is missing: the first number that is not the
/// expected one.
pub proof fn law_discovery_failures(
    names: Seq<Option<Seq<char>>>,
    directory: Seq<char>,
    prefix: Seq<char>,
    extension: Seq<char>,
    i: int,
)
    ensures
        numbers_in(names, prefix, extension).len() == 0 ==> discovered(
            names,
            directory,
            prefix,
            extension,
        ) == Err::<Seq<Seq<char>>, Seq<char>>("FFmpeg 未在 `"@ + directory + "` 中生成任何分段"@),
        0 <= i < numbers_in(names, prefix, extension).len() && numbers_in(
            names,
            prefix,
            extension,
        )[i] != i + 1 && (forall|j: int|
            0 <= j < i ==> #[trigger] numbers_in(names, prefix, extension)[j] == j + 1)
            ==> discovered(names, directory, prefix, extension) == Err::<Seq<Seq<char>>, Seq<char>>(
            "输出分段编号不连续：预期 "@ + text::padded((i + 1) as nat, 3) + "，实际为 "@
                + text::padded(numbers_in(names, prefix, extension)[i], 3),
        ),
{
    let indices = numbers_in(names, prefix, extension);
    if 0 <= i < indices.len() && indices[i] != i + 1 && (forall|j: int|
        0 <= j < i ==> #[trigger] indices[j] == j + 1) {
        lemma_numbering_at(indices, 0, i as nat);
    }
}

proof fn lemma_numbering_at(indices: Seq<nat>, from: nat, at: nat)
    requires
        from <= at < indices.len(),
        indices[at as int] != at + 1,
        forall|j: int| 0 <= j < at ==> #[trigger] indices[j] == j + 1,
    ensures
        numbering_failure(indices, from) == Some(
            "输出分段编号不连续：预期 "@ + text::padded(at + 1, 3) + "，实际为 "@ + text::padded(
                indices[at as int],
                3,
            ),
        ),
    decreases at - from,
{
    if from < at {
        lemma_numbering_at(indices, from + 1, at);
    }
}

/// What is told of names of the input that cannot be used, and when.
pub proof fn law_name_refusals(
    part: NamePartView,
    missing: Seq<char>,
    shown: Seq<char>,
    same_directory: bool,
    prefix: Seq<char>,
    extension: Seq<char>,
)
    ensures
        part is Missing ==> component(part, missing) == Err::<Seq<char>, Seq<char>>(missing),
        part is NotUnicode ==> component(part, missing) == Err::<Seq<char>, Seq<char>>(
            "文件名和扩展名必须是有效 UTF-8 文本"@,
        ),
        part matches NamePartView::Text(name) ==> component(part, missing) == Ok::<
            Seq<char>,
            Seq<char>,
        >(name),
        !(part is Text) ==> collision_failure(shown, part, same_directory, prefix, extension)
            == Some("输入文件名必须是有效 UTF-8 文本"@),
        part matches NamePartView::Text(name) ==> {
            let taken = same_directory && exists|n: nat|
                0 < n <= usize::MAX && name == #[trigger] output_name(prefix, n, extension);
            &&& taken ==> collision_failure(shown, part, same_directory, prefix, extension) == Some(
                "输入文件 `"@ + shown
                    + "` 与拆分输出命名范围冲突；请更换 --output-dir 或 --prefix"@,
            )
            &&& !taken ==> collision_failure(
                shown,
                part,
                same_directory,
                prefix,
                extension,
            ) is None
        },
        missing_input_message(shown) == "输入文件 `"@ + shown + "` 不存在或不是普通文件"@,
{
    match part {
        NamePartView::Text(name) => {
            let index = entry_index(Some(name), prefix, extension);
            if index is Some {
                law_entry_index(name, prefix, extension, index->0);
            }
            if exists|n: nat|
                0 < n <= usize::MAX && name == #[trigger] output_name(prefix, n, extension) {
                let n = choose|n: nat|
                    0 < n <= usize::MAX && name == #[trigger] output_name(prefix, n, extension);
                law_entry_index(name, prefix, extension, n);
            }
        },
        _ => {},
    }
}

/// FFmpeg may overwrite files exactly where that was asked for.
pub proof fn law_overwrite_option(overwrite: bool)
    ensures
        overwrite ==> overwrite_option(overwrite) == "-y"@,
        !overwrite ==> overwrite_option(overwrite) == "-n"@,
{
}

/// What the contracts see of names, numbers and results is all of it.
pub proof fn law_name_views(
    names: Seq<Option<String>>,
    list: Seq<usize>,
    i: int,
    part: String,
    files: Vec<String>,
    error: AppError,
)
    ensures
        name_texts(names).len() == names.len(),
        numbers(list).len() == list.len(),
        0 <= i < list.len() ==> numbers(list)[i] == list[i],
        0 <= i < names.len() && names[i] is None ==> name_texts(names)[i] is None,
        0 <= i < names.len() && names[i] is Some ==> name_texts(names)[i] == Some(names[i]->0@),
        NamePart::Missing@ == NamePartView::Missing,
        NamePart::NotUnicode@ == NamePartView::NotUnicode,
        NamePart::Text(part)@ == NamePartView::Text(part@),
        seen_names(Ok(files)) == Ok::<Seq<Seq<char>>, Seq<char>>(text::texts(files@)),
        seen_names(Err(error)) == Err::<Seq<Seq<char>>, Seq<char>>(error@),
        forall|k: usize| #[trigger] index_of(Some(k)) == Some(k as nat),
        index_of(None) is None,
{
}

/// Of two boundaries the closer is chosen, the first where both are as close, and the only one
/// where there is one.
pub proof fn law_closest(
    boundaries: Seq<KeyframeBoundary>,
    desired: nat,
    before: Option<nat>,
    after: Option<nat>,
)
    ensures
        before is None ==> closest(boundaries, desired, before, after) == after,
        after is None ==> closest(boundaries, desired, before, after) == before,
        before matches Some(b) ==> after matches Some(a) ==> {
            let off = boundaries[b as int].payload_offset - desired;
            let other = boundaries[a as int].payload_offset - desired;
            let closer = (off >= 0 && other >= 0 && off <= other) || (off < 0 && other < 0 && -off
                <= -other) || (off >= 0 && other < 0 && off <= -other) || (off < 0 && other >= 0
                && -off <= other);
            closest(boundaries, desired, before, after) == (if closer {
                before
            } else {
                after
            })
        },
{
}

} // verus!
