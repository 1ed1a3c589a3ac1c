//! Reports that `libcasr` cannot take: on these its parsers panic.
use vstd::prelude::*;

use crate::parsers;
use crate::parsers::{Mapping, MappingView, Parser};
use crate::report::{Report, ReportView};
use crate::stacktrace;
use crate::stacktrace::{Frame, FrameView};
use crate::text;

verus! {

broadcast use vstd::string::group_string_axioms;

/// The first characters of the blocks of ten decimal digits in Unicode 16.
pub open spec fn decimal_blocks() -> Seq<u32> {
    seq![
        0x30u32, 0x660, 0x6f0, 0x7c0, 0x966, 0x9e6, 0xa66, 0xae6, 0xb66, 0xbe6, 0xc66, 0xce6,
        0xd66, 0xde6, 0xe50, 0xed0, 0xf20, 0x1040, 0x1090, 0x17e0, 0x1810, 0x1946, 0x19d0,
        0x1a80, 0x1a90, 0x1b50, 0x1bb0, 0x1c40, 0x1c50, 0xa620, 0xa8d0, 0xa900, 0xa9d0, 0xa9f0,
        0xaa50, 0xabf0, 0xff10, 0x104a0, 0x10d30, 0x10d40, 0x11066, 0x110f0, 0x11136, 0x111d0,
        0x112f0, 0x11450, 0x114d0, 0x11650, 0x116c0, 0x116d0, 0x116da, 0x11730, 0x118e0, 0x11950,
        0x11bf0, 0x11c50, 0x11d50, 0x11da0, 0x11f50, 0x16130, 0x16a60, 0x16ac0, 0x16b50, 0x16d70,
        0x1ccf0, 0x1d7ce, 0x1d7d8, 0x1d7e2, 0x1d7ec, 0x1d7f6, 0x1e140, 0x1e2f0, 0x1e4f0, 0x1e5f1,
        0x1e950, 0x1fbf0,
    ]
}

/// The character is a decimal digit of some script: what `\d` matches in a regular expression.
pub open spec fn is_decimal(c: char) -> bool {
    exists|i: int|
        0 <= i < decimal_blocks().len() && #[trigger] decimal_blocks()[i] <= c as u32
            <= decimal_blocks()[i] + 9
}

fn decimal(c: char) -> (r: bool)
    ensures
        r == is_decimal(c),
{
    let blocks: [u32; 76] = [
        0x30u32, 0x660, 0x6f0, 0x7c0, 0x966, 0x9e6, 0xa66, 0xae6, 0xb66, 0xbe6, 0xc66, 0xce6,
        0xd66, 0xde6, 0xe50, 0xed0, 0xf20, 0x1040, 0x1090, 0x17e0, 0x1810, 0x1946, 0x19d0,
        0x1a80, 0x1a90, 0x1b50, 0x1bb0, 0x1c40, 0x1c50, 0xa620, 0xa8d0, 0xa900, 0xa9d0, 0xa9f0,
        0xaa50, 0xabf0, 0xff10, 0x104a0, 0x10d30, 0x10d40, 0x11066, 0x110f0, 0x11136, 0x111d0,
        0x112f0, 0x11450, 0x114d0, 0x11650, 0x116c0, 0x116d0, 0x116da, 0x11730, 0x118e0, 0x11950,
        0x11bf0, 0x11c50, 0x11d50, 0x11da0, 0x11f50, 0x16130, 0x16a60, 0x16ac0, 0x16b50, 0x16d70,
        0x1ccf0, 0x1d7ce, 0x1d7d8, 0x1d7e2, 0x1d7ec, 0x1d7f6, 0x1e140, 0x1e2f0, 0x1e4f0, 0x1e5f1,
        0x1e950, 0x1fbf0,
    ];
    assert(blocks@ =~= decimal_blocks());
    let mut i: usize = 0;
    while i < blocks.len()
        invariant
            i <= blocks.len(),
            blocks@ == decimal_blocks(),
            forall|j: int|
                0 <= j < i ==> !(#[trigger] decimal_blocks()[j] <= c as u32 <= decimal_blocks()[j]
                    + 9),
        decreases blocks.len() - i,
    {
        assert(blocks@[i as int] == decimal_blocks()[i as int]);
        if blocks[i] <= c as u32 && c as u32 - blocks[i] <= 9 {
            return true;
        }
        i += 1;
    }
    false
}

/// Where the run of decimal digits that starts at `from` ends.
pub open spec fn decimals_end(s: Seq<char>, from: int) -> int
    decreases s.len() - from,
{
    if 0 <= from < s.len() && is_decimal(s[from]) {
        decimals_end(s, from + 1)
    } else {
        from
    }
}

/// The count in a mark for repetitions at `at`: `[Previous line repeated N more times]`.
pub open spec fn repetition_at(s: Seq<char>, at: int) -> Option<Seq<char>> {
    let from = at + "[Previous line repeated "@.len();
    let end = decimals_end(s, from);
    if text::occurs_at(s, "[Previous line repeated "@, at) && from < end && text::occurs_at(
        s,
        " more times]"@,
        end,
    ) {
        Some(s.subrange(from, end))
    } else {
        None
    }
}

/// The count in the first mark for repetitions that does not start before `from`.
pub open spec fn repetition(s: Seq<char>, from: int) -> Option<Seq<char>>
    decreases s.len() - from,
{
    if from >= s.len() {
        None
    } else if repetition_at(s, from) is Some {
        repetition_at(s, from)
    } else {
        repetition(s, from + 1)
    }
}

/// How often a line of a Python stack trace repeats the frame before it: the line starts with a
/// bracket and holds a mark for repetitions with a number as its count.
pub open spec fn repetitions(line: Seq<char>) -> Option<nat> {
    if "["@.is_prefix_of(line) && repetition(line, 0) is Some {
        text::number(repetition(line, 0)->0)
    } else {
        None
    }
}

/// The line of a Python stack trace repeats the frame before it.
pub open spec fn is_repetition(line: Seq<char>) -> bool {
    repetitions(line) is Some
}

/// The line of a Python stack trace repeats the frame before it more often than a vector has room.
pub open spec fn is_endless(line: Seq<char>) -> bool {
    repetitions(line) matches Some(count) && count > isize::MAX
}

/// Line `i` is the first that repeats a frame too often, and the lines before it can be parsed.
pub open spec fn is_endless_line(lines: Seq<Seq<char>>, i: int) -> bool {
    &&& 0 <= i < lines.len()
    &&& is_endless(lines[i])
    &&& forall|j: int| 0 <= j < i ==> !is_endless(#[trigger] lines[j])
    &&& parsers::python_frames(lines.take(i)) is Some
}

/// One of the lines repeats a frame too often, and the lines before it can be parsed.
pub open spec fn some_line_is_endless(lines: Seq<Seq<char>>) -> bool {
    exists|i: int| is_endless_line(lines, i)
}

/// A line of a Python stack trace repeats a frame too often.
pub open spec fn has_endless_repetition(report: ReportView) -> bool {
    &&& parsers::parser_of(report) == Parser::Python
    &&& some_line_is_endless(report.stacktrace)
}

/// The first of the lines repeats the frame before it.
pub open spec fn starts_repeating(lines: Seq<Seq<char>>) -> bool {
    lines.len() > 0 && is_repetition(lines[0])
}

/// The stack trace of a Python report starts with a line that repeats the frame before it.
pub open spec fn leads_with_repetition(report: ReportView) -> bool {
    &&& parsers::parser_of(report) == Parser::Python
    &&& starts_repeating(report.stacktrace)
}

/// The line in a JavaScript location `file[:line[:column]]`, zero if it has none. There is none in
/// an empty location, nor where what should be a number is none.
pub open spec fn location_line(location: Seq<char>) -> Option<nat> {
    match text::last_of(location, ':') {
        None => if location.len() > 0 {
            Some(0)
        } else {
            None
        },
        Some(last) => {
            let tail = location.skip(last + 1);
            let front = location.take(last);
            match text::last_of(front, ':') {
                None => text::number(tail),
                Some(colon) => if text::number(tail) is Some {
                    text::number(front.skip(colon + 1))
                } else {
                    None
                },
            }
        },
    }
}

/// Where the location of a call of `eval` opens, if the name of the calling function ends at `at`:
/// behind a bracket, which may stand behind an alias `[as name]`.
pub open spec fn location_start(call: Seq<char>, at: int) -> Option<int> {
    if text::occurs_at(call, " ("@, at) {
        Some(at + 2)
    } else if text::occurs_at(call, " [as"@, at) {
        match text::find_from(call, "] ("@, at + 4) {
            Some(end) => Some(end + 3),
            None => None,
        }
    } else {
        None
    }
}

/// The location of the call of `eval` and that inside it, in `function (location), location`, where
/// the name of the function does not end before `at`.
pub open spec fn function_call(call: Seq<char>, at: int) -> Option<(Seq<char>, Seq<char>)>
    decreases call.len() - at,
{
    if at >= call.len() {
        None
    } else {
        let found = match location_start(call, at) {
            Some(start) => match text::find_from(call, "), "@, start) {
                Some(end) => Some((call.subrange(start, end), call.skip(end + 3))),
                None => None,
            },
            None => None,
        };
        if found is Some {
            found
        } else {
            function_call(call, at + 1)
        }
    }
}

/// The two locations whose lines are added for a call of `eval`. There are none where the first is
/// itself in brackets.
pub open spec fn eval_locations(call: Seq<char>) -> Option<(Seq<char>, Seq<char>)> {
    match function_call(call, 1) {
        Some(found) => if found.0.contains('(') || found.0.contains(')') {
            None
        } else {
            Some(found)
        },
        None => match text::find_from(call, ", "@, 1) {
            Some(comma) => Some((call.take(comma), call.skip(comma + 2))),
            None => None,
        },
    }
}

/// What a line of a JavaScript stack trace says of a call of `eval`.
pub open spec fn eval_call(line: Seq<char>) -> Option<Seq<char>> {
    let head = "at eval (eval at "@;
    if head.is_prefix_of(line) && line.last() == ')' && !line.contains('\n') {
        Some(line.subrange(head.len() as int, line.len() - 1))
    } else {
        None
    }
}

/// The line of the call of `eval` and that inside it, which counts from three on, add up to a
/// number that does not fit.
pub open spec fn eval_overflows(line: Seq<char>) -> bool {
    &&& !text::occurs_in(line, "unknown location"@)
    &&& eval_call(line) matches Some(call) && eval_locations(call) matches Some(locations)
        && location_line(locations.0) matches Some(outer) && location_line(locations.1) matches Some(
        inner,
    ) && inner >= 3 && outer + inner - 3 > u64::MAX
}

/// Line `i` is the first whose sum does not fit, and the lines before it can be parsed.
pub open spec fn is_overflowing_eval(lines: Seq<Seq<char>>, i: int) -> bool {
    &&& 0 <= i < lines.len()
    &&& eval_overflows(lines[i])
    &&& forall|j: int| 0 <= j < i ==> !eval_overflows(#[trigger] lines[j])
    &&& parsers::js_frames(lines.take(i)) is Some
}

/// One of the lines asks for a sum that does not fit, and the lines before it can be parsed.
pub open spec fn some_eval_overflows(lines: Seq<Seq<char>>) -> bool {
    exists|i: int| is_overflowing_eval(lines, i)
}

/// A line of a JavaScript stack trace asks for a sum that does not fit.
pub open spec fn has_overflowing_eval(report: ReportView) -> bool {
    &&& parsers::parser_of(report) == Parser::Js
    &&& some_eval_overflows(report.stacktrace)
}

/// The offset of a frame in the file that is mapped at its address does not fit.
pub open spec fn offset_overflows(mappings: Seq<MappingView>, frame: FrameView) -> bool {
    parsers::mapping_of(mappings, frame.address, 0) matches Some(mapping) && frame.address
        - mapping.start + mapping.offset > u64::MAX
}

/// The offset of some of the frames does not fit.
pub open spec fn some_offset_overflows(
    mappings: Seq<MappingView>,
    frames: Seq<FrameView>,
) -> bool {
    exists|i: int| 0 <= i < frames.len() && offset_overflows(mappings, #[trigger] frames[i])
}

/// The offset of some frame of the stack trace in a mapped file does not fit.
pub open spec fn has_overflowing_offset(report: ReportView) -> bool {
    &&& report.proc_maps.len() > 0
    &&& parsers::raw_frames(report) matches Some(frames) && parsers::mapped_files(
        text::joined(report.proc_maps),
    ) matches Some(mappings) && some_offset_overflows(mappings, frames)
}

/// How often a line of a Python stack trace repeats the frame before it, if it does.
pub fn count_repetitions(line: &str) -> (r: Option<u64>)
    ensures
        match r {
            Some(count) => repetitions(line@) == Some(count as nat),
            None => repetitions(line@) is None,
        },
{
    if !text::has_prefix(line, "[") {
        return None;
    }
    let s = text::chars_of(line);
    let head = text::chars_of("[Previous line repeated ");
    let tail = text::chars_of(" more times]");
    let mut at: usize = 0;
    while at < s.len()
        invariant
            s@ == line@,
            head@ == "[Previous line repeated "@,
            tail@ == " more times]"@,
            at <= s.len(),
            "["@.is_prefix_of(line@),
            repetition(line@, 0) == repetition(line@, at as int),
        decreases s.len() - at,
    {
        if text::matches_at(&s, &head, at) {
            let from: usize = at + head.len();
            let mut end: usize = from;
            while end < s.len() && decimal(s[end])
                invariant
                    s@ == line@,
                    from <= end <= s.len(),
                    decimals_end(line@, from as int) == decimals_end(line@, end as int),
                decreases s.len() - end,
            {
                end += 1;
            }
            assert(decimals_end(line@, from as int) == end);
            if from < end && text::matches_at(&s, &tail, end) {
                assert(repetition_at(line@, at as int) == Some(
                    line@.subrange(from as int, end as int),
                ));
                return text::parse_number(&s, from, end);
            }
        }
        assert(repetition_at(line@, at as int) is None);
        at += 1;
    }
    None
}

/// Whether the stack trace of a Python report starts with a line that repeats the frame before it.
pub fn starts_with_repetition(report: &Report) -> (r: bool)
    ensures
        r == leads_with_repetition(report@),
{
    assert(report@.stacktrace.len() == report.stacktrace.len());
    parsers::choose_parser(report) == Parser::Python && report.stacktrace.len() > 0
        && count_repetitions(report.stacktrace[0].as_str()).is_some()
}

/// Whether a line of a Python stack trace repeats the frame before it more often than a vector has
/// room.
fn endless(line: &str) -> (r: bool)
    ensures
        r == is_endless(line@),
{
    match count_repetitions(line) {
        Some(count) => count > isize::MAX as u64,
        None => false,
    }
}

/// Whether a line of a Python stack trace repeats a frame too often.
pub(crate) fn endless_repetition(report: &Report) -> (r: bool)
    requires
        !leads_with_repetition(report@),
    ensures
        r == has_endless_repetition(report@),
{
    if parsers::choose_parser(report) != Parser::Python {
        return false;
    }
    let lines = &report.stacktrace;
    let ghost all = report@.stacktrace;
    let mut i: usize = 0;
    while i < lines.len() && !endless(lines[i].as_str())
        invariant
            i <= lines.len(),
            all == text::texts(lines@),
            forall|j: int| 0 <= j < i ==> !is_endless(#[trigger] all[j]),
        decreases lines.len() - i,
    {
        i += 1;
    }
    if i == lines.len() {
        return false;
    }
    assert(is_endless(all[i as int]));
    let before = vstd::slice::slice_subrange(lines.as_slice(), 0, i);
    proof {
        assert(text::texts(before@) =~= all.take(i as int));
        assert(!some_line_is_endless(all.take(i as int))) by {
            if some_line_is_endless(all.take(i as int)) {
                let k = choose|k: int| is_endless_line(all.take(i as int), k);
                assert(!is_endless(all[k]));
            }
        }
    }
    let parses = parsers::parse_python(before).is_some();
    proof {
        if parses {
            assert(is_endless_line(all, i as int));
        } else {
            assert forall|k: int| !is_endless_line(all, k) by {
                if is_endless_line(all, k) {
                    if k < i {
                        assert(!is_endless(all[k]));
                    } else if k > i {
                        assert(!is_endless(all[i as int]));
                    }
                }
            }
        }
    }
    parses
}

/// The line in the location that stands from `from` up to `to`.
fn line_in(s: &Vec<char>, from: usize, to: usize) -> (r: Option<u64>)
    requires
        from <= to <= s.len(),
    ensures
        match r {
            Some(n) => location_line(s@.subrange(from as int, to as int)) == Some(n as nat),
            None => location_line(s@.subrange(from as int, to as int)) is None,
        },
{
    let ghost location = s@.subrange(from as int, to as int);
    let mut part: Vec<char> = Vec::new();
    let mut i: usize = from;
    while i < to
        invariant
            from <= i <= to <= s.len(),
            part@ == s@.subrange(from as int, i as int),
        decreases to - i,
    {
        part.push(s[i]);
        i += 1;
    }
    let n: usize = part.len();
    assert(part@ == location);
    assert(part@.take(n as int) =~= part@);
    match text::search_last(&part, ':', n) {
        None => if n > 0 {
            Some(0)
        } else {
            None
        },
        Some(last) => {
            let tail = text::parse_number(&part, last + 1, n);
            assert(part@.subrange(last + 1, n as int) =~= location.skip(last + 1));
            match text::search_last(&part, ':', last) {
                None => tail,
                Some(colon) => {
                    assert(part@.subrange(colon + 1, last as int) =~= location.take(
                        last as int,
                    ).skip(colon + 1));
                    if tail.is_some() {
                        text::parse_number(&part, colon + 1, last)
                    } else {
                        None
                    }
                },
            }
        },
    }
}

/// Whether a bracket stands from `from` up to `to`.
fn has_bracket(s: &Vec<char>, from: usize, to: usize) -> (r: bool)
    requires
        from <= to <= s.len(),
    ensures
        r == (s@.subrange(from as int, to as int).contains('(') || s@.subrange(
            from as int,
            to as int,
        ).contains(')')),
{
    let ghost part = s@.subrange(from as int, to as int);
    let mut i: usize = from;
    while i < to
        invariant
            from <= i <= to <= s.len(),
            part == s@.subrange(from as int, to as int),
            forall|j: int| 0 <= j < i - from ==> part[j] != '(' && part[j] != ')',
        decreases to - i,
    {
        if s[i] == '(' || s[i] == ')' {
            assert(part[i - from] == s[i as int]);
            return true;
        }
        i += 1;
    }
    false
}

/// Where the location of a call of `eval` opens, if the name of the calling function ends at `at`.
fn find_location(call: &Vec<char>, at: usize) -> (r: Option<usize>)
    requires
        at < call.len(),
    ensures
        match r {
            Some(start) => location_start(call@, at as int) == Some(start as int) && start
                <= call.len(),
            None => location_start(call@, at as int) is None,
        },
{
    proof {
        reveal_strlit(" (");
        reveal_strlit(" [as");
        reveal_strlit("] (");
    }
    if text::matches_at(call, &text::chars_of(" ("), at) {
        return Some(at + 2);
    }
    if text::matches_at(call, &text::chars_of(" [as"), at) {
        return match text::search(call, "] (", at + 4) {
            Some(end) => Some(end + 3),
            None => None,
        };
    }
    None
}

/// The bounds of the location of a call of `eval`, and the start of that inside it.
fn find_locations(call: &Vec<char>) -> (r: Option<(usize, usize, usize)>)
    ensures
        match r {
            Some((from, to, inner)) => from <= to <= inner <= call.len() && eval_locations(call@)
                == Some((call@.subrange(from as int, to as int), call@.skip(inner as int))),
            None => eval_locations(call@) is None,
        },
{
    proof {
        reveal_strlit("), ");
        reveal_strlit(", ");
    }
    let mut at: usize = 1;
    while at < call.len()
        invariant
            1 <= at,
            "), "@.len() == 3,
            function_call(call@, 1) == function_call(call@, at as int),
        decreases call.len() - at,
    {
        match find_location(call, at) {
            Some(start) => {
                match text::search(call, "), ", start) {
                    Some(end) => {
                        assert(function_call(call@, 1) == Some(
                            (call@.subrange(start as int, end as int), call@.skip(end + 3)),
                        ));
                        if has_bracket(call, start, end) {
                            return None;
                        }
                        return Some((start, end, end + 3));
                    },
                    None => {},
                }
            },
            None => {},
        }
        at += 1;
    }
    assert(function_call(call@, 1) is None);
    if call.len() == 0 {
        return None;
    }
    match text::search(call, ", ", 1) {
        Some(comma) => {
            assert(call@.subrange(0, comma as int) =~= call@.take(comma as int));
            Some((0, comma, comma + 2))
        },
        None => None,
    }
}

/// Whether the line of a call of `eval` and that inside it add up to a number that does not fit.
pub fn eval_sum_overflows(line: &str) -> (r: bool)
    ensures
        r == eval_overflows(line@),
{
    if text::has_infix(line, "unknown location") || !text::has_prefix(line, "at eval (eval at ") {
        return false;
    }
    proof {
        reveal_strlit("at eval (eval at ");
        assert(line@[16] == "at eval (eval at "@[16]);
    }
    let s = text::chars_of(line);
    if s[s.len() - 1] != ')' {
        return false;
    }
    let mut call: Vec<char> = Vec::new();
    let mut i: usize = 17;
    while i < s.len() - 1
        invariant
            s@ == line@,
            17 <= i <= s.len() - 1,
            call@ == line@.subrange(17, i as int),
            forall|j: int| 17 <= j < i ==> line@[j] != '\n',
        decreases s.len() - i,
    {
        if s[i] == '\n' {
            assert(line@[i as int] == '\n');
            return false;
        }
        call.push(s[i]);
        i += 1;
    }
    assert(!line@.contains('\n')) by {
        if line@.contains('\n') {
            let k = choose|k: int| 0 <= k < line@.len() && line@[k] == '\n';
            assert(k < 17);
            assert(line@[k] == "at eval (eval at "@[k]);
        }
    }
    match find_locations(&call) {
        Some((from, to, inner)) => {
            assert(call@.subrange(inner as int, call.len() as int) =~= call@.skip(inner as int));
            match (line_in(&call, from, to), line_in(&call, inner, call.len())) {
                (Some(outer), Some(n)) => n >= 3 && outer > u64::MAX - (n - 3),
                _ => false,
            }
        },
        None => false,
    }
}

/// Whether a line of a JavaScript stack trace asks for a sum that does not fit.
pub fn eval_overflow(report: &Report) -> (r: bool)
    ensures
        r == has_overflowing_eval(report@),
{
    if parsers::choose_parser(report) != Parser::Js {
        return false;
    }
    let lines = &report.stacktrace;
    let ghost all = report@.stacktrace;
    let mut i: usize = 0;
    while i < lines.len() && !eval_sum_overflows(lines[i].as_str())
        invariant
            i <= lines.len(),
            all == text::texts(lines@),
            forall|j: int| 0 <= j < i ==> !eval_overflows(#[trigger] all[j]),
        decreases lines.len() - i,
    {
        i += 1;
    }
    if i == lines.len() {
        return false;
    }
    assert(eval_overflows(all[i as int]));
    let before = vstd::slice::slice_subrange(lines.as_slice(), 0, i);
    proof {
        assert(text::texts(before@) =~= all.take(i as int));
        assert(!some_eval_overflows(all.take(i as int))) by {
            if some_eval_overflows(all.take(i as int)) {
                let k = choose|k: int| is_overflowing_eval(all.take(i as int), k);
                assert(!eval_overflows(all[k]));
            }
        }
    }
    let parses = parsers::parse_js(before).is_some();
    proof {
        if parses {
            assert(is_overflowing_eval(all, i as int));
        } else {
            assert forall|k: int| !is_overflowing_eval(all, k) by {
                if is_overflowing_eval(all, k) {
                    if k < i {
                        assert(!eval_overflows(all[k]));
                    } else if k > i {
                        assert(!eval_overflows(all[i as int]));
                    }
                }
            }
        }
    }
    parses
}

/// Whether the offset of a frame in the file that is mapped at its address does not fit.
pub fn mapping_overflows(mappings: &Vec<Mapping>, frame: &Frame) -> (r: bool)
    ensures
        r == offset_overflows(parsers::mappings_view(mappings@), frame@),
{
    let ghost all = parsers::mappings_view(mappings@);
    let mut i: usize = 0;
    while i < mappings.len()
        invariant
            i <= mappings.len(),
            all == parsers::mappings_view(mappings@),
            parsers::mapping_of(all, frame.address, 0) == parsers::mapping_of(
                all,
                frame.address,
                i as int,
            ),
        decreases mappings.len() - i,
    {
        let m = &mappings[i];
        assert(all[i as int] == m@);
        if m.start <= frame.address && frame.address < m.end {
            return frame.address - m.start > u64::MAX - m.offset;
        }
        i += 1;
    }
    false
}

/// Whether the offset of some frame of the stack trace in a mapped file does not fit.
pub(crate) fn offset_overflow(report: &Report) -> (r: bool)
    requires
        !leads_with_repetition(report@),
        !has_endless_repetition(report@),
        !has_overflowing_eval(report@),
    ensures
        r == has_overflowing_offset(report@),
{
    assert(report@.proc_maps.len() == report.proc_maps.len());
    if report.proc_maps.len() == 0 {
        return false;
    }
    let frames = match parsers::parse_trace(report) {
        Some(frames) => frames,
        None => {
            return false;
        },
    };
    let maps = text::join_lines(&report.proc_maps);
    let mappings = match parsers::parse_maps(maps.as_str()) {
        Some(mappings) => mappings,
        None => {
            return false;
        },
    };
    let ghost trace = stacktrace::frames_view(frames@);
    let ghost files = parsers::mappings_view(mappings@);
    let mut i: usize = 0;
    while i < frames.len()
        invariant
            i <= frames.len(),
            trace == stacktrace::frames_view(frames@),
            files == parsers::mappings_view(mappings@),
            report@.proc_maps.len() > 0,
            parsers::raw_frames(report@) == Some(trace),
            parsers::mapped_files(text::joined(report@.proc_maps)) == Some(files),
            forall|j: int| 0 <= j < i ==> !offset_overflows(files, #[trigger] trace[j]),
        decreases frames.len() - i,
    {
        if mapping_overflows(&mappings, &frames[i]) {
            assert(offset_overflows(files, trace[i as int]));
            assert(some_offset_overflows(files, trace));
            return true;
        }
        i += 1;
    }
    false
}

/// Of the characters of ASCII the ten digits are decimal digits, and no others.
pub proof fn law_decimal_digits_of_ascii(c: char)
    requires
        (c as u32) < 0x80,
    ensures
        is_decimal(c) <==> '0' <= c <= '9',
{
    let blocks = decimal_blocks();
    assert(blocks[0] == 0x30);
    if is_decimal(c) {
        let i = choose|i: int|
            0 <= i < decimal_blocks().len() && #[trigger] decimal_blocks()[i] <= c as u32
                <= decimal_blocks()[i] + 9;
        assert(i == 0);
    }
}

proof fn lemma_decimals_end(s: Seq<char>, from: int, end: int)
    requires
        0 <= from <= end <= s.len(),
        forall|k: int| from <= k < end ==> is_decimal(#[trigger] s[k]),
        end < s.len() ==> !is_decimal(s[end]),
    ensures
        decimals_end(s, from) == end,
    decreases end - from,
{
    if from < end {
        assert(is_decimal(s[from]));
        lemma_decimals_end(s, from + 1, end);
    }
}

proof fn lemma_repetition(s: Seq<char>, from: int, at: int)
    requires
        0 <= from <= at < s.len(),
        forall|j: int| from <= j < at ==> #[trigger] repetition_at(s, j) is None,
        repetition_at(s, at) is Some,
    ensures
        repetition(s, from) == repetition_at(s, at),
    decreases at - from,
{
    if from < at {
        assert(repetition_at(s, from) is None);
        lemma_repetition(s, from + 1, at);
    }
}

proof fn lemma_repetition_has_its_place(s: Seq<char>, from: int) -> (at: int)
    requires
        0 <= from,
        repetition(s, from) is Some,
    ensures
        from <= at < s.len(),
        repetition_at(s, at) is Some,
    decreases s.len() - from,
{
    if repetition_at(s, from) is Some {
        from
    } else {
        lemma_repetition_has_its_place(s, from + 1)
    }
}

/// A line that starts with a bracket repeats the frame before it as often as the digits in its first
/// mark for repetitions say, whatever stands before and behind the mark. A number that does not fit
/// is none.
pub proof fn law_a_mark_for_repetitions_counts(
    before: Seq<char>,
    digits: Seq<char>,
    after: Seq<char>,
)
    requires
        before.len() > 0 ==> before[0] == '[',
        digits.len() > 0,
        forall|k: int| 0 <= k < digits.len() ==> '0' <= #[trigger] digits[k] <= '9',
        forall|j: int|
            0 <= j < before.len() ==> !#[trigger] text::occurs_at(
                before + "[Previous line repeated "@ + digits + " more times]"@ + after,
                "[Previous line repeated "@,
                j,
            ),
    ensures
        ({
            let line = before + "[Previous line repeated "@ + digits + " more times]"@ + after;
            let count = text::digits_value(digits)->0;
            &&& text::digits_value(digits) is Some
            &&& count <= 0xffff_ffff_ffff_ffff ==> repetitions(line) == Some(count)
            &&& count > 0xffff_ffff_ffff_ffff ==> repetitions(line) is None
            &&& is_repetition(line) <==> count <= 0xffff_ffff_ffff_ffff
            &&& is_endless(line) <==> isize::MAX < count <= 0xffff_ffff_ffff_ffff
        }),
{
    let head = "[Previous line repeated "@;
    let tail = " more times]"@;
    reveal_strlit("[Previous line repeated ");
    reveal_strlit(" more times]");
    reveal_strlit("[");
    let line = before + head + digits + tail + after;
    let at = before.len() as int;
    let from = at + head.len();
    let end = from + digits.len();
    assert(line[0] == '[') by {
        assert(head[0] == '[');
    }
    assert("["@ =~= line.subrange(0, 1));
    assert("["@.is_prefix_of(line));
    assert(line.subrange(at, at + head.len()) =~= head);
    assert(text::occurs_at(line, head, at));
    assert(line.subrange(end, end + tail.len()) =~= tail);
    assert(text::occurs_at(line, tail, end));
    assert(line.subrange(from, end) =~= digits);
    assert forall|k: int| from <= k < end implies is_decimal(#[trigger] line[k]) by {
        assert(line[k] == digits[k - from]);
        law_decimal_digits_of_ascii(line[k]);
    }
    assert(line[end] == ' ') by {
        assert(tail[0] == ' ');
    }
    law_decimal_digits_of_ascii(' ');
    lemma_decimals_end(line, from, end);
    assert(repetition_at(line, at) == Some(digits));
    assert forall|j: int| 0 <= j < at implies #[trigger] repetition_at(line, j) is None by {
        assert(!text::occurs_at(line, head, j));
    }
    lemma_repetition(line, 0, at);
    lemma_digits_have_a_value(digits);
    assert('0' <= digits[0] <= '9');
    text::law_a_number_is_the_value_of_its_digits(digits);
}

proof fn lemma_digits_have_a_value(digits: Seq<char>)
    requires
        forall|k: int| 0 <= k < digits.len() ==> '0' <= #[trigger] digits[k] <= '9',
    ensures
        text::digits_value(digits) is Some,
    decreases digits.len(),
{
    if digits.len() > 0 {
        let front = digits.drop_last();
        assert forall|k: int| 0 <= k < front.len() implies '0' <= #[trigger] front[k] <= '9' by {
            assert(front[k] == digits[k]);
        }
        lemma_digits_have_a_value(front);
        assert('0' <= digits[digits.len() - 1] <= '9');
    }
}

/// A line that does not start with a bracket, or that lacks the words before or behind the count,
/// repeats nothing.
pub proof fn law_a_line_without_a_mark_repeats_nothing(line: Seq<char>)
    ensures
        line.len() == 0 || line[0] != '[' ==> !is_repetition(line) && !is_endless(line),
        !text::occurs_in(line, "[Previous line repeated "@) ==> !is_repetition(line)
            && !is_endless(line),
        !text::occurs_in(line, " more times]"@) ==> !is_repetition(line) && !is_endless(line),
{
    reveal_strlit("[");
    if repetitions(line) is Some {
        assert("["@[0] == line[0]) by {
            assert(line.subrange(0, 1)[0] == line[0]);
        }
        let at = lemma_repetition_has_its_place(line, 0);
        let from = at + "[Previous line repeated "@.len();
        assert(text::occurs_at(line, "[Previous line repeated "@, at));
        assert(text::occurs_at(line, " more times]"@, decimals_end(line, from)));
    }
}

/// Only the stack trace of a Python report is beyond a limit for its repetitions: for its first line
/// if that repeats a frame, and for the first line that repeats one too often if what stands before
/// it can be parsed.
pub proof fn law_the_first_endless_line_decides(report: ReportView, i: int)
    requires
        0 <= i <= report.stacktrace.len(),
        i < report.stacktrace.len() ==> is_endless(report.stacktrace[i]),
        forall|j: int| 0 <= j < i ==> !is_endless(#[trigger] report.stacktrace[j]),
    ensures
        leads_with_repetition(report) <==> parsers::parser_of(report) == Parser::Python
            && report.stacktrace.len() > 0 && repetitions(report.stacktrace[0]) is Some,
        has_endless_repetition(report) <==> parsers::parser_of(report) == Parser::Python && i
            < report.stacktrace.len() && parsers::python_frames(report.stacktrace.take(i)) is Some,
{
    let lines = report.stacktrace;
    if some_line_is_endless(lines) {
        let k = choose|k: int| is_endless_line(lines, k);
        if k < i {
            assert(!is_endless(lines[k]));
        } else if k > i {
            assert(!is_endless(lines[i]));
        }
    }
    if i < lines.len() && parsers::python_frames(lines.take(i)) is Some {
        assert(is_endless_line(lines, i));
    }
}

proof fn lemma_last_of(s: Seq<char>, c: char, at: int)
    requires
        0 <= at < s.len(),
        s[at] == c,
        forall|j: int| at < j < s.len() ==> #[trigger] s[j] != c,
    ensures
        text::last_of(s, c) == Some(at),
{
    text::law_the_last_position_of_a_character(s, c);
    if text::last_of(s, c) is Some {
        let found = text::last_of(s, c)->0;
        if found < at {
            assert(s[at] != c);
        }
    }
}

/// The line in a location is the number behind the only colon, or between the last two colons if
/// there are more. It is zero in a location without a colon, and there is none in an empty one.
pub proof fn law_the_line_in_a_location(file: Seq<char>, line: Seq<char>, column: Seq<char>)
    requires
        !line.contains(':'),
        !column.contains(':'),
    ensures
        location_line(Seq::empty()) is None,
        file.len() > 0 && !file.contains(':') ==> location_line(file) == Some(0nat),
        !file.contains(':') ==> location_line(file + seq![':'] + line) == text::number(line),
        text::number(column) is Some ==> location_line(
            file + seq![':'] + line + seq![':'] + column,
        ) == text::number(line),
        text::number(column) is None ==> location_line(
            file + seq![':'] + line + seq![':'] + column,
        ) is None,
{
    let n = file.len() as int;
    text::law_the_last_position_of_a_character(file, ':');
    let short = file + seq![':'] + line;
    assert forall|j: int| n < j < short.len() implies #[trigger] short[j] != ':' by {
        assert(short[j] == line[j - n - 1]);
    }
    assert(short[n] == ':');
    lemma_last_of(short, ':', n);
    assert(short.skip(n + 1) =~= line);
    assert(short.take(n) =~= file);
    if !file.contains(':') {
        if text::last_of(file, ':') is Some {
            assert(file.contains(file[text::last_of(file, ':')->0]));
        }
    }
    let m = short.len() as int;
    let long = file + seq![':'] + line + seq![':'] + column;
    assert forall|j: int| m < j < long.len() implies #[trigger] long[j] != ':' by {
        assert(long[j] == column[j - m - 1]);
    }
    assert(long[m] == ':');
    lemma_last_of(long, ':', m);
    assert(long.skip(m + 1) =~= column);
    assert(long.take(m) =~= short);
}

/// The location of a call of `eval` opens behind a space and a bracket. Behind an alias it opens
/// behind the first square bracket that a space and a bracket follow.
pub proof fn law_where_a_location_opens(call: Seq<char>, at: int, end: int)
    requires
        0 <= at,
        at + 4 <= end,
    ensures
        text::occurs_at(call, " ("@, at) ==> location_start(call, at) == Some(at + 2),
        text::occurs_at(call, " [as"@, at) && text::occurs_at(
            call,
            "] ("@,
            end,
        ) && (forall|j: int|
            at + 4 <= j < end ==> !#[trigger] text::occurs_at(call, "] ("@, j))
            ==> location_start(call, at) == Some(end + 3),
        !text::occurs_at(call, " ("@, at) && !text::occurs_at(
            call,
            " [as"@,
            at,
        ) ==> location_start(call, at) is None,
{
    reveal_strlit(" (");
    reveal_strlit(" [as");
    reveal_strlit("] (");
    let plain = " ("@;
    let alias = " [as"@;
    let close = "] ("@;
    if text::occurs_at(call, plain, at) {
        text::law_a_pattern_occurs_character_by_character(call, plain, at);
        assert(plain[1] == '(');
        assert(call[at + 1] == '(');
        text::law_a_pattern_occurs_character_by_character(call, alias, at);
        assert(alias[1] == '[');
    }
    text::law_a_search_finds_the_first_occurrence(call, close, at + 4);
    if text::occurs_at(call, alias, at) && text::occurs_at(call, close, end) && (forall|j: int|
        at + 4 <= j < end ==> !#[trigger] text::occurs_at(call, close, j)) {
        let found = text::find_from(call, close, at + 4);
        if found is Some && found->0 > end {
            assert(!text::occurs_at(call, close, end));
        }
        text::law_a_pattern_occurs_character_by_character(call, plain, at);
        text::law_a_pattern_occurs_character_by_character(call, alias, at);
        assert(alias[1] == '[' && plain[1] == '(');
        assert(call[at + 1] == '[');
    }
}

proof fn lemma_function_call(call: Seq<char>, from: int, at: int)
    requires
        0 <= from <= at,
        forall|j: int| from <= j < at ==> #[trigger] location_start(call, j) is None,
    ensures
        at < call.len() ==> function_call(call, from) == function_call(call, at),
        at >= call.len() ==> function_call(call, from) is None,
    decreases at - from,
{
    if from < at {
        assert(location_start(call, from) is None);
        if from < call.len() {
            lemma_function_call(call, from + 1, at);
        }
    }
}

/// The two locations in a call of `eval` from a function: the first goes from the first place where a
/// location opens up to the bracket that closes it, and the other from behind the comma to the end. A
/// first location with brackets in it counts for nothing.
pub proof fn law_the_locations_of_a_call_from_a_function(
    call: Seq<char>,
    at: int,
    start: int,
    end: int,
)
    requires
        1 <= at < call.len(),
        forall|j: int| 1 <= j < at ==> #[trigger] location_start(call, j) is None,
        location_start(call, at) == Some(start),
        0 <= start <= end,
        text::occurs_at(call, "), "@, end),
        forall|j: int|
            start <= j < end ==> !#[trigger] text::occurs_at(call, "), "@, j),
    ensures
        ({
            let location = call.subrange(start, end);
            let brackets = location.contains('(') || location.contains(')');
            &&& !brackets ==> eval_locations(call) == Some((location, call.skip(end + 3)))
            &&& brackets ==> eval_locations(call) is None
        }),
{
    reveal_strlit("), ");
    lemma_function_call(call, 1, at);
    text::law_a_search_finds_the_first_occurrence(call, "), "@, start);
    let found = text::find_from(call, "), "@, start);
    if found is Some && found->0 > end {
        assert(!text::occurs_at(call, "), "@, end));
    }
    assert(found == Some(end));
}

/// The two locations in a call of `eval` in which none opens: what stands before the first comma with
/// a space, and what stands behind it.
pub proof fn law_the_locations_of_a_call_from_no_function(outer: Seq<char>, inner: Seq<char>)
    requires
        outer.len() > 0,
        forall|j: int|
            1 <= j ==> #[trigger] location_start(outer + ", "@ + inner, j) is None,
        forall|j: int|
            1 <= j < outer.len() ==> !#[trigger] text::occurs_at(
                outer + ", "@ + inner,
                ", "@,
                j,
            ),
    ensures
        eval_locations(outer + ", "@ + inner) == Some((outer, inner)),
{
    reveal_strlit(", ");
    let comma = ", "@;
    let call = outer + comma + inner;
    let n = outer.len() as int;
    lemma_function_call(call, 1, call.len() as int);
    assert(call.subrange(n, n + 2) =~= comma);
    assert(text::occurs_at(call, comma, n));
    text::law_a_search_finds_the_first_occurrence(call, comma, 1);
    let found = text::find_from(call, comma, 1);
    if found is Some && found->0 > n {
        assert(!text::occurs_at(call, comma, n));
    }
    assert(found == Some(n));
    assert(call.take(n) =~= outer);
    assert(call.skip(n + 2) =~= inner);
}

/// A line on a call of `eval` asks for a sum that does not fit if and only if the line inside the
/// call counts, from three on, and with the line of the call makes more than 64 bits hold.
pub proof fn law_a_sum_of_lines_overflows(call: Seq<char>)
    requires
        !call.contains('\n'),
        !text::occurs_in("at eval (eval at "@ + call + seq![')'], "unknown location"@),
    ensures
        ({
            let line = "at eval (eval at "@ + call + seq![')'];
            match eval_locations(call) {
                None => !eval_overflows(line),
                Some((outside, inside)) => match (location_line(outside), location_line(inside)) {
                    (Some(outer), Some(inner)) => eval_overflows(line) <==> inner >= 3 && outer
                        + inner - 3 > 0xffff_ffff_ffff_ffff,
                    _ => !eval_overflows(line),
                },
            }
        }),
{
    let head = "at eval (eval at "@;
    reveal_strlit("at eval (eval at ");
    let line = head + call + seq![')'];
    assert(head =~= line.subrange(0, head.len() as int));
    assert(head.is_prefix_of(line));
    assert(line.last() == ')');
    assert(!line.contains('\n')) by {
        if line.contains('\n') {
            let k = choose|k: int| 0 <= k < line.len() && line[k] == '\n';
            if k < head.len() {
                assert(head[k] == '\n');
            } else if k < head.len() + call.len() {
                assert(call[k - head.len()] == '\n');
            }
        }
    }
    assert(line.subrange(head.len() as int, line.len() - 1) =~= call);
}

/// A line that does not start as one on a call of `eval`, or has no closing bracket at its end, or a
/// newline in it, or that says that the location is not known, asks for no sum.
pub proof fn law_other_lines_ask_for_no_sum(line: Seq<char>)
    ensures
        !"at eval (eval at "@.is_prefix_of(line) ==> !eval_overflows(line),
        line.len() == 0 || line[line.len() - 1] != ')' ==> !eval_overflows(line),
        line.contains('\n') ==> !eval_overflows(line),
        text::occurs_in(line, "unknown location"@) ==> !eval_overflows(line),
{
    reveal_strlit("at eval (eval at ");
}

/// Only the stack trace of a JavaScript report is beyond the limit for its sums: for the first line
/// that asks for one that does not fit, if what stands before it can be parsed.
pub proof fn law_the_first_sum_that_does_not_fit_decides(report: ReportView, i: int)
    requires
        0 <= i <= report.stacktrace.len(),
        i < report.stacktrace.len() ==> eval_overflows(report.stacktrace[i]),
        forall|j: int| 0 <= j < i ==> !eval_overflows(#[trigger] report.stacktrace[j]),
    ensures
        has_overflowing_eval(report) <==> parsers::parser_of(report) == Parser::Js && i
            < report.stacktrace.len() && parsers::js_frames(report.stacktrace.take(i)) is Some,
{
    let lines = report.stacktrace;
    if some_eval_overflows(lines) {
        let k = choose|k: int| is_overflowing_eval(lines, k);
        if k < i {
            assert(!eval_overflows(lines[k]));
        } else if k > i {
            assert(!eval_overflows(lines[i]));
        }
    }
    if i < lines.len() && parsers::js_frames(lines.take(i)) is Some {
        assert(is_overflowing_eval(lines, i));
    }
}

/// The offset of a frame does not fit if and only if, in the first mapping around its address, it is
/// more than 64 bits hold.
pub proof fn law_an_offset_overflows_in_its_mapping(
    mappings: Seq<MappingView>,
    frame: FrameView,
    i: int,
)
    requires
        0 <= i <= mappings.len(),
        i < mappings.len() ==> mappings[i].start <= frame.address < mappings[i].end,
        forall|j: int|
            0 <= j < i ==> frame.address < (#[trigger] mappings[j]).start || mappings[j].end
                <= frame.address,
    ensures
        i < mappings.len() ==> (offset_overflows(mappings, frame) <==> frame.address
            - mappings[i].start + mappings[i].offset > 0xffff_ffff_ffff_ffff),
        i == mappings.len() ==> !offset_overflows(mappings, frame),
{
    parsers::law_the_first_mapping_around_an_address_counts(mappings, frame.address, i);
}

/// One frame of a stack trace whose offset does not fit is enough, wherever it stands. A report
/// without lines on mapped files, or of which the trace or these lines cannot be parsed, has none.
pub proof fn law_one_offset_that_does_not_fit_is_enough(report: ReportView, i: int)
    ensures
        report.proc_maps.len() == 0 || parsers::raw_frames(report) is None
            || parsers::mapped_files(text::joined(report.proc_maps)) is None
            ==> !has_overflowing_offset(report),
        ({
            let frames = parsers::raw_frames(report)->0;
            let mappings = parsers::mapped_files(text::joined(report.proc_maps))->0;
            report.proc_maps.len() > 0 && parsers::raw_frames(report) is Some
                && parsers::mapped_files(text::joined(report.proc_maps)) is Some ==> {
                &&& 0 <= i < frames.len() && offset_overflows(mappings, frames[i])
                    ==> has_overflowing_offset(report)
                &&& (forall|k: int|
                    0 <= k < frames.len() ==> !offset_overflows(mappings, #[trigger] frames[k]))
                    ==> !has_overflowing_offset(report)
            }
        }),
{
}

} // verus!
