//! Parsing of the tagged message stream that TLC prints when run as a tool.
//!
//! A line that begins with `@!@!@STARTMSG ` and then holds `<code>:<class>`
//! opens a message; a line that begins with `@!@!@ENDMSG ` and then holds
//! the same code closes it. The lines in between are the message's body.

use vstd::prelude::*;
use crate::checker::ModelCheckerRuntime;
use crate::error::Error;
use crate::text::{
    chars_of, decimal, find_char, find_char_from, flatten, has_prefix, join, lines_of,
    lemma_join_holds_parts, lemma_join_push, lemma_occurs_extend, occurs_in, parse_number, push_all, push_decimal, push_flattened, push_str,
    read_number, slice_of, split_lines, string_of, texts,
};
use crate::trace::Trace;

verus! {

/// The class of the messages that are not part of any tagged message.
pub const PLAIN_CLASS: u8 = 0;

/// The code of the messages that are not part of any tagged message.
pub const PLAIN_CODE: usize = 0;

/// The class of error messages.
pub const ERROR_CLASS: u8 = 1;

/// The class of state messages.
pub const STATE_CLASS: u8 = 4;

/// The code of the messages that print one state of a trace.
pub const STATE_CODE: usize = 2217;

/// What a line that opens a message begins with.
pub open spec fn start_tag() -> Seq<char> {
    "@!@!@STARTMSG "@
}

/// What a line that closes a message begins with.
pub open spec fn end_tag() -> Seq<char> {
    "@!@!@ENDMSG "@
}

/// One message of the stream.
#[derive(Debug, Clone, PartialEq, Eq)]
pub struct Message {
    /// The message's class.
    pub class: u8,
    /// The message's code.
    pub code: usize,
    /// The lines between the message's opening and closing line, each
    /// followed by a line feed.
    pub body: String,
}

/// What a [`Message`] holds, as mathematical values.
pub struct MessageText {
    pub class: u8,
    pub code: usize,
    pub body: Seq<char>,
}

impl View for Message {
    type V = MessageText;

    open spec fn view(&self) -> MessageText {
        MessageText { class: self.class, code: self.code, body: self.body@ }
    }
}

/// What a vector of messages holds.
pub open spec fn message_texts(v: Seq<Message>) -> Seq<MessageText> {
    v.map_values(|m: Message| m@)
}

/// The field that follows `tag` in `line`: what stands between the tag and
/// the next space, or the end of the line.
pub open spec fn header_field(line: Seq<char>, tag: Seq<char>) -> Seq<char> {
    let rest = line.skip(tag.len() as int);
    rest.take(find_char(rest, ' ') as int)
}

/// The code and the class that a line opening a message names, if its
/// header field is `<code>:<class>` with both in range.
pub open spec fn start_header(line: Seq<char>) -> Option<(usize, u8)> {
    let field = header_field(line, start_tag());
    let k = find_char(field, ':') as int;
    if k >= field.len() {
        None
    } else {
        match (
            parse_number(field.take(k), usize::MAX as nat),
            parse_number(field.skip(k + 1), u8::MAX as nat),
        ) {
            (Some(code), Some(class)) => Some((code as usize, class as u8)),
            _ => None,
        }
    }
}

/// The code that a line closing a message names, if its header field is a
/// number in range.
pub open spec fn end_header(line: Seq<char>) -> Option<usize> {
    match parse_number(header_field(line, end_tag()), usize::MAX as nat) {
        Some(code) => Some(code as usize),
        None => None,
    }
}

/// The state of the scanner between two lines.
pub struct Scan {
    /// The code and class of the message that is open, if one is.
    pub open: Option<(usize, u8)>,
    /// The lines read since the last opening or closing line.
    pub pending: Seq<char>,
    /// The messages closed so far, oldest first.
    pub done: Seq<MessageText>,
}

/// The scanner's state before the first line.
pub open spec fn scan_start() -> Scan {
    Scan { open: None, pending: Seq::empty(), done: Seq::empty() }
}

/// The scanner's state after one more line, or `None` where the line breaks
/// the protocol: an opening line inside a message or with a malformed
/// header, a closing line outside a message, with a malformed header or with
/// another code than the message was opened with.
///
/// The text before an opening line is recorded as a message of class
/// [`PLAIN_CLASS`] and code [`PLAIN_CODE`].
pub open spec fn scan_line(st: Scan, line: Seq<char>) -> Option<Scan> {
    if start_tag().is_prefix_of(line) {
        match (st.open, start_header(line)) {
            (None, Some(id)) => Some(
                Scan {
                    open: Some(id),
                    pending: Seq::empty(),
                    done: st.done.push(
                        MessageText { class: PLAIN_CLASS, code: PLAIN_CODE, body: st.pending },
                    ),
                },
            ),
            _ => None,
        }
    } else if end_tag().is_prefix_of(line) {
        match (st.open, end_header(line)) {
            (Some(id), Some(code)) => if code == id.0 {
                Some(
                    Scan {
                        open: None,
                        pending: Seq::empty(),
                        done: st.done.push(
                            MessageText { class: id.1, code: id.0, body: st.pending },
                        ),
                    },
                )
            } else {
                None
            },
            _ => None,
        }
    } else {
        Some(Scan { pending: st.pending + line + seq!['\n'], ..st })
    }
}

/// The scanner's state after `lines`, read in order from state `st`.
pub open spec fn scan_lines(st: Scan, lines: Seq<Seq<char>>) -> Option<Scan>
    decreases lines.len(),
{
    if lines.len() == 0 {
        Some(st)
    } else {
        match scan_line(st, lines[0]) {
            Some(next) => scan_lines(next, lines.skip(1)),
            None => None,
        }
    }
}

/// The messages of a whole output, in the order in which they were closed,
/// or `None` where the output breaks the protocol or ends inside a message.
pub open spec fn message_stream(output: Seq<char>) -> Option<Seq<MessageText>> {
    match scan_lines(scan_start(), lines_of(output)) {
        Some(st) => if st.open is None {
            Some(st.done)
        } else {
            None
        },
        None => None,
    }
}

/// The messages of one model checker run.
#[derive(Debug, Clone, PartialEq, Eq)]
pub struct ParsedMessageStream {
    /// The messages, in the order in which they were closed.
    pub messages: Vec<Message>,
}

impl View for ParsedMessageStream {
    type V = Seq<MessageText>;

    open spec fn view(&self) -> Seq<MessageText> {
        message_texts(self.messages@)
    }
}

/// Reads the header field of `line` behind a tag of `tag_len` characters.
fn read_header_field(line: &Vec<char>, tag: &Vec<char>) -> (field: Vec<char>)
    requires
        tag@.is_prefix_of(line@),
    ensures
        field@ == header_field(line@, tag@),
{
    let k = find_char_from(line, tag.len(), ' ');
    let field = slice_of(line, tag.len(), tag.len() + k);
    assert(field@ == header_field(line@, tag@));
    field
}

/// Reads the header of a line that opens a message.
fn read_start_header(line: &Vec<char>, tag: &Vec<char>) -> (id: Option<(usize, u8)>)
    requires
        tag@ == start_tag(),
        tag@.is_prefix_of(line@),
    ensures
        id == start_header(line@),
{
    let field = read_header_field(line, tag);
    assert(field@.skip(0) == field@);
    let k = find_char_from(&field, 0, ':');
    if k >= field.len() {
        return None;
    }
    assert(field@.subrange(0, k as int) == field@.take(k as int));
    assert(field@.subrange(k + 1, field@.len() as int) == field@.skip(k + 1));
    let code = read_number(&field, 0, k, usize::MAX);
    let class = read_number(&field, k + 1, field.len(), 255);
    match (code, class) {
        (Some(code), Some(class)) => Some((code, class as u8)),
        _ => None,
    }
}

/// Reads the header of a line that closes a message.
fn read_end_header(line: &Vec<char>, tag: &Vec<char>) -> (code: Option<usize>)
    requires
        tag@ == end_tag(),
        tag@.is_prefix_of(line@),
    ensures
        code == end_header(line@),
{
    let field = read_header_field(line, tag);
    assert(field@.subrange(0, field@.len() as int) == field@);
    read_number(&field, 0, field.len(), usize::MAX)
}

/// Appends `line` and a line feed to `pending`.
fn push_line(pending: &mut Vec<char>, line: &Vec<char>)
    ensures
        final(pending)@ == old(pending)@ + line@ + seq!['\n'],
{
    let mut i: usize = 0;
    while i < line.len()
        invariant
            i <= line.len(),
            pending@ == old(pending)@ + line@.take(i as int),
        decreases line.len() - i,
    {
        pending.push(line[i]);
        assert(line@.take(i + 1) == line@.take(i as int).push(line@[i as int]));
        i += 1;
    }
    assert(line@.take(line@.len() as int) == line@);
    pending.push('\n');
}

/// Groups the lines of a model checker's output into messages.
///
/// Returns `None` exactly where the output breaks the protocol or ends
/// inside a message.
pub fn parse_stream(output: &str) -> (out: Option<ParsedMessageStream>)
    ensures
        match message_stream(output@) {
            Some(messages) => out is Some && out->0@ == messages,
            None => out is None,
        },
{
    let text = chars_of(output);
    let lines = split_lines(&text);
    let start = chars_of("@!@!@STARTMSG ");
    let end = chars_of("@!@!@ENDMSG ");
    let mut open: Option<(usize, u8)> = None;
    let mut pending: Vec<char> = Vec::new();
    let mut done: Vec<Message> = Vec::new();
    let mut i: usize = 0;
    proof {
        assert(texts(lines@).skip(0) == texts(lines@));
        assert(message_texts(done@) =~= Seq::<MessageText>::empty());
    }
    while i < lines.len()
        invariant
            i <= lines.len(),
            start@ == start_tag(),
            end@ == end_tag(),
            texts(lines@) == lines_of(output@),
            scan_lines(scan_start(), lines_of(output@)) == scan_lines(
                Scan { open, pending: pending@, done: message_texts(done@) },
                texts(lines@).skip(i as int),
            ),
        decreases lines.len() - i,
    {
        let line = &lines[i];
        let ghost st = Scan { open, pending: pending@, done: message_texts(done@) };
        let ghost rest = texts(lines@).skip(i as int);
        proof {
            assert(rest[0] == line@);
            assert(rest.skip(1) == texts(lines@).skip(i + 1));
        }
        if has_prefix(line, &start) {
            let header = read_start_header(line, &start);
            match (open, header) {
                (None, Some(id)) => {
                    let body = string_of(&pending, 0, pending.len());
                    assert(body@ == pending@);
                    done.push(Message { class: PLAIN_CLASS, code: PLAIN_CODE, body });
                    open = Some(id);
                    pending = Vec::new();
                    assert(message_texts(done@) =~= st.done.push(
                        MessageText { class: PLAIN_CLASS, code: PLAIN_CODE, body: st.pending },
                    ));
                },
                _ => {
                    assert(scan_line(st, line@) is None);
                    return None;
                },
            }
        } else if has_prefix(line, &end) {
            let header = read_end_header(line, &end);
            match (open, header) {
                (Some(id), Some(code)) => {
                    if code != id.0 {
                        assert(scan_line(st, line@) is None);
                        return None;
                    }
                    let body = string_of(&pending, 0, pending.len());
                    assert(body@ == pending@);
                    done.push(Message { class: id.1, code: id.0, body });
                    open = None;
                    pending = Vec::new();
                    assert(message_texts(done@) =~= st.done.push(
                        MessageText { class: id.1, code: id.0, body: st.pending },
                    ));
                },
                _ => {
                    assert(scan_line(st, line@) is None);
                    return None;
                },
            }
        } else {
            push_line(&mut pending, line);
        }
        i += 1;
    }
    if open.is_some() {
        return None;
    }
    Some(ParsedMessageStream { messages: done })
}


/// What the first line of a state message begins with when the state is the
/// first of a trace.
pub open spec fn initial_mark() -> Seq<char> {
    "1: <Initial predicate>"@
}

/// The bodies of the messages of `class` and `code`, in order.
pub open spec fn bodies_of(ms: Seq<MessageText>, class: u8, code: usize) -> Seq<Seq<char>>
    decreases ms.len(),
{
    if ms.len() == 0 {
        Seq::empty()
    } else {
        let before = bodies_of(ms.drop_last(), class, code);
        if ms.last().class == class && ms.last().code == code {
            before.push(ms.last().body)
        } else {
            before
        }
    }
}

/// The codes of the messages of `class`, each once, in the order in which
/// they first occur.
pub open spec fn codes_of(ms: Seq<MessageText>, class: u8) -> Seq<usize>
    decreases ms.len(),
{
    if ms.len() == 0 {
        Seq::empty()
    } else {
        let before = codes_of(ms.drop_last(), class);
        if ms.last().class == class && !before.contains(ms.last().code) {
            before.push(ms.last().code)
        } else {
            before
        }
    }
}

/// Whether `ms` holds a message of `class`.
pub open spec fn has_class(ms: Seq<MessageText>, class: u8) -> bool {
    exists|i: int| 0 <= i < ms.len() && (#[trigger] ms[i]).class == class
}

/// A body without its first line: what follows the first line feed, and
/// nothing where the body holds no line feed.
pub open spec fn after_first_line(body: Seq<char>) -> Seq<char> {
    let k = find_char(body, '\n') as int;
    if k < body.len() {
        body.skip(k + 1)
    } else {
        Seq::empty()
    }
}

/// The traces that a sequence of state bodies makes. A body that begins with
/// [`initial_mark`] starts a trace; every body, without its first line, is a
/// state of the trace started last; the bodies before the first trace belong
/// to none.
pub open spec fn traces_of(bodies: Seq<Seq<char>>) -> Seq<Seq<Seq<char>>>
    decreases bodies.len(),
{
    if bodies.len() == 0 {
        Seq::empty()
    } else {
        let before = traces_of(bodies.drop_last());
        let state = after_first_line(bodies.last());
        if initial_mark().is_prefix_of(bodies.last()) {
            before.push(seq![state])
        } else if before.len() == 0 {
            before
        } else {
            before.update(before.len() - 1, before.last().push(state))
        }
    }
}

/// The line that reports the error messages of `code`.
pub open spec fn failure_line(ms: Seq<MessageText>, log: Seq<char>, code: usize) -> Seq<char> {
    "["@ + log + ":"@ + decimal(code as nat) + "]: "@ + join(
        bodies_of(ms, ERROR_CLASS, code).map_values(|b: Seq<char>| flatten(b)),
        " "@,
    )
}

/// The report of all error messages: one line for each code.
pub open spec fn failure_message(ms: Seq<MessageText>, log: Seq<char>) -> Seq<char> {
    join(codes_of(ms, ERROR_CLASS).map_values(|c: usize| failure_line(ms, log, c)), "\n"@)
}

/// What a stream of messages says of the run: the traces found, or the
/// report of the checker's own errors.
pub open spec fn extraction(ms: Seq<MessageText>, log: Seq<char>) -> Result<
    Seq<Seq<Seq<char>>>,
    Seq<char>,
> {
    if bodies_of(ms, STATE_CLASS, STATE_CODE).len() > 0 {
        Ok(traces_of(bodies_of(ms, STATE_CLASS, STATE_CODE)))
    } else if has_class(ms, ERROR_CLASS) {
        Err(failure_message(ms, log))
    } else {
        Ok(Seq::empty())
    }
}

/// What a vector of traces holds.
pub open spec fn trace_texts(v: Seq<Trace>) -> Seq<Seq<Seq<char>>> {
    v.map_values(|t: Trace| t@)
}

/// Whether `out` is what [`extraction`] asks for.
pub open spec fn is_extraction(
    out: Result<Vec<Trace>, Error>,
    expected: Result<Seq<Seq<Seq<char>>>, Seq<char>>,
) -> bool {
    match expected {
        Ok(traces) => out matches Ok(v) && trace_texts(v@) == traces,
        Err(message) => out matches Err(Error::TLCFailure(m)) && m@ == message,
    }
}

/// The traces among the messages.
fn collect_traces(messages: &Vec<Message>) -> (out: (Vec<Trace>, bool))
    ensures
        trace_texts(out.0@) == traces_of(bodies_of(message_texts(messages@), STATE_CLASS, STATE_CODE)),
        out.1 == (bodies_of(message_texts(messages@), STATE_CLASS, STATE_CODE).len() > 0),
{
    let ghost ms = message_texts(messages@);
    let mark = chars_of("1: <Initial predicate>");
    let mut traces: Vec<Trace> = Vec::new();
    let mut seen = false;
    let mut i: usize = 0;
    proof {
        assert(trace_texts(traces@) =~= Seq::<Seq<Seq<char>>>::empty());
    }
    while i < messages.len()
        invariant
            i <= messages.len(),
            ms == message_texts(messages@),
            mark@ == initial_mark(),
            trace_texts(traces@) == traces_of(bodies_of(ms.take(i as int), STATE_CLASS, STATE_CODE)),
            seen == (bodies_of(ms.take(i as int), STATE_CLASS, STATE_CODE).len() > 0),
        decreases messages.len() - i,
    {
        let m = &messages[i];
        let ghost before_bodies = bodies_of(ms.take(i as int), STATE_CLASS, STATE_CODE);
        let ghost before = trace_texts(traces@);
        proof {
            assert(ms.take(i + 1).drop_last() == ms.take(i as int));
            assert(ms.take(i + 1).last() == m@);
        }
        if m.class == STATE_CLASS && m.code == STATE_CODE {
            let body = chars_of(m.body.as_str());
            let k = find_char_from(&body, 0, '\n');
            let from = if k < body.len() {
                k + 1
            } else {
                k
            };
            let state = string_of(&body, from, body.len());
            proof {
                assert(body@.skip(0) == body@);
                assert(state@ == after_first_line(body@));
                let bodies = before_bodies.push(body@);
                assert(bodies.drop_last() == before_bodies);
                assert(bodies.last() == body@);
            }
            seen = true;
            if has_prefix(&body, &mark) {
                let mut t = Trace::new();
                t.add(state);
                assert(t@ == seq![state@]);
                traces.push(t);
                assert(trace_texts(traces@) =~= before.push(seq![state@]));
            } else if traces.len() > 0 {
                let last = traces.pop();
                let mut t = last.unwrap();
                let ghost old_t = t@;
                t.add(state);
                traces.push(t);
                assert(trace_texts(traces@) =~= before.update(
                    before.len() - 1,
                    old_t.push(state@),
                ));
            }
        }
        i += 1;
    }
    assert(ms.take(messages@.len() as int) == ms);
    (traces, seen)
}


/// Whether `v` holds `x`.
fn holds(v: &Vec<usize>, x: usize) -> (b: bool)
    ensures
        b == v@.contains(x),
{
    let mut i: usize = 0;
    while i < v.len()
        invariant
            i <= v.len(),
            forall|j: int| 0 <= j < i ==> v@[j] != x,
        decreases v.len() - i,
    {
        if v[i] == x {
            return true;
        }
        i += 1;
    }
    false
}

/// The codes of the error messages, each once, in order of first occurrence.
fn error_codes(messages: &Vec<Message>) -> (out: Vec<usize>)
    ensures
        out@ == codes_of(message_texts(messages@), ERROR_CLASS),
{
    let ghost ms = message_texts(messages@);
    let mut out: Vec<usize> = Vec::new();
    let mut i: usize = 0;
    while i < messages.len()
        invariant
            i <= messages.len(),
            ms == message_texts(messages@),
            out@ == codes_of(ms.take(i as int), ERROR_CLASS),
        decreases messages.len() - i,
    {
        proof {
            assert(ms.take(i + 1).drop_last() == ms.take(i as int));
            assert(ms.take(i + 1).last() == messages@[i as int]@);
        }
        if messages[i].class == ERROR_CLASS && !holds(&out, messages[i].code) {
            out.push(messages[i].code);
        }
        i += 1;
    }
    assert(ms.take(messages@.len() as int) == ms);
    out
}

/// The line that reports the error messages of `code`.
fn build_failure_line(messages: &Vec<Message>, log: &str, code: usize) -> (line: Vec<char>)
    ensures
        line@ == failure_line(message_texts(messages@), log@, code),
{
    let ghost ms = message_texts(messages@);
    let mut line: Vec<char> = Vec::new();
    push_str(&mut line, "[");
    push_str(&mut line, log);
    push_str(&mut line, ":");
    push_decimal(&mut line, code as u128);
    push_str(&mut line, "]: ");
    let ghost head = line@;
    assert(head =~= "["@ + log@ + ":"@ + decimal(code as nat) + "]: "@);
    let ghost one_line = |b: Seq<char>| flatten(b);
    let mut first = true;
    let mut i: usize = 0;
    proof {
        assert(bodies_of(ms.take(0), ERROR_CLASS, code).map_values(one_line) =~= Seq::<
            Seq<char>,
        >::empty());
    }
    while i < messages.len()
        invariant
            i <= messages.len(),
            ms == message_texts(messages@),
            one_line == |b: Seq<char>| flatten(b),
            first == (bodies_of(ms.take(i as int), ERROR_CLASS, code).len() == 0),
            line@ == head + join(
                bodies_of(ms.take(i as int), ERROR_CLASS, code).map_values(one_line),
                " "@,
            ),
        decreases messages.len() - i,
    {
        let m = &messages[i];
        let ghost parts = bodies_of(ms.take(i as int), ERROR_CLASS, code).map_values(one_line);
        proof {
            assert(ms.take(i + 1).drop_last() == ms.take(i as int));
            assert(ms.take(i + 1).last() == m@);
        }
        if m.class == ERROR_CLASS && m.code == code {
            let body = chars_of(m.body.as_str());
            if !first {
                push_str(&mut line, " ");
            }
            push_flattened(&mut line, &body);
            first = false;
            proof {
                lemma_join_push(parts, flatten(body@), " "@);
                assert(bodies_of(ms.take(i + 1), ERROR_CLASS, code).map_values(one_line)
                    =~= parts.push(flatten(body@)));
                assert(line@ =~= head + join(parts.push(flatten(body@)), " "@));
            }
        }
        i += 1;
    }
    assert(ms.take(messages@.len() as int) == ms);
    line
}

/// The report of all error messages.
fn build_failure_message(messages: &Vec<Message>, log: &str) -> (out: String)
    ensures
        out@ == failure_message(message_texts(messages@), log@),
{
    let ghost ms = message_texts(messages@);
    let codes = error_codes(messages);
    let ghost line_of = |c: usize| failure_line(ms, log@, c);
    let mut message: Vec<char> = Vec::new();
    let mut i: usize = 0;
    proof {
        assert(codes@.take(0).map_values(line_of) =~= Seq::<Seq<char>>::empty());
    }
    while i < codes.len()
        invariant
            i <= codes.len(),
            ms == message_texts(messages@),
            line_of == |c: usize| failure_line(ms, log@, c),
            message@ == join(codes@.take(i as int).map_values(line_of), "\n"@),
        decreases codes.len() - i,
    {
        let line = build_failure_line(messages, log, codes[i]);
        let ghost parts = codes@.take(i as int).map_values(line_of);
        if i > 0 {
            push_str(&mut message, "\n");
        }
        push_all(&mut message, &line);
        proof {
            lemma_join_push(parts, line@, "\n"@);
            assert(codes@.take(i + 1).map_values(line_of) =~= parts.push(line@));
        }
        i += 1;
    }
    assert(codes@.take(codes@.len() as int) == codes@);
    string_of(&message, 0, message.len())
}

/// Whether a message of `class` is among `messages`.
fn any_of_class(messages: &Vec<Message>, class: u8) -> (b: bool)
    ensures
        b == has_class(message_texts(messages@), class),
{
    let ghost ms = message_texts(messages@);
    let mut i: usize = 0;
    while i < messages.len()
        invariant
            i <= messages.len(),
            ms == message_texts(messages@),
            forall|j: int| 0 <= j < i ==> (#[trigger] ms[j]).class != class,
        decreases messages.len() - i,
    {
        if messages[i].class == class {
            assert(ms[i as int].class == class);
            return true;
        }
        i += 1;
    }
    false
}

/// Reads the result of a run off its messages.
///
/// Where there are state messages, the traces that they make are returned,
/// whatever else the stream holds. Otherwise, where there are error messages,
/// the result is [`Error::TLCFailure`] with a report of all of them.
/// Otherwise the run found no violation, and there is no trace.
pub fn extract_traces(stream: &ParsedMessageStream, runtime: &ModelCheckerRuntime) -> (out: Result<
    Vec<Trace>,
    Error,
>)
    ensures
        is_extraction(out, extraction(stream@, runtime.log@)),
{
    let (traces, seen) = collect_traces(&stream.messages);
    if seen {
        Ok(traces)
    } else if any_of_class(&stream.messages, ERROR_CLASS) {
        Err(Error::TLCFailure(build_failure_message(&stream.messages, runtime.log.as_str())))
    } else {
        Ok(traces)
    }
}

/// Parses all traces from the output that TLC printed in tool mode.
///
/// An output that breaks the message protocol gives
/// [`Error::InvalidTLCOutput`] with the path of the log; any other output
/// gives what [`extract_traces`] reads off its messages.
pub fn parse_traces(output: &str, runtime: &ModelCheckerRuntime) -> (out: Result<Vec<Trace>, Error>)
    ensures
        match message_stream(output@) {
            Some(ms) => is_extraction(out, extraction(ms, runtime.log@)),
            None => out matches Err(Error::InvalidTLCOutput(log)) && log@ == runtime.log@,
        },
{
    match parse_stream(output) {
        Some(stream) => extract_traces(&stream, runtime),
        None => Err(Error::InvalidTLCOutput(runtime.log.clone())),
    }
}


/// Whether a state body starts a trace.
pub open spec fn starts_trace(body: Seq<char>) -> bool {
    initial_mark().is_prefix_of(body)
}

/// The states that a sequence of state bodies holds, one for each body.
pub open spec fn states_of(bodies: Seq<Seq<char>>) -> Seq<Seq<char>> {
    bodies.map_values(|b: Seq<char>| after_first_line(b))
}

/// A body that starts a trace parts the bodies before it from those that
/// follow: the traces of the whole are the traces of what comes before,
/// then the traces of the rest.
pub proof fn lemma_traces_split(before: Seq<Seq<char>>, rest: Seq<Seq<char>>)
    requires
        rest.len() > 0,
        starts_trace(rest[0]),
    ensures
        traces_of(before + rest) == traces_of(before) + traces_of(rest),
        traces_of(rest).len() > 0,
    decreases rest.len(),
{
    let all = before + rest;
    assert(all.last() == rest.last());
    if rest.len() == 1 {
        assert(all.drop_last() == before);
        assert(rest.drop_last() == Seq::<Seq<char>>::empty());
        assert(traces_of(all) =~= traces_of(before) + traces_of(rest));
    } else {
        let shorter = rest.drop_last();
        assert(all.drop_last() == before + shorter);
        assert(shorter[0] == rest[0]);
        lemma_traces_split(before, shorter);
        assert(traces_of(all) =~= traces_of(before) + traces_of(rest));
    }
}

/// Bodies of which the first, and no other, starts a trace make one trace,
/// with one state for each body.
pub proof fn lemma_one_trace(bodies: Seq<Seq<char>>)
    requires
        bodies.len() > 0,
        starts_trace(bodies[0]),
        forall|i: int| 1 <= i < bodies.len() ==> !starts_trace(#[trigger] bodies[i]),
    ensures
        traces_of(bodies) == seq![states_of(bodies)],
    decreases bodies.len(),
{
    let shorter = bodies.drop_last();
    if bodies.len() == 1 {
        assert(shorter =~= Seq::<Seq<char>>::empty());
        assert(traces_of(shorter) =~= Seq::<Seq<Seq<char>>>::empty());
        assert(bodies.last() == bodies[0]);
        assert(states_of(bodies) =~= seq![after_first_line(bodies[0])]);
        assert(traces_of(bodies) =~= seq![states_of(bodies)]);
    } else {
        assert(shorter[0] == bodies[0]);
        assert forall|i: int| 1 <= i < shorter.len() implies !starts_trace(
            #[trigger] shorter[i],
        ) by {
            assert(shorter[i] == bodies[i]);
        }
        lemma_one_trace(shorter);
        assert(!starts_trace(bodies[bodies.len() - 1]));
        assert(states_of(bodies) =~= states_of(shorter).push(after_first_line(bodies.last())));
        assert(traces_of(bodies) =~= seq![states_of(bodies)]);
    }
}

/// Two runs of state bodies, each begun by the only body in it that starts a
/// trace, make exactly two traces: the states of the first run, and the
/// states of the second.
pub proof fn lemma_two_traces(first: Seq<Seq<char>>, second: Seq<Seq<char>>)
    requires
        first.len() > 0,
        second.len() > 0,
        starts_trace(first[0]),
        starts_trace(second[0]),
        forall|i: int| 1 <= i < first.len() ==> !starts_trace(#[trigger] first[i]),
        forall|i: int| 1 <= i < second.len() ==> !starts_trace(#[trigger] second[i]),
    ensures
        traces_of(first + second) == seq![states_of(first), states_of(second)],
        states_of(first).len() == first.len(),
        states_of(second).len() == second.len(),
{
    lemma_traces_split(first, second);
    lemma_one_trace(first);
    lemma_one_trace(second);
    assert(seq![states_of(first)] + seq![states_of(second)] =~= seq![
        states_of(first),
        states_of(second),
    ]);
}

/// There are no traces exactly where no body starts one, and no trace is
/// without a state.
pub proof fn lemma_traces_of(bodies: Seq<Seq<char>>)
    ensures
        traces_of(bodies).len() == 0 <==> forall|i: int|
            0 <= i < bodies.len() ==> !starts_trace(#[trigger] bodies[i]),
        forall|k: int| 0 <= k < traces_of(bodies).len() ==> (#[trigger] traces_of(bodies)[k]).len() > 0,
    decreases bodies.len(),
{
    if bodies.len() > 0 {
        let shorter = bodies.drop_last();
        lemma_traces_of(shorter);
        assert forall|i: int| 0 <= i < shorter.len() implies shorter[i] == bodies[i] by {}
        if traces_of(bodies).len() == 0 {
            assert forall|i: int| 0 <= i < bodies.len() implies !starts_trace(
                #[trigger] bodies[i],
            ) by {
                if i < shorter.len() {
                    assert(shorter[i] == bodies[i]);
                }
            }
        } else if !starts_trace(bodies.last()) {
            let i = choose|i: int| 0 <= i < shorter.len() && starts_trace(#[trigger] shorter[i]);
            assert(starts_trace(bodies[i]));
        }
    }
}

/// A stream without state messages and without error messages reports a
/// run that found nothing: no trace, and no failure.
pub proof fn lemma_quiet_stream(ms: Seq<MessageText>, log: Seq<char>)
    requires
        bodies_of(ms, STATE_CLASS, STATE_CODE).len() == 0,
        !has_class(ms, ERROR_CLASS),
    ensures
        extraction(ms, log) == Ok::<Seq<Seq<Seq<char>>>, Seq<char>>(Seq::empty()),
{
}


/// The bodies of a class and code hold the body of each message of that
/// class and code.
proof fn lemma_bodies_of_holds(ms: Seq<MessageText>, i: int) -> (j: int)
    requires
        0 <= i < ms.len(),
    ensures
        0 <= j < bodies_of(ms, ms[i].class, ms[i].code).len(),
        bodies_of(ms, ms[i].class, ms[i].code)[j] == ms[i].body,
    decreases ms.len(),
{
    let shorter = ms.drop_last();
    if i == ms.len() - 1 {
        bodies_of(shorter, ms[i].class, ms[i].code).len() as int
    } else {
        assert(shorter[i] == ms[i]);
        lemma_bodies_of_holds(shorter, i)
    }
}

/// The codes of a class hold the code of each message of that class.
proof fn lemma_codes_of_holds(ms: Seq<MessageText>, i: int) -> (j: int)
    requires
        0 <= i < ms.len(),
    ensures
        0 <= j < codes_of(ms, ms[i].class).len(),
        codes_of(ms, ms[i].class)[j] == ms[i].code,
    decreases ms.len(),
{
    let shorter = ms.drop_last();
    let before = codes_of(shorter, ms[i].class);
    if i == ms.len() - 1 {
        if before.contains(ms[i].code) {
            choose|j: int| 0 <= j < before.len() && before[j] == ms[i].code
        } else {
            before.len() as int
        }
    } else {
        assert(shorter[i] == ms[i]);
        lemma_codes_of_holds(shorter, i)
    }
}

/// The report of the error messages holds the body of every error
/// message, on one line.
pub proof fn lemma_failure_holds_every_error(ms: Seq<MessageText>, log: Seq<char>, i: int)
    requires
        0 <= i < ms.len(),
        ms[i].class == ERROR_CLASS,
    ensures
        occurs_in(failure_message(ms, log), flatten(ms[i].body)),
{
    let code = ms[i].code;
    let flat = flatten(ms[i].body);
    let bodies = bodies_of(ms, ERROR_CLASS, code).map_values(|b: Seq<char>| flatten(b));
    let b = lemma_bodies_of_holds(ms, i);
    assert(bodies[b] == flat);
    lemma_join_holds_parts(bodies, " "@, b);
    let head = "["@ + log + ":"@ + decimal(code as nat) + "]: "@;
    let line = failure_line(ms, log, code);
    lemma_occurs_extend(join(bodies, " "@), flat, head, Seq::empty());
    assert(head + join(bodies, " "@) + Seq::<char>::empty() =~= line);
    let lines = codes_of(ms, ERROR_CLASS).map_values(|c: usize| failure_line(ms, log, c));
    let c = lemma_codes_of_holds(ms, i);
    assert(lines[c] == line);
    lemma_join_holds_parts(lines, "\n"@, c);
    let message = failure_message(ms, log);
    let k = choose|k: int| crate::text::occurs_at(message, line, k);
    lemma_occurs_extend(line, flat, message.take(k), message.skip(k + line.len()));
    assert(message.take(k) + line + message.skip(k + line.len()) =~= message);
}

/// A stream without state messages and with an error message reports a
/// failure.
pub proof fn lemma_error_stream(ms: Seq<MessageText>, log: Seq<char>)
    requires
        bodies_of(ms, STATE_CLASS, STATE_CODE).len() == 0,
        has_class(ms, ERROR_CLASS),
    ensures
        extraction(ms, log) == Err::<Seq<Seq<Seq<char>>>, Seq<char>>(failure_message(ms, log)),
{
}

} // verus!
