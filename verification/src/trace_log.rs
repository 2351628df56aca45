//! Reading the traces off TLC's output line by line, without grouping the
//! messages first.
//!
//! A trace follows the message that reports a violated invariant. Its
//! states are printed one message each; the first line of a state's
//! message holds the number of the state, and the trace ends where another
//! message opens.

use vstd::prelude::*;
use crate::checker::ModelCheckerRuntime;
use crate::error::Error;
use crate::output::trace_texts;
use crate::text::{
    chars_of, decimal, has_prefix, lines_of, push_all, push_decimal, push_str, split_lines,
    string_of, texts,
};
use crate::trace::Trace;

verus! {

/// What the line that opens the message of a state begins with.
pub open spec fn state_start() -> Seq<char> {
    "@!@!@STARTMSG 2217:4 @!@!@"@
}

/// What the line that closes the message of a state begins with.
pub open spec fn state_end() -> Seq<char> {
    "@!@!@ENDMSG 2217 @!@!@"@
}

/// What a line that opens a message begins with.
pub open spec fn message_start() -> Seq<char> {
    "@!@!@STARTMSG"@
}

/// What the line begins with that closes the message after which the
/// traces are looked for.
pub open spec fn search_start() -> Seq<char> {
    "@!@!@ENDMSG 2189 @!@!@"@
}

/// What the line begins with that closes the message that reports a
/// violated invariant.
pub open spec fn violation_end() -> Seq<char> {
    "@!@!@ENDMSG 2121 @!@!@"@
}

/// What the first line of the message of the state `index` begins with.
pub open spec fn state_title(index: nat) -> Seq<char> {
    decimal(index) + ": "@
}

/// The trace that the lines from `at` on hold, and the position behind the
/// line that ends it; `None` where the lines break off before the trace
/// ends, a state's message closes without a state, a state begins inside
/// another, or a line belongs to no state.
///
/// `index` is the number of the state whose message was opened last,
/// `state` the lines of the state that is open, and `trace` the states
/// before it.
pub open spec fn read_trace(
    lines: Seq<Seq<char>>,
    at: int,
    index: nat,
    state: Option<Seq<char>>,
    trace: Seq<Seq<char>>,
) -> Option<(Seq<Seq<char>>, int)>
    decreases lines.len() - at,
{
    if at < 0 || at >= lines.len() {
        None
    } else {
        let line = lines[at];
        if state_start().is_prefix_of(line) {
            read_trace(lines, at + 1, index + 1, state, trace)
        } else if state_end().is_prefix_of(line) {
            match state {
                Some(s) => read_trace(lines, at + 1, index, None, trace.push(s)),
                None => None,
            }
        } else if message_start().is_prefix_of(line) {
            Some((trace, at + 1))
        } else if state_title(index).is_prefix_of(line) {
            match state {
                Some(_) => None,
                None => read_trace(lines, at + 1, index, Some(Seq::empty()), trace),
            }
        } else {
            match state {
                Some(s) => read_trace(lines, at + 1, index, Some(s + line + seq!['\n']), trace),
                None => None,
            }
        }
    }
}

/// A trace ends behind where it begins.
pub proof fn lemma_read_trace_advances(
    lines: Seq<Seq<char>>,
    at: int,
    index: nat,
    state: Option<Seq<char>>,
    trace: Seq<Seq<char>>,
)
    ensures
        read_trace(lines, at, index, state, trace) matches Some(r) ==> at < r.1 <= lines.len(),
    decreases lines.len() - at,
{
    if 0 <= at < lines.len() {
        let line = lines[at];
        if state_start().is_prefix_of(line) {
            lemma_read_trace_advances(lines, at + 1, index + 1, state, trace);
        } else if state_end().is_prefix_of(line) {
            if state is Some {
                lemma_read_trace_advances(lines, at + 1, index, None, trace.push(state->0));
            }
        } else if message_start().is_prefix_of(line) {
        } else if state_title(index).is_prefix_of(line) {
            if state is None {
                lemma_read_trace_advances(lines, at + 1, index, Some(Seq::empty()), trace);
            }
        } else {
            if state is Some {
                lemma_read_trace_advances(
                    lines,
                    at + 1,
                    index,
                    Some(state->0 + line + seq!['\n']),
                    trace,
                );
            }
        }
    }
}

/// Reads one trace off the lines from `from` on.
///
/// The result is the trace, or `None` where it has no state, and the
/// position behind the line that ends the trace. Lines that are not those
/// of a trace give [`Error::InvalidTLCOutput`] with the path of the log.
pub fn parse_trace(lines: &Vec<Vec<char>>, from: usize, runtime: &ModelCheckerRuntime) -> (out:
    Result<(Option<Trace>, usize), Error>)
    ensures
        match read_trace(texts(lines@), from as int, 0, None, Seq::empty()) {
            Some(r) => out matches Ok(found) && found.1 == r.1 && from < found.1 <= lines.len()
                && match found.0 {
                Some(trace) => trace@ == r.0 && r.0.len() > 0,
                None => r.0.len() == 0,
            },
            None => out matches Err(Error::InvalidTLCOutput(log)) && log@ == runtime.log@,
        },
{
    let start = chars_of("@!@!@STARTMSG 2217:4 @!@!@");
    let end = chars_of("@!@!@ENDMSG 2217 @!@!@");
    let any = chars_of("@!@!@STARTMSG");
    let ghost all = texts(lines@);
    let ghost goal = read_trace(all, from as int, 0, None, Seq::empty());
    let mut index: usize = 0;
    let mut open = false;
    let mut state: Vec<char> = Vec::new();
    let mut trace = Trace::new();
    let mut at: usize = from;
    proof {
        lemma_read_trace_advances(all, from as int, 0, None, Seq::empty());
    }
    if from > lines.len() {
        return Err(Error::InvalidTLCOutput(runtime.log.clone()));
    }
    while at < lines.len()
        invariant
            from <= at <= lines.len(),
            index <= at - from,
            all == texts(lines@),
            goal == read_trace(all, from as int, 0, None, Seq::empty()),
            start@ == state_start(),
            end@ == state_end(),
            any@ == message_start(),
            goal matches Some(r) ==> from < r.1 <= lines.len(),
            goal == read_trace(
                all,
                at as int,
                index as nat,
                if open {
                    Some(state@)
                } else {
                    None
                },
                trace@,
            ),
        decreases lines.len() - at,
    {
        let line = &lines[at];
        assert(all[at as int] == line@);
        if has_prefix(line, &start) {
            index = index + 1;
        } else if has_prefix(line, &end) {
            if !open {
                return Err(Error::InvalidTLCOutput(runtime.log.clone()));
            }
            assert(state@.subrange(0, state@.len() as int) == state@);
            trace.add(string_of(&state, 0, state.len()));
            open = false;
            state = Vec::new();
        } else if has_prefix(line, &any) {
            let found = if trace.is_empty() {
                None
            } else {
                Some(trace)
            };
            return Ok((found, at + 1));
        } else {
            let mut title: Vec<char> = Vec::new();
            push_decimal(&mut title, index as u128);
            push_str(&mut title, ": ");
            assert(title@ =~= state_title(index as nat));
            if has_prefix(line, &title) {
                if open {
                    return Err(Error::InvalidTLCOutput(runtime.log.clone()));
                }
                open = true;
                state = Vec::new();
            } else {
                if !open {
                    return Err(Error::InvalidTLCOutput(runtime.log.clone()));
                }
                let ghost before = state@;
                push_all(&mut state, line);
                state.push('\n');
                assert(state@ =~= before + line@ + seq!['\n']);
            }
        }
        at += 1;
    }
    Err(Error::InvalidTLCOutput(runtime.log.clone()))
}

/// The position of the first line from `at` on that begins with `tag`, or
/// the number of lines where there is none.
pub open spec fn seek(lines: Seq<Seq<char>>, at: int, tag: Seq<char>) -> int
    decreases lines.len() - at,
{
    if at < 0 || at >= lines.len() {
        lines.len() as int
    } else if tag.is_prefix_of(lines[at]) {
        at
    } else {
        seek(lines, at + 1, tag)
    }
}

/// The traces that the lines from `at` on hold, behind the traces `found`:
/// one behind each line that closes the report of a violated invariant, but
/// for the traces without a state. `None` where the lines behind such a
/// line are not those of a trace.
pub open spec fn read_traces(lines: Seq<Seq<char>>, at: int, found: Seq<Seq<Seq<char>>>) -> Option<
    Seq<Seq<Seq<char>>>,
>
    decreases lines.len() - at,
{
    if at < 0 || at >= lines.len() {
        Some(found)
    } else if violation_end().is_prefix_of(lines[at]) {
        match read_trace(lines, at + 1, 0, None, Seq::empty()) {
            Some(r) => if at < r.1 <= lines.len() {
                read_traces(
                    lines,
                    r.1,
                    if r.0.len() > 0 {
                        found.push(r.0)
                    } else {
                        found
                    },
                )
            } else {
                None
            },
            None => None,
        }
    } else {
        read_traces(lines, at + 1, found)
    }
}

/// The traces that an output holds: those behind the line that closes the
/// message 2189, which says that the initial states are computed.
pub open spec fn traces_in(output: Seq<char>) -> Option<Seq<Seq<Seq<char>>>> {
    let lines = lines_of(output);
    read_traces(lines, seek(lines, 0, search_start()), Seq::empty())
}

/// Reads the traces off the output of TLC, line by line.
pub fn parse(output: &str, runtime: &ModelCheckerRuntime) -> (out: Result<Vec<Trace>, Error>)
    ensures
        match traces_in(output@) {
            Some(traces) => out matches Ok(v) && trace_texts(v@) == traces,
            None => out matches Err(Error::InvalidTLCOutput(log)) && log@ == runtime.log@,
        },
{
    let text = chars_of(output);
    let lines = split_lines(&text);
    let first = chars_of("@!@!@ENDMSG 2189 @!@!@");
    let violation = chars_of("@!@!@ENDMSG 2121 @!@!@");
    let ghost all = texts(lines@);
    let mut at: usize = 0;
    while at < lines.len() && !has_prefix(&lines[at], &first)
        invariant
            at <= lines.len(),
            all == texts(lines@),
            first@ == search_start(),
            seek(all, 0, search_start()) == seek(all, at as int, search_start()),
        decreases lines.len() - at,
    {
        assert(all[at as int] == lines@[at as int]@);
        at += 1;
    }
    proof {
        if at < lines.len() {
            assert(all[at as int] == lines@[at as int]@);
        }
    }
    let mut traces: Vec<Trace> = Vec::new();
    assert(trace_texts(traces@) =~= Seq::<Seq<Seq<char>>>::empty());
    while at < lines.len()
        invariant
            at <= lines.len(),
            all == texts(lines@),
            all == lines_of(output@),
            violation@ == violation_end(),
            traces_in(output@) == read_traces(all, at as int, trace_texts(traces@)),
        decreases lines.len() - at,
    {
        assert(all[at as int] == lines@[at as int]@);
        if has_prefix(&lines[at], &violation) {
            let ghost before = trace_texts(traces@);
            match parse_trace(&lines, at + 1, runtime) {
                Ok((found, next)) => {
                    match found {
                        Some(trace) => {
                            traces.push(trace);
                            assert(trace_texts(traces@) =~= before.push(trace@));
                        },
                        None => {},
                    }
                    at = next;
                },
                Err(e) => {
                    return Err(e);
                },
            }
        } else {
            at += 1;
        }
    }
    Ok(traces)
}

} // verus!
