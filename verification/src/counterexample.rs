//! Parsing of the counterexample that Apalache writes as a TLA+ module.
//!
//! The module holds one definition for each step: a line `State<n> ==`,
//! and below it the state, up to the next blank line, comment, definition
//! of a step, or the line that closes the module.

use vstd::prelude::*;
use crate::error::Error;
use crate::text::{
    chars_of, has_prefix, is_digit, lines_of, slice_of, split_lines, string_of, texts, trim,
    trim_bounds,
};
use crate::trace::Trace;

verus! {

/// The number of digits that `s` begins with.
pub open spec fn leading_digits(s: Seq<char>) -> nat
    decreases s.len(),
{
    if s.len() > 0 && is_digit(s[0]) {
        1 + leading_digits(s.skip(1))
    } else {
        0
    }
}

/// What follows `State<n> ==` on a line that opens a step, and `None` for
/// any other line.
pub open spec fn step_header(line: Seq<char>) -> Option<Seq<char>> {
    if "State"@.is_prefix_of(line) {
        let number = line.skip("State"@.len() as int);
        let k = leading_digits(number) as int;
        if k >= 1 && " =="@.is_prefix_of(number.skip(k)) {
            Some(number.skip(k + " =="@.len()))
        } else {
            None
        }
    } else {
        None
    }
}

/// Whether `line` holds white space only.
pub open spec fn is_blank(line: Seq<char>) -> bool {
    trim(line).len() == 0
}

/// Whether `line` ends the step above it: a blank line, a comment, or the
/// line that closes the module.
pub open spec fn ends_step(line: Seq<char>) -> bool {
    is_blank(line) || "(*"@.is_prefix_of(line) || "===="@.is_prefix_of(line)
}

/// The state of the parser between two lines.
pub struct Steps {
    /// Whether the lines read last belong to a step.
    pub open: bool,
    /// The lines of that step.
    pub pending: Seq<char>,
    /// The steps before it, the first one first.
    pub done: Seq<Seq<char>>,
}

/// The parser's state with the open step, if there is one, closed; `None`
/// where that step has no lines.
pub open spec fn close_step(st: Steps) -> Option<Steps> {
    if !st.open {
        Some(st)
    } else if st.pending.len() == 0 {
        None
    } else {
        Some(Steps { open: false, pending: Seq::empty(), done: st.done.push(st.pending) })
    }
}

/// The parser's state after one more line, or `None` where a step turns
/// out to have no lines.
pub open spec fn step_line(st: Steps, line: Seq<char>) -> Option<Steps> {
    match step_header(line) {
        Some(rest) => match close_step(st) {
            Some(closed) => Some(
                Steps {
                    open: true,
                    pending: if is_blank(rest) {
                        Seq::empty()
                    } else {
                        rest + seq!['\n']
                    },
                    done: closed.done,
                },
            ),
            None => None,
        },
        None => if !st.open {
            Some(st)
        } else if ends_step(line) {
            close_step(st)
        } else {
            Some(Steps { pending: st.pending + line + seq!['\n'], ..st })
        },
    }
}

/// The parser's state after `lines`, read in order from state `st`.
pub open spec fn step_lines(st: Steps, lines: Seq<Seq<char>>) -> Option<Steps>
    decreases lines.len(),
{
    if lines.len() == 0 {
        Some(st)
    } else {
        match step_line(st, lines[0]) {
            Some(next) => step_lines(next, lines.skip(1)),
            None => None,
        }
    }
}

/// The states of the steps of a counterexample, in the order of the file;
/// `None` where the file holds no step, or a step without a line.
pub open spec fn steps_of(counterexample: Seq<char>) -> Option<Seq<Seq<char>>> {
    let start = Steps { open: false, pending: Seq::empty(), done: Seq::empty() };
    match step_lines(start, lines_of(counterexample)) {
        Some(st) => match close_step(st) {
            Some(closed) => if closed.done.len() > 0 {
                Some(closed.done)
            } else {
                None
            },
            None => None,
        },
        None => None,
    }
}

/// The number of digits that `v[from..]` begins with.
fn count_digits(v: &Vec<char>, from: usize) -> (k: usize)
    requires
        from <= v.len(),
    ensures
        k == leading_digits(v@.skip(from as int)),
        from + k <= v.len(),
{
    let mut i: usize = from;
    while i < v.len() && '0' <= v[i] && v[i] <= '9'
        invariant
            from <= i <= v.len(),
            leading_digits(v@.skip(from as int)) == (i - from) + leading_digits(v@.skip(i as int)),
        decreases v.len() - i,
    {
        proof {
            let s = v@.skip(i as int);
            assert(s[0] == v@[i as int]);
            assert(s.skip(1) == v@.skip(i + 1));
        }
        i += 1;
    }
    proof {
        let s = v@.skip(i as int);
        if i < v.len() {
            assert(s[0] == v@[i as int]);
        }
    }
    i - from
}

/// What follows `State<n> ==` on `line`, where the line opens a step.
fn read_step_header(line: &Vec<char>) -> (out: Option<Vec<char>>)
    ensures
        match step_header(line@) {
            Some(rest) => out is Some && out->0@ == rest,
            None => out is None,
        },
{
    let word = chars_of("State");
    let sign = chars_of(" ==");
    if !has_prefix(line, &word) {
        return None;
    }
    let k = count_digits(line, word.len());
    if k == 0 {
        return None;
    }
    let at = word.len() + k;
    let behind = slice_of(line, at, line.len());
    proof {
        assert(behind@ == line@.skip(word@.len() as int).skip(k as int));
    }
    if !has_prefix(&behind, &sign) {
        return None;
    }
    let rest = slice_of(&behind, sign.len(), behind.len());
    assert(rest@ == behind@.skip(sign@.len() as int));
    Some(rest)
}

/// Whether `line` holds white space only.
fn blank(line: &Vec<char>) -> (b: bool)
    ensures
        b == is_blank(line@),
{
    let (from, to) = trim_bounds(line);
    from == to
}

/// Whether `line` ends the step above it.
fn step_end(line: &Vec<char>) -> (b: bool)
    ensures
        b == ends_step(line@),
{
    let comment = chars_of("(*");
    let closing = chars_of("====");
    blank(line) || has_prefix(line, &comment) || has_prefix(line, &closing)
}

/// Parses the counterexample that Apalache wrote: one trace, whose states
/// are the steps of the file, in order.
///
/// A file without a step, or with a step that has no line, gives
/// [`Error::InvalidApalacheCounterexample`] with the text of the file.
pub fn parse(counterexample: &str) -> (out: Result<Trace, Error>)
    ensures
        match steps_of(counterexample@) {
            Some(states) => out matches Ok(trace) && trace@ == states,
            None => out matches Err(Error::InvalidApalacheCounterexample(text)) && text@
                == counterexample@,
        },
{
    let text = chars_of(counterexample);
    let lines = split_lines(&text);
    let mut open = false;
    let mut pending: Vec<char> = Vec::new();
    let mut trace = Trace::new();
    let mut i: usize = 0;
    let ghost start = Steps { open: false, pending: Seq::empty(), done: Seq::empty() };
    proof {
        assert(texts(lines@).skip(0) == texts(lines@));
    }
    while i < lines.len()
        invariant
            i <= lines.len(),
            texts(lines@) == lines_of(counterexample@),
            start == (Steps { open: false, pending: Seq::empty(), done: Seq::empty() }),
            step_lines(start, lines_of(counterexample@)) == step_lines(
                Steps { open, pending: pending@, done: trace@ },
                texts(lines@).skip(i as int),
            ),
        decreases lines.len() - i,
    {
        let line = &lines[i];
        let ghost st = Steps { open, pending: pending@, done: trace@ };
        let ghost rest_lines = texts(lines@).skip(i as int);
        proof {
            assert(rest_lines[0] == line@);
            assert(rest_lines.skip(1) == texts(lines@).skip(i + 1));
        }
        match read_step_header(line) {
            Some(rest) => {
                if open {
                    if pending.len() == 0 {
                        return Err(Error::InvalidApalacheCounterexample(counterexample.to_owned()));
                    }
                    assert(pending@.subrange(0, pending@.len() as int) == pending@);
                    trace.add(string_of(&pending, 0, pending.len()));
                }
                open = true;
                pending = Vec::new();
                if !blank(&rest) {
                    crate::text::push_all(&mut pending, &rest);
                    pending.push('\n');
                    assert(pending@ =~= rest@ + seq!['\n']);
                }
                assert(step_line(st, line@) == Some(
                    Steps { open, pending: pending@, done: trace@ },
                ));
            },
            None => {
                if open {
                    if step_end(line) {
                        if pending.len() == 0 {
                            return Err(
                                Error::InvalidApalacheCounterexample(counterexample.to_owned()),
                            );
                        }
                        assert(pending@.subrange(0, pending@.len() as int) == pending@);
                        trace.add(string_of(&pending, 0, pending.len()));
                        open = false;
                        pending = Vec::new();
                    } else {
                        crate::text::push_all(&mut pending, line);
                        pending.push('\n');
                        assert(pending@ =~= st.pending + line@ + seq!['\n']);
                    }
                }
                assert(step_line(st, line@) == Some(
                    Steps { open, pending: pending@, done: trace@ },
                ));
            },
        }
        i += 1;
    }
    if open {
        if pending.len() == 0 {
            return Err(Error::InvalidApalacheCounterexample(counterexample.to_owned()));
        }
        assert(pending@.subrange(0, pending@.len() as int) == pending@);
        trace.add(string_of(&pending, 0, pending.len()));
    }
    if trace.is_empty() {
        return Err(Error::InvalidApalacheCounterexample(counterexample.to_owned()));
    }
    Ok(trace)
}

} // verus!
