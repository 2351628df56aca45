//! Running TLC: its command line, and what its output says.

use vstd::prelude::*;
use crate::checker::{ModelCheckerRuntime, ModelatorRuntime};
use crate::error::Error;
use crate::output::{extraction, message_stream, parse_traces, trace_texts};
use crate::explorer::{config_text, module_name, module_text, ExplorerInvariant};
use crate::session::{resolved, NextStatesCached, Step};
use crate::text::{concat3, strs};
use crate::trace::Trace;

verus! {

/// The TLC model checker.
#[derive(Debug, Clone, Copy)]
pub struct Tlc;

/// The arguments with which `java` runs TLC on a model: the class path of
/// the two jars, the main class, the model and its configuration, the tool
/// mode, which makes the output a stream of messages, and the number of
/// workers.
pub open spec fn test_args(
    tla2tools: Seq<char>,
    community_modules: Seq<char>,
    tla_file: Seq<char>,
    tla_config_file: Seq<char>,
    workers: Seq<char>,
) -> Seq<Seq<char>> {
    seq![
        "-cp"@,
        tla2tools + ":"@ + community_modules,
        "tlc2.TLC"@,
        tla_file,
        "-config"@,
        tla_config_file,
        "-tool"@,
        "-workers"@,
        workers,
    ]
}

/// The arguments with which `java` runs TLC on a model.
pub fn test_cmd(
    tla2tools: &str,
    community_modules: &str,
    tla_file: &str,
    tla_config_file: &str,
    runtime: &ModelCheckerRuntime,
) -> (out: Vec<String>)
    ensures
        strs(out@) == test_args(
            tla2tools@,
            community_modules@,
            tla_file@,
            tla_config_file@,
            runtime.workers.spec_text(),
        ),
{
    let mut out: Vec<String> = Vec::new();
    out.push("-cp".to_owned());
    out.push(concat3(tla2tools, ":", community_modules));
    out.push("tlc2.TLC".to_owned());
    out.push(tla_file.to_owned());
    out.push("-config".to_owned());
    out.push(tla_config_file.to_owned());
    out.push("-tool".to_owned());
    out.push("-workers".to_owned());
    out.push(crate::checker::workers(runtime));
    assert(strs(out@) =~= test_args(
        tla2tools@,
        community_modules@,
        tla_file@,
        tla_config_file@,
        runtime.workers.spec_text(),
    ));
    out
}

/// What the two outputs of a run of TLC say.
///
/// With something on the standard output and nothing on the standard error,
/// the result is that of parsing the standard output, but that a run
/// without any trace gives [`Error::NoTestTraceFound`]. With nothing on the
/// standard output and something on the standard error, the run failed:
/// [`Error::TLCFailure`] with the standard error. Anything else is not the
/// output of TLC: [`Error::InvalidTLCOutput`].
pub open spec fn run_result(stdout: Seq<char>, stderr: Seq<char>, log: Seq<char>) -> Result<
    Seq<Seq<Seq<char>>>,
    Failure,
> {
    if stdout.len() > 0 && stderr.len() == 0 {
        match message_stream(stdout) {
            Some(ms) => match extraction(ms, log) {
                Ok(traces) => if traces.len() == 0 {
                    Err(Failure::NoTrace)
                } else {
                    Ok(traces)
                },
                Err(message) => Err(Failure::Checker(message)),
            },
            None => Err(Failure::Invalid),
        }
    } else if stdout.len() == 0 && stderr.len() > 0 {
        Err(Failure::Checker(stderr))
    } else {
        Err(Failure::Invalid)
    }
}

/// The ways in which a run of TLC fails.
pub enum Failure {
    /// The run found no trace.
    NoTrace,
    /// TLC reported an error: its message.
    Checker(Seq<char>),
    /// The output is not that of TLC.
    Invalid,
}

/// Whether `e` reports the failure `f` of a run whose log is `log`.
pub open spec fn reports(e: Error, f: Failure, log: Seq<char>) -> bool {
    match f {
        Failure::NoTrace => e matches Error::NoTestTraceFound(l) && l@ == log,
        Failure::Checker(message) => e matches Error::TLCFailure(m) && m@ == message,
        Failure::Invalid => e matches Error::InvalidTLCOutput(l) && l@ == log,
    }
}

impl Tlc {
    /// Reads the result of a run of TLC off its two outputs.
    pub fn test(stdout: &str, stderr: &str, runtime: &ModelatorRuntime) -> (out: Result<
        Vec<Trace>,
        Error,
    >)
        ensures
            match run_result(stdout@, stderr@, runtime.model_checker_runtime.log@) {
                Ok(traces) => out matches Ok(v) && trace_texts(v@) == traces && v.len() > 0,
                Err(f) => out matches Err(e) && reports(
                    e,
                    f,
                    runtime.model_checker_runtime.log@,
                ),
            },
    {
        let options = &runtime.model_checker_runtime;
        let no_stdout = stdout.unicode_len() == 0;
        let no_stderr = stderr.unicode_len() == 0;
        if !no_stdout && no_stderr {
            match parse_traces(stdout, options) {
                Ok(traces) => {
                    if traces.len() == 0 {
                        Err(Error::NoTestTraceFound(options.log.clone()))
                    } else {
                        Ok(traces)
                    }
                },
                Err(e) => Err(e),
            }
        } else if no_stdout && !no_stderr {
            Err(Error::TLCFailure(stderr.to_owned()))
        } else {
            Err(Error::InvalidTLCOutput(options.log.clone()))
        }
    }
}

impl Tlc {
    /// Decides what to do about a request for `count` next states of a
    /// state, behind the first `skip`, with what `cached` knows: the states
    /// asked for, where they are known, and else the query for TLC that
    /// shows one state more. See [`NextStatesCached::next_step`].
    pub fn next_states(
        cached: &NextStatesCached,
        tla_module_name: &str,
        tla_config: &str,
        start_tla_state: Option<&str>,
        count: usize,
        skip: usize,
        timestamp: u128,
    ) -> (out: Step)
        requires
            cached.wf(),
        ensures
            ({
                let start = resolved(start_tla_state, cached.initial_state.tla_state@);
                let known = cached.known(start);
                if skip + count <= known.len() {
                    out matches Step::Answer(states) && strs(states@) == known.subrange(
                        skip as int,
                        skip + count,
                    )
                } else {
                    &&& out matches Step::Explore(query)
                    &&& query.name@ == module_name(timestamp)
                    &&& query.module@ == module_text(
                        tla_module_name@,
                        cached.vars@,
                        start,
                        known,
                        timestamp,
                    )
                    &&& query.config@ == config_text(tla_config@, ExplorerInvariant::Explore)
                }
            }),
    {
        cached.next_step(tla_module_name, tla_config, start_tla_state, count, skip, timestamp)
    }
}

} // verus!
