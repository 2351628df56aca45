//! Running Apalache: its command lines, and what its output says.

use vstd::prelude::*;
use crate::artifact::{first_occurrences, TlaFile, TlaVariables};
use crate::checker::ModelatorRuntime;
use crate::counterexample::steps_of;
use crate::error::Error;
use crate::text::{concat2, concat3, decimal, decimal_string, occurs_in, str_contains, strs};
use crate::trace::Trace;

verus! {

/// The Apalache model checker.
#[derive(Debug, Clone, Copy)]
pub struct Apalache;

/// The formats in which Apalache writes the module that it has parsed.
#[derive(Clone, Copy, Debug, PartialEq, Eq, Structural)]
pub enum ApalacheParseFormat {
    /// A TLA+ module.
    Tla,
    /// A JSON document.
    Json,
}

impl ApalacheParseFormat {
    /// The format's name, which is also the extension of its files.
    pub open spec fn spec_name(self) -> Seq<char> {
        match self {
            ApalacheParseFormat::Tla => "tla"@,
            ApalacheParseFormat::Json => "json"@,
        }
    }

    /// The format's name, which is also the extension of its files.
    pub fn name(&self) -> (out: &'static str)
        ensures
            out@ == self.spec_name(),
    {
        match self {
            ApalacheParseFormat::Tla => "tla",
            ApalacheParseFormat::Json => "json",
        }
    }
}

/// The name of the file into which Apalache writes the parsed form of the
/// module `tla_module_name`.
pub fn parsed_file_name(tla_module_name: &str, format: ApalacheParseFormat) -> (out: String)
    ensures
        out@ == tla_module_name@ + "Parsed."@ + format.spec_name(),
{
    concat3(tla_module_name, "Parsed.", format.name())
}

/// The arguments with which `java` starts Apalache from a working
/// directory: the directory as the library of TLA+ modules and as the place
/// for temporary files, and the jar.
pub fn apalache_start_cmd(temp_dir: &str, apalache_jar: &str) -> (out: Vec<String>)
    ensures
        strs(out@) == seq![
            "-DTLA-Library="@ + temp_dir@,
            "-jar"@,
            "-Djava.io.tmpdir="@ + temp_dir@,
            apalache_jar@,
        ],
{
    let mut out: Vec<String> = Vec::new();
    out.push(concat2("-DTLA-Library=", temp_dir));
    out.push("-jar".to_owned());
    out.push(concat2("-Djava.io.tmpdir=", temp_dir));
    out.push(apalache_jar.to_owned());
    assert(strs(out@) =~= seq![
        "-DTLA-Library="@ + temp_dir@,
        "-jar"@,
        "-Djava.io.tmpdir="@ + temp_dir@,
        apalache_jar@,
    ]);
    out
}

/// The arguments with which `java` starts Apalache on a model: the
/// directory of the model, if it has one, as the library of TLA+ modules,
/// and the jar.
pub fn apalache_cmd_start(tla_file_dir: Option<&str>, apalache_jar: &str) -> (out: Vec<String>)
    ensures
        strs(out@) == match tla_file_dir {
            Some(dir) => seq!["-DTLA-Library="@ + dir@, "-jar"@, apalache_jar@],
            None => seq!["-jar"@, apalache_jar@],
        },
{
    let mut out: Vec<String> = Vec::new();
    match tla_file_dir {
        Some(dir) => {
            out.push(concat2("-DTLA-Library=", dir));
        },
        None => {},
    }
    out.push("-jar".to_owned());
    out.push(apalache_jar.to_owned());
    assert(strs(out@) =~= match tla_file_dir {
        Some(dir) => seq!["-DTLA-Library="@ + dir@, "-jar"@, apalache_jar@],
        None => seq!["-jar"@, apalache_jar@],
    });
    out
}

/// The arguments of `check` behind those that start Apalache.
pub open spec fn check_args(
    tla_file: Seq<char>,
    tla_config_file: Seq<char>,
    max_error: nat,
    view: Option<Seq<char>>,
) -> Seq<Seq<char>> {
    let head = seq![
        "check"@,
        "--config="@ + tla_config_file,
        "--max-error="@ + decimal(max_error),
        "--algo=offline"@,
    ];
    match view {
        Some(v) => head.push("--view="@ + v).push(tla_file),
        None => head.push(tla_file),
    }
}

/// What `view` holds, as a text.
pub open spec fn view_text(view: &Option<String>) -> Option<Seq<char>> {
    match view {
        Some(v) => Some(v@),
        None => None,
    }
}

/// Adds the arguments of `check` to `cmd`: the configuration, the number
/// of counterexamples to look for, the view if there is one, and the model.
pub fn check_cmd(
    cmd: Vec<String>,
    tla_file_base_name: &str,
    tla_config_file_base_name: &str,
    max_error: usize,
    view: &Option<String>,
) -> (out: Vec<String>)
    ensures
        strs(out@) == strs(cmd@) + check_args(
            tla_file_base_name@,
            tla_config_file_base_name@,
            max_error as nat,
            view_text(view),
        ),
{
    let mut out = cmd;
    let count = decimal_string(max_error);
    out.push("check".to_owned());
    out.push(concat2("--config=", tla_config_file_base_name));
    out.push(concat2("--max-error=", count.as_str()));
    out.push("--algo=offline".to_owned());
    match view {
        Some(v) => {
            out.push(concat2("--view=", v.as_str()));
        },
        None => {},
    }
    out.push(tla_file_base_name.to_owned());
    assert(strs(out@) =~= strs(cmd@) + check_args(
        tla_file_base_name@,
        tla_config_file_base_name@,
        max_error as nat,
        view_text(view),
    ));
    out
}

/// Adds the arguments of `check`, as the first versions of Apalache took
/// them, to `cmd`: the configuration and the model.
pub fn test_cmd(cmd: Vec<String>, tla_file: &str, tla_config_file: &str) -> (out: Vec<String>)
    ensures
        strs(out@) == strs(cmd@) + seq!["check"@, "--config="@ + tla_config_file@, tla_file@],
{
    let mut out = cmd;
    out.push("check".to_owned());
    out.push(concat2("--config=", tla_config_file));
    out.push(tla_file.to_owned());
    assert(strs(out@) =~= strs(cmd@) + seq![
        "check"@,
        "--config="@ + tla_config_file@,
        tla_file@,
    ]);
    out
}

/// Adds the arguments of `parse` to `cmd`: the file to write, and the
/// model.
pub fn parse_cmd(cmd: Vec<String>, tla_file_base_name: &str, output_file_base_name: &str) -> (out:
    Vec<String>)
    ensures
        strs(out@) == strs(cmd@) + seq![
            "parse"@,
            "--output="@ + output_file_base_name@,
            tla_file_base_name@,
        ],
{
    let mut out = cmd;
    out.push("parse".to_owned());
    out.push(concat2("--output=", output_file_base_name));
    out.push(tla_file_base_name.to_owned());
    assert(strs(out@) =~= strs(cmd@) + seq![
        "parse"@,
        "--output="@ + output_file_base_name@,
        tla_file_base_name@,
    ]);
    out
}

/// The name of the view that a test module defines for Apalache.
pub const VIEW_NAME: &'static str = "ViewForTestNeg";

/// The view to run a check with: the one that the module defines, if it
/// names one.
pub fn view_of(tla_file_content: &str) -> (out: Option<String>)
    ensures
        match out {
            Some(v) => occurs_in(tla_file_content@, VIEW_NAME@) && v@ == VIEW_NAME@,
            None => !occurs_in(tla_file_content@, VIEW_NAME@),
        },
{
    if str_contains(tla_file_content, VIEW_NAME) {
        Some(VIEW_NAME.to_owned())
    } else {
        None
    }
}

/// What a run of Apalache wrote, where the run went well.
///
/// Apalache writes all it has to say to the standard output, and ends it
/// with its exit code. A run that says `EXITCODE: ERROR` failed:
/// [`Error::ApalacheFailure`] with the output. A run that says
/// `EXITCODE: OK` went well. Anything else—no standard output, something on
/// the standard error, no exit code—is not the output of Apalache:
/// [`Error::InvalidTLCOutput`] with the path of the log.
pub fn run_apalache(stdout: &str, stderr: &str, runtime: &ModelatorRuntime) -> (out: Result<
    String,
    Error,
>)
    ensures
        match out {
            Ok(text) => {
                &&& text@ == stdout@
                &&& stdout@.len() > 0
                &&& stderr@.len() == 0
                &&& !occurs_in(stdout@, "EXITCODE: ERROR"@)
                &&& occurs_in(stdout@, "EXITCODE: OK"@)
            },
            Err(Error::ApalacheFailure(text)) => {
                &&& text@ == stdout@
                &&& stdout@.len() > 0
                &&& stderr@.len() == 0
                &&& occurs_in(stdout@, "EXITCODE: ERROR"@)
            },
            Err(Error::InvalidTLCOutput(log)) => {
                &&& log@ == runtime.model_checker_runtime.log@
                &&& (stdout@.len() == 0 || stderr@.len() > 0 || (!occurs_in(
                    stdout@,
                    "EXITCODE: ERROR"@,
                ) && !occurs_in(stdout@, "EXITCODE: OK"@)))
            },
            Err(_) => false,
        },
{
    if stdout.unicode_len() > 0 && stderr.unicode_len() == 0 {
        if str_contains(stdout, "EXITCODE: ERROR") {
            Err(Error::ApalacheFailure(stdout.to_owned()))
        } else if str_contains(stdout, "EXITCODE: OK") {
            Ok(stdout.to_owned())
        } else {
            Err(Error::InvalidTLCOutput(runtime.model_checker_runtime.log.clone()))
        }
    } else {
        Err(Error::InvalidTLCOutput(runtime.model_checker_runtime.log.clone()))
    }
}

/// One declaration of a parsed module, as far as the library reads it: the
/// name of the variable that it declares, if it declares one.
#[derive(Debug, Clone, PartialEq, Eq)]
pub struct Declaration {
    /// The variable declared.
    pub variable: Option<String>,
}

/// The variables that a sequence of declarations declares, in order.
pub open spec fn declared(declarations: Seq<Declaration>) -> Seq<Seq<char>>
    decreases declarations.len(),
{
    if declarations.len() == 0 {
        Seq::empty()
    } else {
        let before = declared(declarations.drop_last());
        match declarations.last().variable {
            Some(v) => before.push(v@),
            None => before,
        }
    }
}

impl Apalache {
    /// Reads the result of Apalache's `parse` off its two outputs: where the
    /// run went well, the name of the file that holds the parsed form of
    /// `tla_file`; otherwise the error of [`run_apalache`].
    pub fn parse(tla_file: &TlaFile, stdout: &str, stderr: &str, runtime: &ModelatorRuntime) -> (out:
        Result<String, Error>)
        ensures
            match out {
                Ok(name) => {
                    &&& name@ == tla_file.module_name() + "Parsed."@
                        + ApalacheParseFormat::Tla.spec_name()
                    &&& stdout@.len() > 0
                    &&& stderr@.len() == 0
                    &&& !occurs_in(stdout@, "EXITCODE: ERROR"@)
                    &&& occurs_in(stdout@, "EXITCODE: OK"@)
                },
                Err(Error::ApalacheFailure(text)) => {
                    &&& text@ == stdout@
                    &&& stdout@.len() > 0
                    &&& stderr@.len() == 0
                    &&& occurs_in(stdout@, "EXITCODE: ERROR"@)
                },
                Err(Error::InvalidTLCOutput(log)) => {
                    &&& log@ == runtime.model_checker_runtime.log@
                    &&& (stdout@.len() == 0 || stderr@.len() > 0 || (!occurs_in(
                        stdout@,
                        "EXITCODE: ERROR"@,
                    ) && !occurs_in(stdout@, "EXITCODE: OK"@)))
                },
                Err(_) => false,
            },
    {
        match run_apalache(stdout, stderr, runtime) {
            Ok(_) => {
                let module = tla_file.tla_module_name();
                Ok(parsed_file_name(module.as_str(), ApalacheParseFormat::Tla))
            },
            Err(e) => Err(e),
        }
    }

    /// The variables of a model, read off the declarations of its parsed
    /// form: each variable once, in the order of the declarations.
    pub fn tla_variables(declarations: &Vec<Declaration>) -> (out: TlaVariables)
        ensures
            out.wf(),
            out@ == first_occurrences(declared(declarations@)),
    {
        let mut vars: Vec<String> = Vec::new();
        let mut i: usize = 0;
        assert(declarations@.take(0) =~= Seq::<Declaration>::empty());
        assert(strs(vars@) =~= Seq::<Seq<char>>::empty());
        while i < declarations.len()
            invariant
                i <= declarations.len(),
                strs(vars@) == declared(declarations@.take(i as int)),
            decreases declarations.len() - i,
        {
            let ghost before = strs(vars@);
            assert(declarations@.take(i + 1).drop_last() == declarations@.take(i as int));
            match &declarations[i].variable {
                Some(v) => {
                    vars.push(v.clone());
                    assert(strs(vars@) =~= before.push(v@));
                },
                None => {},
            }
            i += 1;
        }
        assert(declarations@.take(declarations@.len() as int) == declarations@);
        TlaVariables::new(vars)
    }

    /// Reads the trace off the counterexample that a check wrote.
    pub fn test(counterexample: &str) -> (out: Result<Trace, Error>)
        ensures
            match steps_of(counterexample@) {
                Some(states) => out matches Ok(trace) && trace@ == states,
                None => out matches Err(Error::InvalidApalacheCounterexample(text)) && text@
                    == counterexample@,
            },
    {
        crate::counterexample::parse(counterexample)
    }
}

} // verus!
