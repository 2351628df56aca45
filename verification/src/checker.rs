//! Selection and configuration of the model checker.

use vstd::prelude::*;
use crate::error::Error;
use crate::text::{
    ascii_lower, chars_of, debug_form, decimal, decimal_string, parse_number, read_number,
    same_text, string_of, to_ascii_lower, unsupported,
};

verus! {

/// Configuration option to select the model checker to be used.
#[derive(Clone, Copy, Debug, PartialEq, Eq, Structural)]
pub enum ModelChecker {
    /// Option representing the TLC model checker.
    Tlc,
    /// Option representing the Apalache model checker.
    Apalache,
}

/// Configuration option to select the number of model checker workers.
#[derive(Clone, Copy, Debug, PartialEq, Eq, Structural)]
pub enum ModelCheckerWorkers {
    /// Automatically select the number of model checker worker threads based
    /// on the number of available cores.
    Auto,
    /// Number of model checker worker threads.
    Count(usize),
}

/// Set of options to select the model checker to be used and configure it.
#[derive(Clone, Debug)]
pub struct ModelCheckerRuntime {
    /// Which model checker to use.
    pub model_checker: ModelChecker,
    /// Number of model checker worker threads.
    pub workers: ModelCheckerWorkers,
    /// Model checker log file for debugging purposes.
    pub log: String,
    /// The maximum number of traces to try to generate for a single test.
    pub traces_per_test: usize,
}

/// The number of traces generated for a test unless the caller says otherwise.
pub const DEFAULT_TRACES_PER_TEST: usize = 1;

impl ModelCheckerRuntime {
    /// Set the model checker.
    pub fn model_checker(self, model_checker: ModelChecker) -> (out: Self)
        ensures
            out == (ModelCheckerRuntime { model_checker, ..self }),
    {
        let mut out = self;
        out.model_checker = model_checker;
        out
    }

    /// Set number of model checker workers.
    pub fn workers(self, workers: ModelCheckerWorkers) -> (out: Self)
        ensures
            out == (ModelCheckerRuntime { workers, ..self }),
    {
        let mut out = self;
        out.workers = workers;
        out
    }

    /// Set model checker log file.
    pub fn log(self, log: &str) -> (out: Self)
        ensures
            out.log@ == log@,
            out.model_checker == self.model_checker,
            out.workers == self.workers,
            out.traces_per_test == self.traces_per_test,
    {
        let mut out = self;
        out.log = log.to_owned();
        out
    }

    /// Set the maximum number of traces to try to generate for a single test.
    pub fn traces_per_test(self, n: usize) -> (out: Self)
        ensures
            out == (ModelCheckerRuntime { traces_per_test: n, ..self }),
    {
        let mut out = self;
        out.traces_per_test = n;
        out
    }
}

impl Default for ModelCheckerRuntime {
    fn default() -> (out: Self)
        ensures
            out.model_checker == ModelChecker::Apalache,
            out.workers == ModelCheckerWorkers::Auto,
            out.log@ == "mc.log"@,
            out.traces_per_test == DEFAULT_TRACES_PER_TEST,
    {
        ModelCheckerRuntime {
            model_checker: ModelChecker::Apalache,
            workers: ModelCheckerWorkers::Auto,
            log: "mc.log".to_owned(),
            traces_per_test: DEFAULT_TRACES_PER_TEST,
        }
    }
}


impl ModelChecker {
    /// The model checker that `s` names, whatever the case of its letters:
    /// `apalache` or `tlc`. Any other text gives
    /// [`Error::UnrecognizedChecker`] with the text in lower case.
    pub fn from_name(s: &str) -> (out: Result<Self, Error>)
        ensures
            ascii_lower(s@) == "apalache"@ ==> out == Ok::<Self, Error>(ModelChecker::Apalache),
            ascii_lower(s@) == "tlc"@ ==> out == Ok::<Self, Error>(ModelChecker::Tlc),
            ascii_lower(s@) != "apalache"@ && ascii_lower(s@) != "tlc"@ ==> (out matches Err(
                Error::UnrecognizedChecker(name),
            ) && name@ == ascii_lower(s@)),
    {
        let lower = to_ascii_lower(s);
        let name = string_of(&lower, 0, lower.len());
        assert(name@ == lower@);
        proof {
            reveal_strlit("apalache");
            reveal_strlit("tlc");
        }
        if same_text(name.as_str(), "apalache") {
            Ok(ModelChecker::Apalache)
        } else if same_text(name.as_str(), "tlc") {
            Ok(ModelChecker::Tlc)
        } else {
            Err(Error::UnrecognizedChecker(name))
        }
    }
}

/// Whether `out` is what the text `s` says of the model checker to use:
/// the model checker that `s` names, whatever the case of its letters, or
/// [`Error::UnrecognizedChecker`] with the text in lower case.
pub open spec fn names_checker(s: Seq<char>, out: Result<ModelChecker, Error>) -> bool {
    if ascii_lower(s) == "apalache"@ {
        out == Ok::<ModelChecker, Error>(ModelChecker::Apalache)
    } else if ascii_lower(s) == "tlc"@ {
        out == Ok::<ModelChecker, Error>(ModelChecker::Tlc)
    } else {
        out matches Err(Error::UnrecognizedChecker(name)) && name@ == ascii_lower(s)
    }
}

impl std::str::FromStr for ModelChecker {
    type Err = Error;

    /// The model checker that `s` names, whatever the case of its letters:
    /// `apalache` or `tlc`. Any other text gives
    /// [`Error::UnrecognizedChecker`] with the text in lower case.
    fn from_str(s: &str) -> (out: Result<Self, Error>)
        ensures
            names_checker(s@, out),
    {
        ModelChecker::from_name(s)
    }
}

impl ModelCheckerWorkers {
    /// The number of workers that `s` asks for: `auto`, or a number in
    /// decimal. Any other text gives a message that names it.
    pub fn from_name(s: &str) -> (out: Result<Self, String>)
        ensures
            s@ == "auto"@ ==> out == Ok::<Self, String>(ModelCheckerWorkers::Auto),
            s@ != "auto"@ ==> match parse_number(s@, usize::MAX as nat) {
                Some(n) => out == Ok::<Self, String>(ModelCheckerWorkers::Count(n as usize)),
                None => out matches Err(message) && message@ == "unsupported value "@
                    + debug_form(s@),
            },
    {
        if same_text(s, "auto") {
            return Ok(ModelCheckerWorkers::Auto);
        }
        let v = chars_of(s);
        assert(v@.subrange(0, v@.len() as int) == v@);
        match read_number(&v, 0, v.len(), usize::MAX) {
            Some(count) => Ok(ModelCheckerWorkers::Count(count)),
            None => Err(unsupported(s)),
        }
    }

    /// The number of workers as the model checker's command line takes
    /// it: `auto`, or the number in decimal.
    pub open spec fn spec_text(self) -> Seq<char> {
        match self {
            ModelCheckerWorkers::Auto => "auto"@,
            ModelCheckerWorkers::Count(count) => decimal(count as nat),
        }
    }

    /// The number of workers as the model checker's command line takes it.
    pub fn text(&self) -> (out: String)
        ensures
            out@ == self.spec_text(),
    {
        match self {
            ModelCheckerWorkers::Auto => "auto".to_owned(),
            ModelCheckerWorkers::Count(count) => decimal_string(*count),
        }
    }
}

/// Whether `out` is what the text `s` says of the number of workers:
/// `auto`, a number in decimal, or else a message that names the text.
pub open spec fn names_workers(s: Seq<char>, out: Result<ModelCheckerWorkers, String>) -> bool {
    if s == "auto"@ {
        out == Ok::<ModelCheckerWorkers, String>(ModelCheckerWorkers::Auto)
    } else {
        match parse_number(s, usize::MAX as nat) {
            Some(n) => out == Ok::<ModelCheckerWorkers, String>(
                ModelCheckerWorkers::Count(n as usize),
            ),
            None => out matches Err(message) && message@ == "unsupported value "@ + debug_form(s),
        }
    }
}

impl std::str::FromStr for ModelCheckerWorkers {
    type Err = String;

    /// The number of workers that `s` asks for: `auto`, or a number in
    /// decimal. Any other text gives a message that names it.
    fn from_str(s: &str) -> (out: Result<Self, String>)
        ensures
            names_workers(s@, out),
    {
        ModelCheckerWorkers::from_name(s)
    }
}

/// The number of workers that `runtime` asks for, as the command line of
/// TLC takes it.
pub fn workers(runtime: &ModelCheckerRuntime) -> (out: String)
    ensures
        out@ == runtime.workers.spec_text(),
{
    runtime.workers.text()
}

/// Set of options to configure the runtime.
#[derive(Clone, Debug)]
pub struct ModelatorRuntime {
    /// Model checker runtime.
    pub model_checker_runtime: ModelCheckerRuntime,
    /// The directory in which the cache and the model checkers are kept.
    pub dir: String,
}

impl ModelatorRuntime {
    /// A runtime for the directory `dir`, with the model checker's options
    /// as they are by default.
    pub fn new(dir: &str) -> (out: Self)
        ensures
            out.dir@ == dir@,
            out.model_checker_runtime.model_checker == ModelChecker::Apalache,
            out.model_checker_runtime.workers == ModelCheckerWorkers::Auto,
            out.model_checker_runtime.log@ == "mc.log"@,
            out.model_checker_runtime.traces_per_test == DEFAULT_TRACES_PER_TEST,
    {
        ModelatorRuntime { model_checker_runtime: ModelCheckerRuntime::default(), dir: dir.to_owned() }
    }

    /// Set the model checker runtime.
    pub fn model_checker_runtime(self, model_checker_runtime: ModelCheckerRuntime) -> (out: Self)
        ensures
            out == (ModelatorRuntime { model_checker_runtime, ..self }),
    {
        let mut out = self;
        out.model_checker_runtime = model_checker_runtime;
        out
    }

    /// Set the directory.
    pub fn dir(self, dir: &str) -> (out: Self)
        ensures
            out.dir@ == dir@,
            out.model_checker_runtime == self.model_checker_runtime,
    {
        let mut out = self;
        out.dir = dir.to_owned();
        out
    }
}

} // verus!
