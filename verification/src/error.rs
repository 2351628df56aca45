//! The errors that the library reports.

use vstd::prelude::*;
use crate::text::{concat2, debug_form, debug_of, decimal, push_decimal, push_str, string_of};

verus! {

/// Set of possible errors that can occur when running `modelator`.
#[derive(Debug, Clone, PartialEq, Eq)]
pub enum Error {
    /// An error that occurs when there's an IO error.
    IO(String),
    /// An error that occurs when invalid unicode is encountered.
    InvalidUnicode(String),
    /// An error that occurs when a TLA file does not have a module name.
    MissingTlaFileModuleName(String),
    /// An error that occurs when a file is not found.
    FileNotFound(String),
    /// An error that occurs when `Java` is not installed.
    MissingJava,
    /// An error that occurs when the version `Java` installed is too low:
    /// the current version, then the minimum version supported.
    MinimumJavaVersion(usize, usize),
    /// An error that occurs when a TLA+ file representing a set of tests
    /// contains no test.
    NoTestFound(String),
    /// An error that occurs when the model checker isn't able to generate a
    /// test trace; it holds the path of the model checker's log.
    NoTestTraceFound(String),
    /// An error that occurs when the output of the model checker is
    /// unexpected; it holds the path of the model checker's log.
    InvalidTLCOutput(String),
    /// An error that occurs when the output of TLC returns an error.
    TLCFailure(String),
    /// An error that occurs when the output of Apalache returns an error.
    ApalacheFailure(String),
    /// An error that occurs when the counterexample produced by Apalache is
    /// unexpected.
    InvalidApalacheCounterexample(String),
    /// An error that occurs when a cached value cannot be read back or a
    /// value cannot be written as JSON.
    SerdeJson(String),
    /// An error for unrecognized checker name.
    UnrecognizedChecker(String),
}


impl Error {
    /// What the error says, in words.
    pub open spec fn spec_message(self) -> Seq<char> {
        match self {
            Error::IO(e) => "IO error: "@ + e@,
            Error::InvalidUnicode(s) => "Invalid unicode: "@ + debug_form(s@),
            Error::MissingTlaFileModuleName(s) => "Unable to parse module name of: "@ + s@,
            Error::FileNotFound(p) => "File not found: "@ + p@,
            Error::MissingJava => "Missing Java. Please install it."@,
            Error::MinimumJavaVersion(current, minimum) => "Current Java version is: "@ + decimal(
                current as nat,
            ) + ". Minimum Java version supported is: "@ + decimal(minimum as nat),
            Error::NoTestFound(p) => "No test found in "@ + p@,
            Error::NoTestTraceFound(p) => "No trace found in "@ + p@,
            Error::InvalidTLCOutput(p) => "Invalid TLC output: "@ + p@,
            Error::TLCFailure(m) => "TLC failure: "@ + m@,
            Error::ApalacheFailure(m) => "Apalache failure: "@ + m@,
            Error::InvalidApalacheCounterexample(m) => "Invalid Apalache counterexample: "@ + m@,
            Error::SerdeJson(m) => "JSON parse error: "@ + m@,
            Error::UnrecognizedChecker(m) => "Unrecognized checker: "@ + m@,
        }
    }

    /// What the error says, in words.
    pub fn message(&self) -> (out: String)
        ensures
            out@ == self.spec_message(),
    {
        match self {
            Error::IO(e) => concat2("IO error: ", e.as_str()),
            Error::InvalidUnicode(s) => {
                let quoted = debug_of(s.as_str());
                concat2("Invalid unicode: ", quoted.as_str())
            },
            Error::MissingTlaFileModuleName(s) => concat2(
                "Unable to parse module name of: ",
                s.as_str(),
            ),
            Error::FileNotFound(p) => concat2("File not found: ", p.as_str()),
            Error::MissingJava => "Missing Java. Please install it.".to_owned(),
            Error::MinimumJavaVersion(current, minimum) => {
                let mut out: Vec<char> = Vec::new();
                push_str(&mut out, "Current Java version is: ");
                push_decimal(&mut out, *current as u128);
                push_str(&mut out, ". Minimum Java version supported is: ");
                push_decimal(&mut out, *minimum as u128);
                string_of(&out, 0, out.len())
            },
            Error::NoTestFound(p) => concat2("No test found in ", p.as_str()),
            Error::NoTestTraceFound(p) => concat2("No trace found in ", p.as_str()),
            Error::InvalidTLCOutput(p) => concat2("Invalid TLC output: ", p.as_str()),
            Error::TLCFailure(m) => concat2("TLC failure: ", m.as_str()),
            Error::ApalacheFailure(m) => concat2("Apalache failure: ", m.as_str()),
            Error::InvalidApalacheCounterexample(m) => concat2(
                "Invalid Apalache counterexample: ",
                m.as_str(),
            ),
            Error::SerdeJson(m) => concat2("JSON parse error: ", m.as_str()),
            Error::UnrecognizedChecker(m) => concat2("Unrecognized checker: ", m.as_str()),
        }
    }
}

} // verus!
