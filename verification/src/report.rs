//! The results of running tests against the traces of a model.

use vstd::prelude::*;
use crate::text::same_text;
use crate::error::Error;

verus! {

/// Set of possible errors that can occur when running a test.
#[derive(Debug, Clone, PartialEq, Eq)]
pub enum TestError {
    /// An error of the library.
    Modelator(Error),
    /// An error that occurs when nothing handles a test.
    UnhandledTest {
        /// Test content
        test: String,
        /// System under test
        system: String,
    },
    /// An error that occurs when a test fails.
    FailedTest {
        /// Failure message.
        message: String,
        /// Failure location.
        location: String,
        /// Test content
        test: String,
        /// System under test
        system: String,
    },
}

impl TestError {
    /// The error with `test` for the content of the test, where the error
    /// holds one; an error of the library stays as it is.
    pub fn with_test(self, test: String) -> (out: Self)
        ensures
            out == match self {
                TestError::Modelator(e) => TestError::Modelator(e),
                TestError::UnhandledTest { test: _, system } => TestError::UnhandledTest {
                    test,
                    system,
                },
                TestError::FailedTest { message, location, test: _, system } => TestError::FailedTest {
                    message,
                    location,
                    test,
                    system,
                },
            },
    {
        match self {
            TestError::Modelator(e) => TestError::Modelator(e),
            TestError::UnhandledTest { test: _, system } => TestError::UnhandledTest {
                test,
                system,
            },
            TestError::FailedTest { message, location, test: _, system } => TestError::FailedTest {
                message,
                location,
                test,
                system,
            },
        }
    }
}

/// The results of one test: one result for each of its traces.
#[derive(Debug, Clone, PartialEq, Eq)]
pub struct TestResults {
    /// The name of the test.
    pub name: String,
    /// The result of running each trace of the test.
    pub results: Vec<Result<(), TestError>>,
}

/// Wraps the data from running test(s), allowing more convenient access to
/// the results.
#[derive(Debug, Clone, PartialEq, Eq)]
pub struct TestReport {
    /// The results of the tests, test by test.
    pub tests: Vec<TestResults>,
}

/// Whether no result of `results` is an error.
pub open spec fn all_ok(results: Seq<Result<(), TestError>>) -> bool {
    forall|j: int| 0 <= j < results.len() ==> (#[trigger] results[j]) is Ok
}

/// The results of `tests`, one test behind the other.
pub open spec fn all_results(tests: Seq<TestResults>) -> Seq<Result<(), TestError>>
    decreases tests.len(),
{
    if tests.len() == 0 {
        Seq::empty()
    } else {
        all_results(tests.drop_last()) + tests.last().results@
    }
}

/// What a vector of references refers to.
pub open spec fn referred<T>(v: Seq<&T>) -> Seq<T> {
    v.map_values(|r: &T| *r)
}

impl TestReport {
    /// Returns true iff no test failed
    pub fn no_test_failed(&self) -> (b: bool)
        ensures
            b == forall|i: int|
                0 <= i < self.tests.len() ==> all_ok((#[trigger] self.tests[i]).results@),
    {
        let mut i: usize = 0;
        while i < self.tests.len()
            invariant
                i <= self.tests.len(),
                forall|k: int| 0 <= k < i ==> all_ok((#[trigger] self.tests[k]).results@),
            decreases self.tests.len() - i,
        {
            let results = &self.tests[i].results;
            let mut j: usize = 0;
            while j < results.len()
                invariant
                    j <= results.len(),
                    i < self.tests.len(),
                    results == self.tests[i as int].results,
                    forall|k: int| 0 <= k < j ==> (#[trigger] results@[k]) is Ok,
                decreases results.len() - j,
            {
                if results[j].is_err() {
                    assert(!all_ok(self.tests[i as int].results@));
                    return false;
                }
                j += 1;
            }
            i += 1;
        }
        true
    }

    /// Get the vector of results from running counterexample(s) for a
    /// single test: those of the first test of the name `name`.
    pub fn result_of_test(&self, name: &str) -> (out: Option<&Vec<Result<(), TestError>>>)
        ensures
            match out {
                Some(results) => exists|i: int|
                    {
                        &&& 0 <= i < self.tests.len()
                        &&& (#[trigger] self.tests[i]).name@ == name@
                        &&& *results == self.tests[i].results
                        &&& forall|k: int| 0 <= k < i ==> (#[trigger] self.tests[k]).name@ != name@
                    },
                None => forall|i: int|
                    0 <= i < self.tests.len() ==> (#[trigger] self.tests[i]).name@ != name@,
            },
    {
        let mut i: usize = 0;
        while i < self.tests.len()
            invariant
                i <= self.tests.len(),
                forall|k: int| 0 <= k < i ==> (#[trigger] self.tests[k]).name@ != name@,
            decreases self.tests.len() - i,
        {
            if same_text(self.tests[i].name.as_str(), name) {
                return Some(&self.tests[i].results);
            }
            i += 1;
        }
        None
    }

    /// Returns the vector containing the results for each test
    pub fn all(&self) -> (out: Vec<&Vec<Result<(), TestError>>>)
        ensures
            out.len() == self.tests.len(),
            forall|i: int| 0 <= i < out.len() ==> *(#[trigger] out[i]) == self.tests[i].results,
    {
        let mut out: Vec<&Vec<Result<(), TestError>>> = Vec::new();
        let mut i: usize = 0;
        while i < self.tests.len()
            invariant
                i <= self.tests.len(),
                out.len() == i,
                forall|k: int| 0 <= k < i ==> *(#[trigger] out[k]) == self.tests[k].results,
            decreases self.tests.len() - i,
        {
            out.push(&self.tests[i].results);
            i += 1;
        }
        out
    }

    /// Returns the concatenation of the vectors containing the results for
    /// each test
    pub fn flat(&self) -> (out: Vec<&Result<(), TestError>>)
        ensures
            referred(out@) == all_results(self.tests@),
    {
        let mut out: Vec<&Result<(), TestError>> = Vec::new();
        let mut i: usize = 0;
        proof {
            assert(self.tests@.take(0) =~= Seq::<TestResults>::empty());
            assert(referred(out@) =~= Seq::<Result<(), TestError>>::empty());
        }
        while i < self.tests.len()
            invariant
                i <= self.tests.len(),
                referred(out@) == all_results(self.tests@.take(i as int)),
            decreases self.tests.len() - i,
        {
            let results = &self.tests[i].results;
            let ghost before = referred(out@);
            let mut j: usize = 0;
            assert(before + results@.take(0) =~= before);
            while j < results.len()
                invariant
                    j <= results.len(),
                    referred(out@) == before + results@.take(j as int),
                decreases results.len() - j,
            {
                let ghost so_far = referred(out@);
                out.push(&results[j]);
                assert(referred(out@) =~= so_far.push(results@[j as int]));
                assert(referred(out@) =~= before + results@.take(j + 1));
                j += 1;
            }
            proof {
                assert(results@.take(results@.len() as int) == results@);
                assert(self.tests@.take(i + 1).drop_last() == self.tests@.take(i as int));
                assert(self.tests@.take(i + 1).last() == self.tests@[i as int]);
            }
            i += 1;
        }
        assert(self.tests@.take(self.tests@.len() as int) == self.tests@);
        out
    }
}

} // verus!
