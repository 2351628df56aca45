use modelator::graph::NextStates;
use modelator::manifest::Artifact;
use modelator::report::TestResults;
use modelator::trace_log::{parse, parse_trace};
use modelator::{Error, ModelCheckerRuntime, TestError, TestReport, Trace};

fn s(text: &str) -> String {
    text.to_string()
}

fn failed() -> Result<(), TestError> {
    Err(TestError::UnhandledTest {
        test: s("t"),
        system: s("sut"),
    })
}

#[test]
fn test_reports() {
    let report = TestReport {
        tests: vec![
            TestResults { name: s("a"), results: vec![Ok(()), Ok(())] },
            TestResults { name: s("b"), results: vec![] },
            TestResults { name: s("c"), results: vec![Ok(()), failed()] },
        ],
    };
    assert!(!report.no_test_failed());
    assert_eq!(report.result_of_test("a"), Some(&vec![Ok(()), Ok(())]));
    assert_eq!(report.result_of_test("c"), Some(&vec![Ok(()), failed()]));
    assert_eq!(report.result_of_test("d"), None);
    assert_eq!(report.all().len(), 3);
    assert_eq!(report.all()[2], &vec![Ok(()), failed()]);
    assert_eq!(report.flat(), vec![&Ok(()), &Ok(()), &Ok(()), &failed()]);

    let fine = TestReport {
        tests: vec![TestResults { name: s("a"), results: vec![Ok(())] }],
    };
    assert!(fine.no_test_failed());
    assert!(TestReport { tests: vec![] }.no_test_failed());
}

#[test]
fn test_errors_take_the_text_of_the_test() {
    assert_eq!(
        failed().unwrap_err().with_test(s("x = 1")),
        TestError::UnhandledTest { test: s("x = 1"), system: s("sut") }
    );
    let failure = TestError::FailedTest {
        message: s("m"),
        location: s("l"),
        test: s("old"),
        system: s("sut"),
    };
    assert_eq!(
        failure.with_test(s("new")),
        TestError::FailedTest { message: s("m"), location: s("l"), test: s("new"), system: s("sut") }
    );
    assert_eq!(
        TestError::Modelator(Error::MissingJava).with_test(s("t")),
        TestError::Modelator(Error::MissingJava)
    );
}

#[test]
fn error_messages() {
    assert_eq!(Error::IO(s("disk full")).message(), "IO error: disk full");
    assert_eq!(
        Error::InvalidUnicode(s("a\"b")).message(),
        "Invalid unicode: \"a\\\"b\""
    );
    assert_eq!(
        Error::MissingTlaFileModuleName(s("x")).message(),
        "Unable to parse module name of: x"
    );
    assert_eq!(Error::FileNotFound(s("/x")).message(), "File not found: /x");
    assert_eq!(Error::MissingJava.message(), "Missing Java. Please install it.");
    assert_eq!(
        Error::MinimumJavaVersion(7, 8).message(),
        "Current Java version is: 7. Minimum Java version supported is: 8"
    );
    assert_eq!(Error::NoTestFound(s("T.tla")).message(), "No test found in T.tla");
    assert_eq!(Error::NoTestTraceFound(s("mc.log")).message(), "No trace found in mc.log");
    assert_eq!(Error::InvalidTLCOutput(s("mc.log")).message(), "Invalid TLC output: mc.log");
    assert_eq!(Error::TLCFailure(s("boom")).message(), "TLC failure: boom");
    assert_eq!(Error::ApalacheFailure(s("boom")).message(), "Apalache failure: boom");
    assert_eq!(
        Error::InvalidApalacheCounterexample(s("x")).message(),
        "Invalid Apalache counterexample: x"
    );
    assert_eq!(Error::SerdeJson(s("eof")).message(), "JSON parse error: eof");
    assert_eq!(
        Error::UnrecognizedChecker(s("spin")).message(),
        "Unrecognized checker: spin"
    );
}

#[test]
fn traces_as_text() {
    let mut trace = Trace::new();
    assert!(trace.is_empty());
    assert_eq!(trace.render(), "");
    trace.add(s("x = 1"));
    trace.add(s("x = 2"));
    assert!(!trace.is_empty());
    assert_eq!(trace.render(), "x = 1\n\nx = 2\n\n");
    assert_eq!(trace.text(), "x = 1\n\nx = 2\n\n");
}

#[test]
fn next_states_as_dot() {
    let mut next_states = NextStates::new();
    assert_eq!(next_states.dot(), Some(s("digraph {\n}\n")));
    next_states.add_next_state(s("a"), s("b"));
    let expected = r#"digraph {
    0 [ label = "\"\\\"a\\\"\"" ]
    1 [ label = "\"\\\"b\\\"\"" ]
    0 -> 1 [ ]
}
"#;
    assert_eq!(next_states.dot(), Some(s(expected)));

    next_states.add_next_state(s("a"), s("c"));
    next_states.add_next_state(s("b"), s("a"));
    next_states.add_next_state(s("c"), s("c"));
    let mut graph = petgraph::graph::Graph::<String, ()>::new();
    let a = graph.add_node(format!("{:?}", "a"));
    let b = graph.add_node(format!("{:?}", "b"));
    let c = graph.add_node(format!("{:?}", "c"));
    graph.add_edge(a, b, ());
    graph.add_edge(a, c, ());
    graph.add_edge(b, a, ());
    graph.add_edge(c, c, ());
    let config = [petgraph::dot::Config::EdgeNoLabel];
    assert_eq!(
        next_states.dot(),
        Some(format!("{:?}", petgraph::dot::Dot::with_config(&graph, &config)))
    );
}

fn lines(text: &str) -> Vec<Vec<char>> {
    text.lines().map(|l| l.chars().collect()).collect()
}

const LOG: &str = "@!@!@STARTMSG 2189:0 @!@!@
Computing initial states...
@!@!@ENDMSG 2189 @!@!@
@!@!@STARTMSG 2121:1 @!@!@
Invariant is violated.
@!@!@ENDMSG 2121 @!@!@
@!@!@STARTMSG 2217:4 @!@!@
1: <Initial predicate>
x = 0
@!@!@ENDMSG 2217 @!@!@
@!@!@STARTMSG 2217:4 @!@!@
2: <Next line 1>
x = 1
y = 2
@!@!@ENDMSG 2217 @!@!@
@!@!@STARTMSG 2200:0 @!@!@
done
@!@!@ENDMSG 2200 @!@!@
";

#[test]
fn traces_line_by_line() {
    let runtime = ModelCheckerRuntime::default().log("l.log");
    let mut expected = Trace::new();
    expected.add(s("x = 0\n"));
    expected.add(s("x = 1\ny = 2\n"));
    assert_eq!(parse(LOG, &runtime), Ok(vec![expected.clone()]));
    assert_eq!(
        parse_trace(&lines(LOG), 6, &runtime),
        Ok((Some(expected), 16))
    );
    assert_eq!(parse("", &runtime), Ok(vec![]));
    assert_eq!(parse("@!@!@ENDMSG 2121 @!@!@\n", &runtime), Ok(vec![]));
    assert_eq!(
        parse_trace(&lines("@!@!@STARTMSG 1:1 @!@!@"), 0, &runtime),
        Ok((None, 1))
    );
}

#[test]
fn broken_traces_line_by_line() {
    let runtime = ModelCheckerRuntime::default().log("l.log");
    // the lines break off inside the trace
    assert_eq!(
        parse("@!@!@ENDMSG 2189 @!@!@\n@!@!@ENDMSG 2121 @!@!@\n", &runtime),
        Err(Error::InvalidTLCOutput(s("l.log")))
    );
    let invalid = Err(Error::InvalidTLCOutput(s("l.log")));
    assert_eq!(parse_trace(&lines(""), 0, &runtime), invalid);
    assert_eq!(parse_trace(&lines("x"), 5, &runtime), invalid);
    // a line outside a state
    assert_eq!(parse_trace(&lines("x = 1\n@!@!@STARTMSG"), 0, &runtime), invalid);
    // a state's message closes without a state
    assert_eq!(
        parse_trace(&lines("@!@!@ENDMSG 2217 @!@!@\n@!@!@STARTMSG"), 0, &runtime),
        invalid
    );
    // a state begins inside another
    assert_eq!(
        parse_trace(
            &lines("@!@!@STARTMSG 2217:4 @!@!@\n1: a\n1: b\n@!@!@STARTMSG"),
            0,
            &runtime
        ),
        invalid
    );
}
