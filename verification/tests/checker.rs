use modelator::apalache::{
    apalache_cmd_start, apalache_start_cmd, check_cmd, parse_cmd, parsed_file_name, run_apalache,
    view_of, Apalache, ApalacheParseFormat, Declaration,
};
use modelator::artifact::{TlaConfigFile, TlaFile};
use modelator::checker::workers;
use modelator::counterexample::parse;
use modelator::text::{cmd_output_to_string, unsupported};
use modelator::tlc::{test_cmd, Tlc};
use modelator::{
    Error, ModelChecker, ModelCheckerRuntime, ModelCheckerWorkers, ModelatorRuntime, Trace,
};

fn s(text: &str) -> String {
    text.to_string()
}

fn strings(items: &[&str]) -> Vec<String> {
    items.iter().map(|i| i.to_string()).collect()
}

#[test]
fn runtime_builders() {
    let runtime = ModelCheckerRuntime::default();
    assert_eq!(runtime.model_checker, ModelChecker::Apalache);
    assert_eq!(runtime.workers, ModelCheckerWorkers::Auto);
    assert_eq!(runtime.log, "mc.log");
    assert_eq!(runtime.traces_per_test, 1);
    let runtime = runtime
        .model_checker(ModelChecker::Tlc)
        .workers(ModelCheckerWorkers::Count(4))
        .log("other.log")
        .traces_per_test(3);
    assert_eq!(runtime.model_checker, ModelChecker::Tlc);
    assert_eq!(runtime.workers, ModelCheckerWorkers::Count(4));
    assert_eq!(runtime.log, "other.log");
    assert_eq!(runtime.traces_per_test, 3);
    let modelator = ModelatorRuntime::new(".modelator")
        .model_checker_runtime(runtime)
        .dir("elsewhere");
    assert_eq!(modelator.dir, "elsewhere");
    assert_eq!(modelator.model_checker_runtime.log, "other.log");
}

#[test]
fn model_checker_names() {
    assert_eq!("tlc".parse::<ModelChecker>(), Ok(ModelChecker::Tlc));
    assert_eq!("TLC".parse::<ModelChecker>(), Ok(ModelChecker::Tlc));
    assert_eq!("Apalache".parse::<ModelChecker>(), Ok(ModelChecker::Apalache));
    assert_eq!(ModelChecker::from_name("apalache"), Ok(ModelChecker::Apalache));
    assert_eq!(
        ModelChecker::from_name("Spin"),
        Err(Error::UnrecognizedChecker(s("spin")))
    );
    assert_eq!(
        ModelChecker::from_name(""),
        Err(Error::UnrecognizedChecker(s("")))
    );
}

#[test]
fn worker_counts() {
    assert_eq!("auto".parse::<ModelCheckerWorkers>(), Ok(ModelCheckerWorkers::Auto));
    assert_eq!("4".parse::<ModelCheckerWorkers>(), Ok(ModelCheckerWorkers::Count(4)));
    assert_eq!("+12".parse::<ModelCheckerWorkers>(), Ok(ModelCheckerWorkers::Count(12)));
    assert_eq!(
        "Auto".parse::<ModelCheckerWorkers>(),
        Err(s("unsupported value \"Auto\""))
    );
    assert_eq!(
        "-1".parse::<ModelCheckerWorkers>(),
        Err(s("unsupported value \"-1\""))
    );
    assert_eq!(
        ModelCheckerWorkers::from_name(""),
        Err(s("unsupported value \"\""))
    );
    assert_eq!(unsupported("a\"b\n"), "unsupported value \"a\\\"b\\n\"");
    assert_eq!(ModelCheckerWorkers::Auto.text(), "auto");
    assert_eq!(ModelCheckerWorkers::Count(0).text(), "0");
    assert_eq!(
        workers(&ModelCheckerRuntime::default().workers(ModelCheckerWorkers::Count(16))),
        "16"
    );
    assert_eq!(workers(&ModelCheckerRuntime::default()), "auto");
}

#[test]
fn tlc_command() {
    let runtime = ModelCheckerRuntime::default().workers(ModelCheckerWorkers::Count(2));
    assert_eq!(
        test_cmd("/j/tla2tools.jar", "/j/CommunityModules.jar", "M.tla", "M.cfg", &runtime),
        strings(&[
            "-cp",
            "/j/tla2tools.jar:/j/CommunityModules.jar",
            "tlc2.TLC",
            "M.tla",
            "-config",
            "M.cfg",
            "-tool",
            "-workers",
            "2"
        ])
    );
}

#[test]
fn tlc_results() {
    let runtime = ModelatorRuntime::new("d")
        .model_checker_runtime(ModelCheckerRuntime::default().log("t.log"));
    let output = "@!@!@STARTMSG 2217:4 @!@!@\n1: <Initial predicate>\nx = 1\n@!@!@ENDMSG 2217 @!@!@\n";
    let mut trace = Trace::new();
    trace.add(s("x = 1\n"));
    assert_eq!(Tlc::test(output, "", &runtime), Ok(vec![trace]));
    assert_eq!(
        Tlc::test("no message\n", "", &runtime),
        Err(Error::NoTestTraceFound(s("t.log")))
    );
    assert_eq!(
        Tlc::test("", "java not found", &runtime),
        Err(Error::TLCFailure(s("java not found")))
    );
    assert_eq!(
        Tlc::test("", "", &runtime),
        Err(Error::InvalidTLCOutput(s("t.log")))
    );
    assert_eq!(
        Tlc::test(output, "warning", &runtime),
        Err(Error::InvalidTLCOutput(s("t.log")))
    );
    assert_eq!(
        Tlc::test("@!@!@STARTMSG 1:1 @!@!@\nboom\n@!@!@ENDMSG 1 @!@!@\n", "", &runtime),
        Err(Error::TLCFailure(s("[t.log:1]: boom")))
    );
}

#[test]
fn apalache_commands() {
    assert_eq!(
        apalache_start_cmd("/tmp/x", "/j/apalache.jar"),
        strings(&["-DTLA-Library=/tmp/x", "-jar", "-Djava.io.tmpdir=/tmp/x", "/j/apalache.jar"])
    );
    assert_eq!(
        apalache_cmd_start(Some("/m"), "/j/apalache.jar"),
        strings(&["-DTLA-Library=/m", "-jar", "/j/apalache.jar"])
    );
    assert_eq!(
        apalache_cmd_start(None, "/j/apalache.jar"),
        strings(&["-jar", "/j/apalache.jar"])
    );
    assert_eq!(
        check_cmd(strings(&["-jar", "a.jar"]), "M.tla", "M.cfg", 3, &Some(s("View"))),
        strings(&[
            "-jar",
            "a.jar",
            "check",
            "--config=M.cfg",
            "--max-error=3",
            "--algo=offline",
            "--view=View",
            "M.tla"
        ])
    );
    assert_eq!(
        check_cmd(vec![], "M.tla", "M.cfg", 10, &None),
        strings(&["check", "--config=M.cfg", "--max-error=10", "--algo=offline", "M.tla"])
    );
    assert_eq!(
        modelator::apalache::test_cmd(vec![], "M.tla", "M.cfg"),
        strings(&["check", "--config=M.cfg", "M.tla"])
    );
    assert_eq!(
        parse_cmd(strings(&["x"]), "M.tla", "MParsed.tla"),
        strings(&["x", "parse", "--output=MParsed.tla", "M.tla"])
    );
    assert_eq!(parsed_file_name("M", ApalacheParseFormat::Tla), "MParsed.tla");
    assert_eq!(parsed_file_name("M", ApalacheParseFormat::Json), "MParsed.json");
    assert_eq!(ApalacheParseFormat::Json.name(), "json");
    assert_eq!(view_of("A == 1\nViewForTestNeg == <<x>>\n"), Some(s("ViewForTestNeg")));
    assert_eq!(view_of("ViewForTestNe"), None);
}

#[test]
fn apalache_results() {
    let runtime = ModelatorRuntime::new("d")
        .model_checker_runtime(ModelCheckerRuntime::default().log("a.log"));
    assert_eq!(
        run_apalache("checking\nEXITCODE: OK\n", "", &runtime),
        Ok(s("checking\nEXITCODE: OK\n"))
    );
    assert_eq!(
        run_apalache("EXITCODE: ERROR (99)\nEXITCODE: OK", "", &runtime),
        Err(Error::ApalacheFailure(s("EXITCODE: ERROR (99)\nEXITCODE: OK")))
    );
    assert_eq!(
        run_apalache("no exit code", "", &runtime),
        Err(Error::InvalidTLCOutput(s("a.log")))
    );
    assert_eq!(
        run_apalache("", "", &runtime),
        Err(Error::InvalidTLCOutput(s("a.log")))
    );
    assert_eq!(
        run_apalache("EXITCODE: OK", "something", &runtime),
        Err(Error::InvalidTLCOutput(s("a.log")))
    );
    let file = TlaFile::new(s("/m/Numbers.tla"), s("/m"), s("Numbers.tla"), s("text"));
    assert_eq!(
        Apalache::parse(&file, "EXITCODE: OK", "", &runtime),
        Ok(s("NumbersParsed.tla"))
    );
    assert_eq!(
        Apalache::parse(&file, "EXITCODE: ERROR", "", &runtime),
        Err(Error::ApalacheFailure(s("EXITCODE: ERROR")))
    );
}

#[test]
fn apalache_variables() {
    let declarations = vec![
        Declaration { variable: None },
        Declaration { variable: Some(s("a")) },
        Declaration { variable: Some(s("b")) },
        Declaration { variable: None },
        Declaration { variable: Some(s("a")) },
    ];
    let vars = Apalache::tla_variables(&declarations);
    assert_eq!(vars.vars(), &strings(&["a", "b"]));
}

#[test]
fn tla_files() {
    let file = TlaFile::new(s("/m/Numbers.tla"), s("/m"), s("Numbers.tla"), s("text"));
    assert_eq!(file.path(), "/m/Numbers.tla");
    assert_eq!(file.dir(), "/m");
    assert_eq!(file.tla_module_name(), "Numbers");
    assert_eq!(file.file_contents_backing(), "text");
    let odd = TlaFile::new(s("x.tla.tla"), s(""), s("x.tla.tla"), s(""));
    assert_eq!(odd.tla_module_name(), "x");
    let none = TlaFile::new(s("x.cfg"), s(""), s("x.cfg"), s(""));
    assert_eq!(none.tla_module_name(), "x.cfg");
    let mut config = TlaConfigFile::new(s("/m/Numbers.cfg"), s("INIT Init"));
    assert_eq!(config.path(), "/m/Numbers.cfg");
    assert_eq!(config.content(), "INIT Init");
    config.set_path(s("Test.cfg"));
    assert_eq!(config.path(), "Test.cfg");
}

#[test]
fn command_output_as_text() {
    assert_eq!(cmd_output_to_string(b"hello"), "hello");
    assert_eq!(cmd_output_to_string(&[0x68, 0xff, 0x69]), "h\u{fffd}i");
}

const COUNTEREXAMPLE: &str = "------------------------- MODULE counterexample -------------------------

EXTENDS NumbersTest

(* Initial state *)

State1 ==
TRUE
(* Transition 0 to State2 *)

State2 ==
/\\ a = 0
/\\ b = 0
(* Transition 1 to State3 *)

State3 == /\\ a = 1
/\\ b = 0

(* The following formula holds true in the last state and violates the invariant *)

InvariantViolation == a = 1

================================================================================
\\* Created by Apalache
";

#[test]
fn counterexample_steps_make_one_trace() {
    let mut expected = Trace::new();
    expected.add(s("TRUE\n"));
    expected.add(s("/\\ a = 0\n/\\ b = 0\n"));
    expected.add(s(" /\\ a = 1\n/\\ b = 0\n"));
    assert_eq!(parse(COUNTEREXAMPLE), Ok(expected.clone()));
    assert_eq!(Apalache::test(COUNTEREXAMPLE), Ok(expected));
}

#[test]
fn counterexample_without_steps_is_invalid() {
    let text = "---- MODULE counterexample ----\n\nStateX ==\nTRUE\n====\n";
    assert_eq!(
        parse(text),
        Err(Error::InvalidApalacheCounterexample(s(text)))
    );
    assert_eq!(parse(""), Err(Error::InvalidApalacheCounterexample(s(""))));
    let empty_step = "State1 ==\n\nState2 ==\nTRUE\n";
    assert_eq!(
        parse(empty_step),
        Err(Error::InvalidApalacheCounterexample(s(empty_step)))
    );
    let last_empty = "State1 ==\nTRUE\nState2 ==";
    assert_eq!(
        parse(last_empty),
        Err(Error::InvalidApalacheCounterexample(s(last_empty)))
    );
}

#[test]
fn counterexample_step_ends_at_the_end_of_the_file() {
    let mut expected = Trace::new();
    expected.add(s("x = 1\ny = 2\n"));
    assert_eq!(parse("State12 ==\nx = 1\ny = 2"), Ok(expected));
}
