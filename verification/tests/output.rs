use modelator::output::{extract_traces, parse_stream, parse_traces, Message, ParsedMessageStream};
use modelator::{Error, ModelCheckerRuntime, Trace};

fn runtime() -> ModelCheckerRuntime {
    ModelCheckerRuntime::default().log("tlc.log")
}

fn trace(states: &[&str]) -> Trace {
    let mut trace = Trace::new();
    for state in states {
        trace.add(state.to_string());
    }
    trace
}

fn message(class: u8, code: usize, body: &str) -> Message {
    Message {
        class,
        code,
        body: body.to_string(),
    }
}

const TWO_TRACES: &str = "@!@!@STARTMSG 2262:0 @!@!@
TLC2 Version 2.16
@!@!@ENDMSG 2262 @!@!@
@!@!@STARTMSG 2217:4 @!@!@
1: <Initial predicate>
/\\ a = 0
/\\ b = 0
@!@!@ENDMSG 2217 @!@!@
@!@!@STARTMSG 2217:4 @!@!@
2: <IncreaseA line 10, col 5 to line 12, col 20 of module Numbers>
/\\ a = 1
/\\ b = 0
@!@!@ENDMSG 2217 @!@!@
@!@!@STARTMSG 2217:4 @!@!@
1: <Initial predicate>
/\\ a = 5
@!@!@ENDMSG 2217 @!@!@
";

#[test]
fn two_initial_predicates_give_two_traces() {
    let traces = parse_traces(TWO_TRACES, &runtime()).unwrap();
    assert_eq!(
        traces,
        vec![
            trace(&["/\\ a = 0\n/\\ b = 0\n", "/\\ a = 1\n/\\ b = 0\n"]),
            trace(&["/\\ a = 5\n"]),
        ]
    );
    assert_eq!(traces[0].states.len(), 2);
    assert_eq!(traces[1].states.len(), 1);
}

#[test]
fn states_win_over_errors() {
    let output = "@!@!@STARTMSG 1000:1 @!@!@
an error
@!@!@ENDMSG 1000 @!@!@
@!@!@STARTMSG 2217:4 @!@!@
1: <Initial predicate>
x = 1
@!@!@ENDMSG 2217 @!@!@
";
    assert_eq!(
        parse_traces(output, &runtime()),
        Ok(vec![trace(&["x = 1\n"])])
    );
}

#[test]
fn states_before_the_first_initial_predicate_belong_to_no_trace() {
    let output = "@!@!@STARTMSG 2217:4 @!@!@
2: <Next>
x = 1
@!@!@ENDMSG 2217 @!@!@
";
    assert_eq!(parse_traces(output, &runtime()), Ok(vec![]));
}

#[test]
fn only_errors_give_a_failure_with_every_body() {
    let output = "@!@!@STARTMSG 2262:0 @!@!@
TLC2
@!@!@ENDMSG 2262 @!@!@
@!@!@STARTMSG 1000:1 @!@!@
  first error
on two lines
@!@!@ENDMSG 1000 @!@!@
@!@!@STARTMSG 2110:1 @!@!@
second error
@!@!@ENDMSG 2110 @!@!@
@!@!@STARTMSG 1000:1 @!@!@
third error
@!@!@ENDMSG 1000 @!@!@
";
    let result = parse_traces(output, &runtime());
    assert_eq!(
        result,
        Err(Error::TLCFailure(
            "[tlc.log:1000]: first error on two lines third error\n[tlc.log:2110]: second error"
                .to_string()
        ))
    );
    if let Err(Error::TLCFailure(message)) = result {
        assert!(message.contains("first error on two lines"));
        assert!(message.contains("second error"));
        assert!(message.contains("third error"));
    }
}

#[test]
fn neither_states_nor_errors_give_no_trace() {
    let output = "@!@!@STARTMSG 2262:0 @!@!@
TLC2 Version 2.16
@!@!@ENDMSG 2262 @!@!@
@!@!@STARTMSG 2193:0 @!@!@
Model checking completed. No error has been found.
@!@!@ENDMSG 2193 @!@!@
";
    assert_eq!(parse_traces(output, &runtime()), Ok(vec![]));
    assert_eq!(parse_traces("", &runtime()), Ok(vec![]));
    assert_eq!(parse_traces("free text\n", &runtime()), Ok(vec![]));
}

#[test]
fn mismatched_codes_are_invalid() {
    let output = "@!@!@STARTMSG 2217:4 @!@!@
1: <Initial predicate>
x = 1
@!@!@ENDMSG 2218 @!@!@
";
    assert_eq!(
        parse_traces(output, &runtime()),
        Err(Error::InvalidTLCOutput("tlc.log".to_string()))
    );
    assert_eq!(parse_stream(output), None);
}

#[test]
fn unterminated_message_is_invalid() {
    let output = "@!@!@STARTMSG 2217:4 @!@!@\n1: <Initial predicate>\nx = 1\n";
    assert_eq!(
        parse_traces(output, &runtime()),
        Err(Error::InvalidTLCOutput("tlc.log".to_string()))
    );
}

#[test]
fn nested_message_is_invalid() {
    let output = "@!@!@STARTMSG 1:1 @!@!@\n@!@!@STARTMSG 2:1 @!@!@\n@!@!@ENDMSG 2 @!@!@\n";
    assert_eq!(parse_stream(output), None);
}

#[test]
fn end_without_start_is_invalid() {
    assert_eq!(parse_stream("@!@!@ENDMSG 0 @!@!@\n"), None);
}

#[test]
fn malformed_headers_are_invalid() {
    assert_eq!(parse_stream("@!@!@STARTMSG 2217 @!@!@\n"), None);
    assert_eq!(parse_stream("@!@!@STARTMSG abc:4 @!@!@\n"), None);
    assert_eq!(parse_stream("@!@!@STARTMSG 2217:256 @!@!@\n"), None);
    assert_eq!(parse_stream("@!@!@STARTMSG :4 @!@!@\n"), None);
    assert_eq!(
        parse_stream("@!@!@STARTMSG 2217:4 @!@!@\n@!@!@ENDMSG x @!@!@\n"),
        None
    );
    assert_eq!(
        parse_stream("@!@!@STARTMSG 99999999999999999999999999:4 @!@!@\n"),
        None
    );
}

#[test]
fn bodies_keep_their_lines() {
    let output = "before\n@!@!@STARTMSG 2185:0 @!@!@\r\nline one\r\n\nline three\n@!@!@ENDMSG 2185 @!@!@\nafter";
    assert_eq!(
        parse_stream(output),
        Some(ParsedMessageStream {
            messages: vec![
                message(0, 0, "before\n"),
                message(0, 2185, "line one\n\nline three\n"),
            ]
        })
    );
}

#[test]
fn header_numbers_may_carry_a_plus_sign_and_zeros() {
    let output = "@!@!@STARTMSG +007:04 @!@!@\nx\n@!@!@ENDMSG 7 @!@!@\n";
    assert_eq!(
        parse_stream(output),
        Some(ParsedMessageStream {
            messages: vec![message(0, 0, ""), message(4, 7, "x\n")]
        })
    );
}

#[test]
fn extraction_from_messages() {
    let stream = ParsedMessageStream {
        messages: vec![
            message(4, 2217, "1: <Initial predicate>\ns0\n"),
            message(4, 2217, "2: <Next>\ns1\n"),
            message(4, 2217, ""),
            message(4, 2218, "1: <Initial predicate>\nnot a state\n"),
        ],
    };
    assert_eq!(
        extract_traces(&stream, &runtime()),
        Ok(vec![trace(&["s0\n", "s1\n", ""])])
    );
}

#[test]
fn failure_message_flattens_each_body() {
    let stream = ParsedMessageStream {
        messages: vec![message(1, 2, "\n  a\nb \n\n"), message(1, 2, "c")],
    };
    assert_eq!(
        extract_traces(&stream, &ModelCheckerRuntime::default()),
        Err(Error::TLCFailure("[mc.log:2]: a b c".to_string()))
    );
}
