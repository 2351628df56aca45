use modelator::artifact::TlaVariables;
use modelator::explorer::{generate_explorer_config, generate_explorer_module, ExplorerInvariant};
use modelator::graph::NextStates;
use modelator::session::{
    bootstrap_query, second_state, NextStatesCached, Step, TlaAndJsonState, TlaNextStates,
};
use modelator::{Error, ModelCheckerRuntime, Trace};

fn vars() -> TlaVariables {
    TlaVariables::new(vec!["x".to_string()])
}

fn trace(states: &[&str]) -> Trace {
    let mut trace = Trace::new();
    for state in states {
        trace.add(state.to_string());
    }
    trace
}

fn session(known: &[&str]) -> NextStatesCached {
    let mut next_states = NextStates::new();
    for state in known {
        next_states.add_next_state("x = 0".to_string(), state.to_string());
    }
    NextStatesCached {
        vars: vars(),
        initial_state: TlaAndJsonState::new("x = 0".to_string(), "{\"x\":0}".to_string()),
        next_states,
    }
}

#[test]
fn known_states_answer_without_a_query() {
    let s = session(&["s1", "s2"]);
    assert_eq!(
        s.next_step("M", "", Some("x = 0"), 2, 0, 1),
        Step::Answer(vec!["s1".to_string(), "s2".to_string()])
    );
    assert_eq!(
        s.next_step("M", "", None, 1, 1, 1),
        Step::Answer(vec!["s2".to_string()])
    );
    assert_eq!(s.next_step("M", "", None, 0, 2, 1), Step::Answer(vec![]));
    assert_eq!(
        s.next_step("M", "", Some("unknown"), 0, 0, 1),
        Step::Answer(vec![])
    );
}

#[test]
fn one_state_more_takes_one_query() {
    let runtime = ModelCheckerRuntime::default();
    let mut s = session(&["s1", "s2"]);
    let known = vec!["s1".to_string(), "s2".to_string()];
    let mut queries = 0;
    let answer = loop {
        match s.next_step("M", "CONSTANT N = 1", Some("x = 0"), 3, 0, 99) {
            Step::Answer(states) => break states,
            Step::Explore(query) => {
                queries += 1;
                assert_eq!(query.name, "Explore_99");
                assert_eq!(
                    query.module,
                    generate_explorer_module("M", &vars(), "x = 0", Some(&known), 99)
                );
                assert_eq!(
                    query.config,
                    generate_explorer_config("CONSTANT N = 1", ExplorerInvariant::Explore)
                );
                let found = vec![trace(&["x = 0", "s3"])];
                assert_eq!(s.absorb(Some("x = 0"), 0, &found, &runtime), Ok(None));
            }
        }
    };
    assert_eq!(queries, 1);
    assert_eq!(
        answer,
        vec!["s1".to_string(), "s2".to_string(), "s3".to_string()]
    );
}

#[test]
fn tlc_decides_as_the_session_does() {
    let s = session(&["s1", "s2"]);
    assert_eq!(
        modelator::tlc::Tlc::next_states(&s, "M", "", None, 2, 0, 1),
        Step::Answer(vec!["s1".to_string(), "s2".to_string()])
    );
    assert_eq!(
        modelator::tlc::Tlc::next_states(&s, "M", "c", None, 3, 0, 1),
        s.next_step("M", "c", None, 3, 0, 1)
    );
}

#[test]
fn no_violation_means_exhaustion() {
    let runtime = ModelCheckerRuntime::default();
    let mut s = session(&["s1", "s2"]);
    assert_eq!(
        s.absorb(None, 1, &vec![], &runtime),
        Ok(Some(vec!["s2".to_string()]))
    );
    assert_eq!(s.absorb(None, 5, &vec![], &runtime), Ok(Some(vec![])));
    assert_eq!(
        s.absorb(Some("other"), 0, &vec![], &runtime),
        Ok(Some(vec![]))
    );
}

#[test]
fn unexpected_traces_are_refused() {
    let runtime = ModelCheckerRuntime::default().log("x.log");
    let mut s = session(&["s1"]);
    assert_eq!(
        s.absorb(None, 0, &vec![trace(&["x = 0"])], &runtime),
        Err(Error::InvalidTLCOutput("x.log".to_string()))
    );
    assert_eq!(
        s.absorb(None, 0, &vec![trace(&["x = 0", "s1"])], &runtime),
        Err(Error::InvalidTLCOutput("x.log".to_string()))
    );
    assert_eq!(
        s.next_states.get_next_states(&"x = 0".to_string()),
        Some(&vec!["s1".to_string()])
    );
}

#[test]
fn bootstrap() {
    let runtime = ModelCheckerRuntime::default();
    let query = bootstrap_query("M", &vars(), "cfg", 5);
    assert_eq!(query.name, "Explore_5");
    assert_eq!(
        query.module,
        generate_explorer_module("M", &vars(), "/\\ Init", None, 5)
    );
    assert_eq!(
        query.config,
        generate_explorer_config("cfg", ExplorerInvariant::FindInitialState)
    );
    let found = trace(&["first", "second", "third"]);
    assert_eq!(second_state(&found), Some("second".to_string()));
    assert_eq!(second_state(&trace(&["first"])), None);
    let s = NextStatesCached::start(vars(), &found, "{}".to_string(), &runtime)
        .ok()
        .unwrap();
    assert_eq!(s.initial_state.tla_state, "second");
    assert_eq!(s.initial_state.json_state, "{}");
    assert_eq!(s.start_state(None), "second");
    assert_eq!(s.start_state(Some("other")), "other");
    assert!(s.next_states.states().is_empty());
    assert!(
        NextStatesCached::start(vars(), &trace(&["first"]), "{}".to_string(), &runtime).is_err()
    );
}

#[test]
fn next_states_list() {
    let mut list = TlaNextStates::new();
    list.add(TlaAndJsonState::new("a".to_string(), "1".to_string()));
    list.add(TlaAndJsonState::new("b".to_string(), "2".to_string()));
    assert_eq!(list.tla_next_states.len(), 2);
    assert_eq!(list.tla_next_states[1].tla_state, "b");
}
