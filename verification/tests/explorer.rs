use modelator::artifact::TlaVariables;
use modelator::explorer::{
    explore_module_name, explored_state_tla_definition, explored_state_tla_definition_call,
    generate_explorer_config, generate_explorer_module, generate_history_module,
    history_entry_tla_definition, history_entry_tla_definition_call, known_next_states_set,
    ExplorerInvariant,
};

fn vars(names: &[&str]) -> TlaVariables {
    TlaVariables::new(names.iter().map(|n| n.to_string()).collect())
}

#[test]
fn variables_are_kept_once() {
    let v = vars(&["a", "b", "a", "c", "b"]);
    assert_eq!(
        v.vars(),
        &vec!["a".to_string(), "b".to_string(), "c".to_string()]
    );
}

#[test]
fn module_name_holds_the_timestamp() {
    assert_eq!(explore_module_name(0), "Explore_0");
    assert_eq!(explore_module_name(7), "Explore_7");
    assert_eq!(explore_module_name(1620000000123), "Explore_1620000000123");
    assert_eq!(
        explore_module_name(u128::MAX),
        "Explore_340282366920938463463374607431768211455"
    );
}

#[test]
fn invariant_names() {
    assert_eq!(ExplorerInvariant::Explore.name(), "Explore");
    assert_eq!(ExplorerInvariant::FindInitialState.name(), "FindInitialState");
}

#[test]
fn state_definition_and_call() {
    let v = vars(&["a", "b"]);
    assert_eq!(explored_state_tla_definition_call(&v), "ExploredState(a', b')");
    assert_eq!(
        explored_state_tla_definition(&v),
        "ExploredState(a_value, b_value) ==\n    [\n        a |-> a_value,\n        b |-> b_value\n    ]"
    );
    let none = vars(&[]);
    assert_eq!(explored_state_tla_definition_call(&none), "ExploredState()");
    assert_eq!(
        explored_state_tla_definition(&none),
        "ExploredState() ==\n    [\n        \n    ]"
    );
}

#[test]
fn known_states_set() {
    assert_eq!(known_next_states_set(None), "\n    {\n        \n    }");
    let known = vec!["[a |-> 1]".to_string(), "[a |-> 2]".to_string()];
    assert_eq!(
        known_next_states_set(Some(&known)),
        "\n    {\n        [a |-> 1],\n        [a |-> 2]\n    }"
    );
}

#[test]
fn explorer_config() {
    assert_eq!(
        generate_explorer_config("CONSTANT N = 3", ExplorerInvariant::Explore),
        "\nCONSTANT N = 3\nINIT InitExplore\nNEXT NextExplore\nINVARIANT Explore\n"
    );
    assert_eq!(
        generate_explorer_config("", ExplorerInvariant::FindInitialState),
        "\n\nINIT InitExplore\nNEXT NextExplore\nINVARIANT FindInitialState\n"
    );
}

#[test]
fn explorer_module() {
    let v = vars(&["a", "b"]);
    let known = vec!["[a |-> 1, b |-> 2]".to_string()];
    let module = generate_explorer_module("Numbers", &v, "/\\ a = 0 /\\ b = 0", Some(&known), 42);
    let expected = r#"
---------- MODULE Explore_42 ----------

EXTENDS Numbers

VARIABLE nextStates

\* declaration used to construct a representation of an explored TLA+ state
ExploredState(a_value, b_value) ==
    [
        a |-> a_value,
        b |-> b_value
    ]

\* init
InitExplore ==
    \* the TLA+ state from where we should start the exploration
    /\ a = 0 /\ b = 0
    \* the set of next states (initially empty)
    /\ nextStates = {}

\* next
NextExplore ==
    /\ Next
    \* save the next state
    /\ nextStates' = nextStates \union {ExploredState(a', b')}

\* invariant stating that `nextStates` is always empty; if we set the TLA+ state
\* from which we should start exploration to `Init`, because `nextStates` is set
\* to {} in `InitExplore` (i.e. the invariant is false), the model checker
\* will return a counterexample showing us the initial TLA+ state
FindInitialState ==
    /\ nextStates /= {}

\* set of known next TLA+ states (for a given TLA+ state) previously returned by
\* the model checker
KnownNextStates == 
    {
        [a |-> 1, b |-> 2]
    }

\* invariant stating that all `nextStates` must be already known (i.e. a subset
\* of `KnownNextStates`); if we don't have yet all next states, the model
\* checker will give us a new one
\* if the model checker finds a violation of this invariant where:
\* - `Len(nextStates) == 0`, then the start state has no next states
\* - `Len(nextStates) == 1`, then the state in the set is indeed a next
\* state of the start state
\* - `Len(nextStates) == 2`, then the model checker has already applied
\* `Next` two times, meaning that we have already retrieved all the next
\* states
Explore ==
    /\ nextStates \subseteq KnownNextStates

====================================
"#;
    assert_eq!(module, expected);
}

#[test]
fn history_module() {
    let v = vec!["a".to_string(), "b".to_string()];
    assert_eq!(history_entry_tla_definition_call(&v), "HistoryEntry(a, b)");
    assert_eq!(
        history_entry_tla_definition(&v),
        "\nHistoryEntry(a_value, b_value) ==\n    [\n        prev_a |-> a_value,\n\t\tprev_b |-> b_value\n    ]\n"
    );
    let expected = r#"
---------- MODULE Explore ----------

EXTENDS Numbers, Sequences

VARIABLE history


HistoryEntry(a_value, b_value) ==
    [
        prev_a |-> a_value,
		prev_b |-> b_value
    ]


History0 == <<
    HistoryEntry("undefined", "undefined")
>>

Explore ==
    /\ history \in {History0}

InitExplore ==
    /\ Init
    /\ history = History0

NextExplore ==
    /\ Next
    /\ history' = Append(history, HistoryEntry(a, b))

====================================
"#;
    assert_eq!(generate_history_module("Numbers", &v), expected);
}
