//! The text of the queries with which the model checker is made to reveal
//! one state: a module that extends the model with a variable that records
//! the next states reached, and two invariants; and a configuration that
//! names one of them.
//!
//! `FindInitialState` says that a next state was recorded. `Explore` says
//! that every next state recorded is among those known.

use vstd::prelude::*;
use crate::artifact::TlaVariables;
use crate::text::{decimal, decorated, join, push_decimal, push_joined, push_str, string_of, strs};

verus! {

/// The invariant that a query asks the model checker to check.
#[derive(Clone, Copy, Debug, PartialEq, Eq, Structural)]
pub enum ExplorerInvariant {
    /// Violated when a next state is recorded that is not known yet.
    Explore,
    /// Violated as soon as a state is reached from the initial predicate.
    FindInitialState,
}

impl ExplorerInvariant {
    /// The invariant's name, as the queries write it.
    pub open spec fn spec_name(self) -> Seq<char> {
        match self {
            ExplorerInvariant::Explore => "Explore"@,
            ExplorerInvariant::FindInitialState => "FindInitialState"@,
        }
    }

    /// The invariant's name, as the queries write it.
    pub fn name(&self) -> (out: &'static str)
        ensures
            out@ == self.spec_name(),
    {
        match self {
            ExplorerInvariant::Explore => "Explore",
            ExplorerInvariant::FindInitialState => "FindInitialState",
        }
    }
}

/// The name of the module of the query made at `timestamp`.
pub open spec fn module_name(timestamp: u128) -> Seq<char> {
    "Explore_"@ + decimal(timestamp as nat)
}

/// The name of the module of the query made at `timestamp`: no two queries
/// made at different times share it.
pub fn explore_module_name(timestamp: u128) -> (out: String)
    ensures
        out@ == module_name(timestamp),
{
    let mut out: Vec<char> = Vec::new();
    push_str(&mut out, "Explore_");
    push_decimal(&mut out, timestamp);
    string_of(&out, 0, out.len())
}

/// The operator call that builds the record of the state reached: each
/// variable, primed.
pub open spec fn state_call(vars: Seq<Seq<char>>) -> Seq<char> {
    "ExploredState("@ + join(
        vars.map_values(|v: Seq<char>| decorated(v, Seq::empty(), None, "'"@)),
        ", "@,
    ) + ")"@
}

/// The operator call that builds the record of the state reached.
pub fn explored_state_tla_definition_call(tla_variables: &TlaVariables) -> (out: String)
    ensures
        out@ == state_call(tla_variables@),
{
    let mut out: Vec<char> = Vec::new();
    push_str(&mut out, "ExploredState(");
    push_joined(&mut out, tla_variables.vars(), "", None, "'", ", ");
    push_str(&mut out, ")");
    proof {
        reveal_strlit("");
        assert(""@ =~= Seq::<char>::empty());
    }
    string_of(&out, 0, out.len())
}


/// The definition of the operator that builds the record of a state: one
/// parameter and one field for each variable.
pub open spec fn state_definition(vars: Seq<Seq<char>>) -> Seq<char> {
    "ExploredState("@ + join(
        vars.map_values(|v: Seq<char>| decorated(v, Seq::empty(), None, "_value"@)),
        ", "@,
    ) + ") ==\n    [\n        "@ + join(
        vars.map_values(|v: Seq<char>| decorated(v, Seq::empty(), Some(" |-> "@), "_value"@)),
        ",\n        "@,
    ) + "\n    ]"@
}

/// The definition of the operator that builds the record of a state.
pub fn explored_state_tla_definition(tla_variables: &TlaVariables) -> (out: String)
    ensures
        out@ == state_definition(tla_variables@),
{
    let mut out: Vec<char> = Vec::new();
    push_str(&mut out, "ExploredState(");
    push_joined(&mut out, tla_variables.vars(), "", None, "_value", ", ");
    push_str(&mut out, ") ==\n    [\n        ");
    push_joined(&mut out, tla_variables.vars(), "", Some(" |-> "), "_value", ",\n        ");
    push_str(&mut out, "\n    ]");
    proof {
        reveal_strlit("");
        assert(""@ =~= Seq::<char>::empty());
    }
    string_of(&out, 0, out.len())
}

/// The next states known, as a text for each: none where there is no list.
pub open spec fn known_texts(known: Option<&Vec<String>>) -> Seq<Seq<char>> {
    match known {
        Some(list) => strs(list@),
        None => Seq::empty(),
    }
}

/// The set of the next states known, as the module writes it.
pub open spec fn known_set(known: Seq<Seq<char>>) -> Seq<char> {
    "\n    {\n        "@ + join(
        known.map_values(|v: Seq<char>| decorated(v, Seq::empty(), None, Seq::empty())),
        ",\n        "@,
    ) + "\n    }"@
}

/// The set of the next states known, as the module writes it.
pub fn known_next_states_set(known_next_states: Option<&Vec<String>>) -> (out: String)
    ensures
        out@ == known_set(known_texts(known_next_states)),
{
    let mut out: Vec<char> = Vec::new();
    let none: Vec<String> = Vec::new();
    push_str(&mut out, "\n    {\n        ");
    match known_next_states {
        Some(list) => {
            push_joined(&mut out, list, "", None, "", ",\n        ");
        },
        None => {
            assert(strs(none@) =~= Seq::<Seq<char>>::empty());
            push_joined(&mut out, &none, "", None, "", ",\n        ");
        },
    }
    push_str(&mut out, "\n    }");
    proof {
        reveal_strlit("");
        assert(""@ =~= Seq::<char>::empty());
    }
    string_of(&out, 0, out.len())
}

/// The module's text up to the module's name.
pub const MODULE_OPENING: &'static str = "\n---------- MODULE ";

/// The module's text between its name and the name of the module extended.
pub const MODULE_EXTENDS: &'static str = " ----------\n\nEXTENDS ";

/// The module's text up to the definition of the state record.
pub const MODULE_DECLARATION: &'static str =
    "\n\nVARIABLE nextStates\n\n\\* declaration used to construct a representation of an explored TLA+ state\n";

/// The module's text up to the state to start from.
pub const MODULE_INIT: &'static str =
    "\n\n\\* init\nInitExplore ==\n    \\* the TLA+ state from where we should start the exploration\n    ";

/// The module's text up to the call that records a next state.
pub const MODULE_NEXT: &'static str =
    "\n    \\* the set of next states (initially empty)\n    /\\ nextStates = {}\n\n\\* next\nNextExplore ==\n    /\\ Next\n    \\* save the next state\n    /\\ nextStates' = nextStates \\union {";

/// The module's text up to the name of the invariant that finds the
/// initial state.
pub const MODULE_FIND: &'static str =
    "}\n\n\\* invariant stating that `nextStates` is always empty; if we set the TLA+ state\n\\* from which we should start exploration to `Init`, because `nextStates` is set\n\\* to {} in `InitExplore` (i.e. the invariant is false), the model checker\n\\* will return a counterexample showing us the initial TLA+ state\n";

/// The module's text up to the set of the next states known.
pub const MODULE_KNOWN: &'static str =
    " ==\n    /\\ nextStates /= {}\n\n\\* set of known next TLA+ states (for a given TLA+ state) previously returned by\n\\* the model checker\nKnownNextStates == ";

/// The module's text up to the name of the invariant that explores.
pub const MODULE_EXPLORE: &'static str =
    "\n\n\\* invariant stating that all `nextStates` must be already known (i.e. a subset\n\\* of `KnownNextStates`); if we don't have yet all next states, the model\n\\* checker will give us a new one\n\\* if the model checker finds a violation of this invariant where:\n\\* - `Len(nextStates) == 0`, then the start state has no next states\n\\* - `Len(nextStates) == 1`, then the state in the set is indeed a next\n\\* state of the start state\n\\* - `Len(nextStates) == 2`, then the model checker has already applied\n\\* `Next` two times, meaning that we have already retrieved all the next\n\\* states\n";

/// The module's last lines.
pub const MODULE_CLOSING: &'static str =
    " ==\n    /\\ nextStates \\subseteq KnownNextStates\n\n====================================\n";

/// The text of the module of a query: it extends the model's module
/// `extended`, starts at the predicate `start_state`, records each next
/// state reached, and defines the two invariants, of which `Explore` asks
/// that every next state recorded be among `known`.
pub open spec fn module_text(
    extended: Seq<char>,
    vars: Seq<Seq<char>>,
    start_state: Seq<char>,
    known: Seq<Seq<char>>,
    timestamp: u128,
) -> Seq<char> {
    MODULE_OPENING@ + module_name(timestamp) + MODULE_EXTENDS@ + extended + MODULE_DECLARATION@
        + state_definition(vars) + MODULE_INIT@ + start_state + MODULE_NEXT@ + state_call(vars)
        + MODULE_FIND@ + ExplorerInvariant::FindInitialState.spec_name() + MODULE_KNOWN@
        + known_set(known) + MODULE_EXPLORE@ + ExplorerInvariant::Explore.spec_name()
        + MODULE_CLOSING@
}

/// The text of the module of a query.
pub fn generate_explorer_module(
    tla_module_name: &str,
    tla_variables: &TlaVariables,
    start_state: &str,
    known_next_states: Option<&Vec<String>>,
    timestamp: u128,
) -> (out: String)
    ensures
        out@ == module_text(
            tla_module_name@,
            tla_variables@,
            start_state@,
            known_texts(known_next_states),
            timestamp,
        ),
{
    let name = explore_module_name(timestamp);
    let definition = explored_state_tla_definition(tla_variables);
    let call = explored_state_tla_definition_call(tla_variables);
    let known = known_next_states_set(known_next_states);
    let mut out: Vec<char> = Vec::new();
    push_str(&mut out, MODULE_OPENING);
    push_str(&mut out, name.as_str());
    push_str(&mut out, MODULE_EXTENDS);
    push_str(&mut out, tla_module_name);
    push_str(&mut out, MODULE_DECLARATION);
    push_str(&mut out, definition.as_str());
    push_str(&mut out, MODULE_INIT);
    push_str(&mut out, start_state);
    push_str(&mut out, MODULE_NEXT);
    push_str(&mut out, call.as_str());
    push_str(&mut out, MODULE_FIND);
    push_str(&mut out, ExplorerInvariant::FindInitialState.name());
    push_str(&mut out, MODULE_KNOWN);
    push_str(&mut out, known.as_str());
    push_str(&mut out, MODULE_EXPLORE);
    push_str(&mut out, ExplorerInvariant::Explore.name());
    push_str(&mut out, MODULE_CLOSING);
    string_of(&out, 0, out.len())
}

/// The text of the configuration of a query: the model's own
/// configuration, then the initial predicate and the next-state relation of
/// the query's module, and the invariant to check.
pub open spec fn config_text(tla_config: Seq<char>, checked: ExplorerInvariant) -> Seq<char> {
    "\n"@ + tla_config + "\nINIT InitExplore\nNEXT NextExplore\nINVARIANT "@
        + checked.spec_name() + "\n"@
}

/// The text of the configuration of a query, made from the text of the
/// model's own configuration.
pub fn generate_explorer_config(tla_config: &str, explorer_invariant: ExplorerInvariant) -> (out:
    String)
    ensures
        out@ == config_text(tla_config@, explorer_invariant),
{
    let mut out: Vec<char> = Vec::new();
    push_str(&mut out, "\n");
    push_str(&mut out, tla_config);
    push_str(&mut out, "\nINIT InitExplore\nNEXT NextExplore\nINVARIANT ");
    push_str(&mut out, explorer_invariant.name());
    push_str(&mut out, "\n");
    string_of(&out, 0, out.len())
}


/// The operator call that builds an entry of the history: each variable.
pub open spec fn history_call(vars: Seq<Seq<char>>) -> Seq<char> {
    "HistoryEntry("@ + join(
        vars.map_values(|v: Seq<char>| decorated(v, Seq::empty(), None, Seq::empty())),
        ", "@,
    ) + ")"@
}

/// The operator call that builds an entry of the history.
pub fn history_entry_tla_definition_call(vars: &Vec<String>) -> (out: String)
    ensures
        out@ == history_call(strs(vars@)),
{
    let mut out: Vec<char> = Vec::new();
    push_str(&mut out, "HistoryEntry(");
    push_joined(&mut out, vars, "", None, "", ", ");
    push_str(&mut out, ")");
    proof {
        reveal_strlit("");
        assert(""@ =~= Seq::<char>::empty());
    }
    string_of(&out, 0, out.len())
}

/// The definition of the operator that builds an entry of the history: one
/// parameter for each variable, and one field that holds the value that the
/// variable had.
pub open spec fn history_definition(vars: Seq<Seq<char>>) -> Seq<char> {
    "\nHistoryEntry("@ + join(
        vars.map_values(|v: Seq<char>| decorated(v, Seq::empty(), None, "_value"@)),
        ", "@,
    ) + ") ==\n    [\n        "@ + join(
        vars.map_values(|v: Seq<char>| decorated(v, "prev_"@, Some(" |-> "@), "_value"@)),
        ",\n\t\t"@,
    ) + "\n    ]\n"@
}

/// The definition of the operator that builds an entry of the history.
pub fn history_entry_tla_definition(vars: &Vec<String>) -> (out: String)
    ensures
        out@ == history_definition(strs(vars@)),
{
    let mut out: Vec<char> = Vec::new();
    push_str(&mut out, "\nHistoryEntry(");
    push_joined(&mut out, vars, "", None, "_value", ", ");
    push_str(&mut out, ") ==\n    [\n        ");
    push_joined(&mut out, vars, "prev_", Some(" |-> "), "_value", ",\n\t\t");
    push_str(&mut out, "\n    ]\n");
    proof {
        reveal_strlit("");
        assert(""@ =~= Seq::<char>::empty());
    }
    string_of(&out, 0, out.len())
}

/// The history module's text up to the name of the module extended.
pub const HISTORY_OPENING: &'static str = "\n---------- MODULE Explore ----------\n\nEXTENDS ";

/// The history module's text up to the definition of a history entry.
pub const HISTORY_DECLARATION: &'static str = ", Sequences\n\nVARIABLE history\n\n";

/// The history module's text up to the call that records a state.
pub const HISTORY_NEXT: &'static str =
    "\n\nHistory0 == <<\n    HistoryEntry(\"undefined\", \"undefined\")\n>>\n\nExplore ==\n    /\\ history \\in {History0}\n\nInitExplore ==\n    /\\ Init\n    /\\ history = History0\n\nNextExplore ==\n    /\\ Next\n    /\\ history' = Append(history, ";

/// The history module's last lines.
pub const HISTORY_CLOSING: &'static str = ")\n\n====================================\n";

/// The text of the module `Explore` that extends the model's module
/// `extended` with a variable that holds the history of the states passed.
pub open spec fn history_module_text(extended: Seq<char>, vars: Seq<Seq<char>>) -> Seq<char> {
    HISTORY_OPENING@ + extended + HISTORY_DECLARATION@ + history_definition(vars) + HISTORY_NEXT@
        + history_call(vars) + HISTORY_CLOSING@
}

/// The text of the module that records the history of the states passed.
pub fn generate_history_module(tla_module_name: &str, vars: &Vec<String>) -> (out: String)
    ensures
        out@ == history_module_text(tla_module_name@, strs(vars@)),
{
    let definition = history_entry_tla_definition(vars);
    let call = history_entry_tla_definition_call(vars);
    let mut out: Vec<char> = Vec::new();
    push_str(&mut out, HISTORY_OPENING);
    push_str(&mut out, tla_module_name);
    push_str(&mut out, HISTORY_DECLARATION);
    push_str(&mut out, definition.as_str());
    push_str(&mut out, HISTORY_NEXT);
    push_str(&mut out, call.as_str());
    push_str(&mut out, HISTORY_CLOSING);
    string_of(&out, 0, out.len())
}

} // verus!
