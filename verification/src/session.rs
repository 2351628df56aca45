//! Finding the next states of a state, one query at a time.
//!
//! The model checker is asked for one next state that is not known yet.
//! Each answer is kept, so that no question is asked twice: a request is
//! answered from what is known where that is enough, and otherwise says
//! which query to run next.

use vstd::prelude::*;
use crate::artifact::TlaVariables;
use crate::checker::ModelCheckerRuntime;
use crate::error::Error;
use crate::explorer::{
    config_text, generate_explorer_config, generate_explorer_module, explore_module_name,
    known_texts, module_name, module_text, ExplorerInvariant,
};
use crate::graph::{known_next, NextStates};
use crate::text::strs;
use crate::trace::{TlaState, Trace};

verus! {

/// The predicate with which the search for the initial state starts.
pub const INIT_PREDICATE: &'static str = "/\\ Init";

/// A state as the model checker printed it, and the same state as JSON.
#[derive(Debug, Clone, PartialEq, Eq)]
pub struct TlaAndJsonState {
    /// The state as TLA+ text.
    pub tla_state: TlaState,
    /// The state as JSON text.
    pub json_state: String,
}

impl TlaAndJsonState {
    /// Pairs the two forms of one state.
    pub fn new(tla_state: TlaState, json_state: String) -> (out: Self)
        ensures
            out.tla_state == tla_state,
            out.json_state == json_state,
    {
        TlaAndJsonState { tla_state, json_state }
    }
}

/// Artifact containing a list of states, each as TLA+ and as JSON.
#[derive(Debug, Clone, PartialEq, Eq)]
pub struct TlaNextStates {
    /// The states, in the order in which they were added.
    pub tla_next_states: Vec<TlaAndJsonState>,
}

impl TlaNextStates {
    /// A list without states.
    pub fn new() -> (out: Self)
        ensures
            out.tla_next_states@.len() == 0,
    {
        TlaNextStates { tla_next_states: Vec::new() }
    }

    /// Appends `next_state`.
    pub fn add(&mut self, next_state: TlaAndJsonState)
        ensures
            final(self).tla_next_states@ == old(self).tla_next_states@.push(next_state),
    {
        self.tla_next_states.push(next_state);
    }
}

/// A query for the model checker: the two texts to check, and the name
/// under which to store them.
#[derive(Debug, Clone, PartialEq, Eq)]
pub struct ExplorerQuery {
    /// The name of the query's module; the files are named after it.
    pub name: String,
    /// The text of the query's module.
    pub module: String,
    /// The text of the query's configuration.
    pub config: String,
}

/// What to do about a request for next states.
#[derive(Debug, Clone, PartialEq, Eq)]
pub enum Step {
    /// The request is answered by these states; there is nothing to run.
    Answer(Vec<TlaState>),
    /// Too few next states are known: run this query, and hand its traces
    /// to [`NextStatesCached::absorb`].
    Explore(ExplorerQuery),
}

/// What is known of the next states of a model: its variables, its initial
/// state, and the next states found so far.
pub struct NextStatesCached {
    /// The variables of the model.
    pub vars: TlaVariables,
    /// The initial state of the model.
    pub initial_state: TlaAndJsonState,
    /// The next states found so far.
    pub next_states: NextStates<TlaState>,
}

/// The state that a request starts from: the one it names, or else the
/// initial state.
pub open spec fn resolved(requested: Option<&str>, initial: Seq<char>) -> Seq<char> {
    match requested {
        Some(s) => s@,
        None => initial,
    }
}

/// The query that finds the initial state of a model: it starts at the
/// model's initial predicate, knows no next state, and checks
/// `FindInitialState`.
pub fn bootstrap_query(
    tla_module_name: &str,
    vars: &TlaVariables,
    tla_config: &str,
    timestamp: u128,
) -> (out: ExplorerQuery)
    ensures
        out.name@ == module_name(timestamp),
        out.module@ == module_text(
            tla_module_name@,
            vars@,
            INIT_PREDICATE@,
            Seq::empty(),
            timestamp,
        ),
        out.config@ == config_text(tla_config@, ExplorerInvariant::FindInitialState),
{
    ExplorerQuery {
        name: explore_module_name(timestamp),
        module: generate_explorer_module(tla_module_name, vars, INIT_PREDICATE, None, timestamp),
        config: generate_explorer_config(tla_config, ExplorerInvariant::FindInitialState),
    }
}

/// The second state of a trace, where it has one.
pub fn second_state(trace: &Trace) -> (out: Option<TlaState>)
    ensures
        match out {
            Some(s) => trace@.len() >= 2 && s@ == trace@[1],
            None => trace@.len() < 2,
        },
{
    if trace.states.len() >= 2 {
        Some(trace.states[1].clone())
    } else {
        None
    }
}

impl NextStatesCached {
    /// Whether the value is one that this type's functions built.
    pub open spec fn wf(&self) -> bool {
        self.next_states.wf()
    }

    /// The next states known for `state`, in the order in which they were
    /// found.
    pub open spec fn known(&self, state: Seq<char>) -> Seq<Seq<char>> {
        known_next(self.next_states@, state)
    }

    /// What is known of a model right after its initial state was found:
    /// the trace of the query that found it holds that state in second
    /// place. A trace with fewer than two states gives
    /// [`Error::InvalidTLCOutput`] with the path of the log.
    pub fn start(vars: TlaVariables, trace: &Trace, json_state: String, runtime: &ModelCheckerRuntime) -> (out:
        Result<Self, Error>)
        ensures
            match out {
                Ok(session) => {
                    &&& trace@.len() >= 2
                    &&& session.wf()
                    &&& session.vars == vars
                    &&& session.initial_state.tla_state@ == trace@[1]
                    &&& session.initial_state.json_state == json_state
                    &&& session.next_states@ == Map::<Seq<char>, Seq<Seq<char>>>::empty()
                },
                Err(e) => {
                    &&& trace@.len() < 2
                    &&& e matches Error::InvalidTLCOutput(log)
                    &&& log@ == runtime.log@
                },
            },
    {
        match second_state(trace) {
            Some(state) => Ok(
                NextStatesCached {
                    vars,
                    initial_state: TlaAndJsonState::new(state, json_state),
                    next_states: NextStates::new(),
                },
            ),
            None => Err(Error::InvalidTLCOutput(runtime.log.clone())),
        }
    }

    /// The state that a request starts from.
    pub fn start_state(&self, requested: Option<&str>) -> (out: TlaState)
        ensures
            out@ == resolved(requested, self.initial_state.tla_state@),
    {
        match requested {
            Some(s) => s.to_owned(),
            None => self.initial_state.tla_state.clone(),
        }
    }

    /// Decides what to do about a request for `count` next states of a
    /// state, behind the first `skip`.
    ///
    /// Where at least `skip + count` next states are known, the answer is
    /// those at `skip..skip + count`, and nothing is to be run. Otherwise
    /// the answer is the query that makes the model checker show one next
    /// state that is not known yet.
    pub fn next_step(
        &self,
        tla_module_name: &str,
        tla_config: &str,
        start_tla_state: Option<&str>,
        count: usize,
        skip: usize,
        timestamp: u128,
    ) -> (out: Step)
        requires
            self.wf(),
        ensures
            ({
                let start = resolved(start_tla_state, self.initial_state.tla_state@);
                let known = self.known(start);
                if skip + count <= known.len() {
                    out matches Step::Answer(states) && strs(states@) == known.subrange(
                        skip as int,
                        skip + count,
                    )
                } else {
                    &&& out matches Step::Explore(query)
                    &&& query.name@ == module_name(timestamp)
                    &&& query.module@ == module_text(
                        tla_module_name@,
                        self.vars@,
                        start,
                        known,
                        timestamp,
                    )
                    &&& query.config@ == config_text(tla_config@, ExplorerInvariant::Explore)
                }
            }),
    {
        let start = self.start_state(start_tla_state);
        let known = self.next_states.get_next_states(&start);
        match known {
            Some(list) => {
                if skip <= list.len() && count <= list.len() - skip {
                    return Step::Answer(copy_range(list, skip, skip + count));
                }
            },
            None => {
                if skip == 0 && count == 0 {
                    let none: Vec<TlaState> = Vec::new();
                    assert(strs(none@) =~= Seq::<Seq<char>>::empty().subrange(0, 0));
                    return Step::Answer(none);
                }
            },
        }
        assert(known_texts(known) == self.known(start@));
        Step::Explore(
            ExplorerQuery {
                name: explore_module_name(timestamp),
                module: generate_explorer_module(
                    tla_module_name,
                    &self.vars,
                    start.as_str(),
                    known,
                    timestamp,
                ),
                config: generate_explorer_config(tla_config, ExplorerInvariant::Explore),
            },
        )
    }

    /// Takes in the traces that the model checker gave for the query of
    /// [`NextStatesCached::next_step`].
    ///
    /// No trace means that no next state is left to find: the result is the
    /// known next states behind the first `skip`, and nothing changes. A
    /// trace shows a new next state in second place: it is added behind the
    /// known ones, and the result is `None`, for the request is to be
    /// decided again. A trace with fewer than two states, or whose second
    /// state is known already, gives [`Error::InvalidTLCOutput`] with the
    /// path of the log, and nothing changes.
    pub fn absorb(
        &mut self,
        start_tla_state: Option<&str>,
        skip: usize,
        traces: &Vec<Trace>,
        runtime: &ModelCheckerRuntime,
    ) -> (out: Result<Option<Vec<TlaState>>, Error>)
        requires
            old(self).wf(),
        ensures
            final(self).wf(),
            final(self).vars == old(self).vars,
            final(self).initial_state == old(self).initial_state,
            ({
                let start = resolved(start_tla_state, old(self).initial_state.tla_state@);
                let known = old(self).known(start);
                if traces@.len() == 0 {
                    &&& final(self).next_states@ == old(self).next_states@
                    &&& out matches Ok(Some(rest))
                    &&& strs(rest@) == if skip <= known.len() {
                        known.skip(skip as int)
                    } else {
                        Seq::empty()
                    }
                } else if traces@[0]@.len() >= 2 && !known.contains(traces@[0]@[1]) {
                    &&& out == Ok::<Option<Vec<TlaState>>, Error>(None)
                    &&& final(self).next_states@ == old(self).next_states@.insert(
                        start,
                        known.push(traces@[0]@[1]),
                    )
                } else {
                    &&& final(self).next_states@ == old(self).next_states@
                    &&& out matches Err(Error::InvalidTLCOutput(log))
                    &&& log@ == runtime.log@
                }
            }),
    {
        let start = self.start_state(start_tla_state);
        if traces.len() == 0 {
            let rest = match self.next_states.get_next_states(&start) {
                Some(list) => {
                    if skip <= list.len() {
                        let rest = copy_range(list, skip, list.len());
                        assert(strs(list@).subrange(skip as int, list@.len() as int) == strs(
                            list@,
                        ).skip(skip as int));
                        rest
                    } else {
                        let none: Vec<TlaState> = Vec::new();
                        assert(strs(none@) =~= Seq::<Seq<char>>::empty());
                        none
                    }
                },
                None => {
                    let none: Vec<TlaState> = Vec::new();
                    assert(strs(none@) =~= Seq::<Seq<char>>::empty());
                    assert(Seq::<Seq<char>>::empty().skip(0) =~= Seq::<Seq<char>>::empty());
                    none
                },
            };
            return Ok(Some(rest));
        }
        let found = second_state(&traces[0]);
        match found {
            Some(state) => {
                let fresh = match self.next_states.get_next_states(&start) {
                    Some(list) => !crate::artifact::holds_text(list, &state),
                    None => true,
                };
                if fresh {
                    self.next_states.add_next_state(start, state);
                    Ok(None)
                } else {
                    Err(Error::InvalidTLCOutput(runtime.log.clone()))
                }
            },
            None => Err(Error::InvalidTLCOutput(runtime.log.clone())),
        }
    }
}

/// A copy of `list[from..to]`.
pub fn copy_range(list: &Vec<TlaState>, from: usize, to: usize) -> (out: Vec<TlaState>)
    requires
        from <= to <= list.len(),
    ensures
        strs(out@) == strs(list@).subrange(from as int, to as int),
{
    let mut out: Vec<TlaState> = Vec::new();
    let mut i: usize = from;
    assert(strs(out@) =~= strs(list@).subrange(from as int, from as int));
    while i < to
        invariant
            from <= i <= to <= list.len(),
            strs(out@) == strs(list@).subrange(from as int, i as int),
        decreases to - i,
    {
        let ghost before = strs(out@);
        let state = list[i].clone();
        assert(state@ == strs(list@)[i as int]);
        out.push(state);
        assert(strs(out@) =~= before.push(state@));
        assert(strs(out@) =~= strs(list@).subrange(from as int, i + 1));
        i += 1;
    }
    out
}


/// One next state more than is known takes one discovery: where a request
/// asks for one state more than is known, and the state found is not
/// known, the request is answered from what is known then.
pub proof fn lemma_one_discovery_answers(
    index: Map<Seq<char>, Seq<Seq<char>>>,
    start: Seq<char>,
    found: Seq<char>,
    skip: nat,
    count: nat,
)
    requires
        count >= 1,
        skip + count == known_next(index, start).len() + 1,
        !known_next(index, start).contains(found),
    ensures
        ({
            let known = known_next(index, start);
            let after = index.insert(start, known.push(found));
            &&& !(skip + count <= known.len())
            &&& skip + count <= known_next(after, start).len()
            &&& known_next(after, start).subrange(skip as int, (skip + count) as int) == known.skip(
                skip as int,
            ).push(found)
        }),
{
    let known = known_next(index, start);
    let after = index.insert(start, known.push(found));
    assert(after.contains_key(start));
    assert(known_next(after, start) == known.push(found));
    assert(known_next(after, start).subrange(skip as int, (skip + count) as int) =~= known.skip(
        skip as int,
    ).push(found));
}

} // verus!
