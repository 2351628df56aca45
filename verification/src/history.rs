//! The histories of a model that the model checker has found.

use vstd::prelude::*;
use crate::graph::{is_path, node_paths, node_views, path_edges, TransitionGraph};
use crate::trace::TlaState;

verus! {

/// A set of histories found by the model checker, kept as the graph of
/// their transitions.
pub struct Histories {
    /// The initial state of the model.
    initial_state: TlaState,
    /// A graph representing all histories found by the model checker (and
    /// possibly more).
    graph: TransitionGraph<TlaState>,
    /// The maximum length of a history found by the model checker.
    max_history_len: usize,
}

impl Histories {
    /// Whether the value is one that this type's functions built.
    pub closed spec fn wf(&self) -> bool {
        self.graph.wf() && self.max_history_len < usize::MAX
    }

    /// The initial state.
    pub closed spec fn initial(&self) -> Seq<char> {
        self.initial_state@
    }

    /// The states that occur in the histories added.
    pub closed spec fn states(&self) -> Set<Seq<char>> {
        self.graph.nodes()
    }

    /// The transitions that occur in the histories added.
    pub closed spec fn transitions(&self) -> Set<(Seq<char>, Seq<char>)> {
        self.graph.edges()
    }

    /// The length of the longest history added.
    pub closed spec fn longest(&self) -> nat {
        self.max_history_len as nat
    }

    /// Creates a new set of histories.
    pub fn new(initial_state: TlaState) -> (out: Self)
        ensures
            out.wf(),
            out.initial() == initial_state@,
            out.states() == Set::<Seq<char>>::empty(),
            out.transitions() == Set::<(Seq<char>, Seq<char>)>::empty(),
            out.longest() == 0,
    {
        Histories { initial_state, graph: TransitionGraph::new(), max_history_len: 0 }
    }

    /// Adds a new history to the set.
    pub fn add_history(&mut self, history: Vec<TlaState>)
        requires
            old(self).wf(),
            history.len() < usize::MAX,
        ensures
            final(self).wf(),
            final(self).initial() == old(self).initial(),
            final(self).states() == old(self).states().union(node_views(history@).to_set()),
            final(self).transitions() == old(self).transitions().union(
                path_edges(node_views(history@)),
            ),
            final(self).longest() == if history.len() > old(self).longest() {
                history.len() as nat
            } else {
                old(self).longest()
            },
    {
        if history.len() > self.max_history_len {
            self.max_history_len = history.len();
        }
        self.graph.add_path(history);
    }

    /// Computes the set of histories found by the model checker, potentially
    /// guessing other ones: every path through the known transitions that
    /// starts at the initial state and has at most one state more than the
    /// longest history added.
    pub fn all_histories(&self) -> (out: Vec<Vec<TlaState>>)
        requires
            self.wf(),
        ensures
            forall|p: Seq<Seq<char>>| #[trigger]
                node_paths(out@).contains(p) <==> is_path(
                    self.states(),
                    self.transitions(),
                    self.initial(),
                    self.longest() + 1,
                    p,
                ),
            node_paths(out@).no_duplicates(),
    {
        let max_len = self.max_history_len + 1;
        self.graph.all_paths(&self.initial_state, max_len)
    }
}

} // verus!
