//! Traces: the sequences of states that a model checker reports.

use vstd::prelude::*;
use crate::text::{push_str, string_of, strs};

verus! {

/// One state of a model, as the text that the model checker printed for it.
pub type TlaState = String;

/// An ordered sequence of states. An empty trace is a value of its own: it
/// says that the model checker gave no counterexample.
#[derive(Debug, Clone, PartialEq, Eq)]
pub struct Trace {
    /// The states, oldest first.
    pub states: Vec<TlaState>,
}

impl View for Trace {
    type V = Seq<Seq<char>>;

    open spec fn view(&self) -> Seq<Seq<char>> {
        strs(self.states@)
    }
}

impl Trace {
    /// A trace without states.
    pub fn new() -> (out: Self)
        ensures
            out@ == Seq::<Seq<char>>::empty(),
    {
        let out = Trace { states: Vec::new() };
        assert(out@ =~= Seq::<Seq<char>>::empty());
        out
    }

    /// Appends `state` as the newest state.
    pub fn add(&mut self, state: TlaState)
        ensures
            final(self)@ == old(self)@.push(state@),
    {
        self.states.push(state);
        assert(self@ =~= old(self)@.push(state@));
    }

    /// The trace as a text: each state, with an empty line behind it.
    pub fn render(&self) -> (out: String)
        ensures
            out@ == rendering(self@),
    {
        let mut out: Vec<char> = Vec::new();
        let mut i: usize = 0;
        assert(self@.take(0) =~= Seq::<Seq<char>>::empty());
        while i < self.states.len()
            invariant
                i <= self.states.len(),
                out@ == rendering(self@.take(i as int)),
            decreases self.states.len() - i,
        {
            assert(self@.take(i + 1).drop_last() == self@.take(i as int));
            assert(self@.take(i + 1).last() == self.states@[i as int]@);
            push_str(&mut out, self.states[i].as_str());
            push_str(&mut out, "\n\n");
            i += 1;
        }
        assert(self@.take(self.states@.len() as int) == self@);
        string_of(&out, 0, out.len())
    }

    /// Whether the trace has no state.
    pub fn is_empty(&self) -> (b: bool)
        ensures
            b == (self@.len() == 0),
    {
        self.states.len() == 0
    }
}


/// The states of a trace as one text: each state, with an empty line
/// behind it.
pub open spec fn rendering(states: Seq<Seq<char>>) -> Seq<char>
    decreases states.len(),
{
    if states.len() == 0 {
        Seq::empty()
    } else {
        rendering(states.drop_last()) + states.last() + "\n\n"@
    }
}

} // verus!
