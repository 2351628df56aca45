//! The transitions of a model that are known so far.

use vstd::prelude::*;
use crate::paths::{
    chained, extends, lemma_walks, lemma_walks_distinct, linked, simple, walks, walks_from,
};
use crate::state_graph::{dot_text, empty_graph, has_room, with_neighbor, GraphModel, StateGraph};
use crate::text::{debug_form, debug_of};

verus! {

/// What a value must offer to be a node: a mathematical value that says
/// which node it is, a test for being the same node, and a copy.
pub trait Node: View + Sized {
    /// Whether `self` and `other` are the same node.
    fn same(&self, other: &Self) -> (b: bool)
        ensures
            b == (self@ == other@),
    ;

    /// Another value for the same node.
    fn duplicate(&self) -> (out: Self)
        ensures
            out@ == self@,
    ;
}

impl Node for String {
    fn same(&self, other: &Self) -> (b: bool) {
        *self == *other
    }

    fn duplicate(&self) -> (out: Self) {
        self.clone()
    }
}

impl Node for i32 {
    fn same(&self, other: &Self) -> (b: bool) {
        *self == *other
    }

    fn duplicate(&self) -> (out: Self) {
        *self
    }
}

impl Node for u64 {
    fn same(&self, other: &Self) -> (b: bool) {
        *self == *other
    }

    fn duplicate(&self) -> (out: Self) {
        *self
    }
}

/// The nodes that a vector of node values stands for.
pub open spec fn node_views<S: Node>(v: Seq<S>) -> Seq<S::V> {
    v.map_values(|s: S| s@)
}

/// One state and the next states known for it.
pub struct Successors<S: Node> {
    pub state: S,
    pub next: Vec<S>,
}

/// Mapping from a state to the list of its next states that are known, in
/// the order in which they were added. No next state is listed twice for
/// the same state.
pub struct NextStates<S: Node> {
    entries: Vec<Successors<S>>,
}

/// The mapping that a list of entries stands for.
pub open spec fn entries_map<S: Node>(entries: Seq<Successors<S>>) -> Map<S::V, Seq<S::V>>
    decreases entries.len(),
{
    if entries.len() == 0 {
        Map::empty()
    } else {
        entries_map(entries.drop_last()).insert(
            entries.last().state@,
            node_views(entries.last().next@),
        )
    }
}

/// An entry list's mapping has the entries' states as its keys.
pub proof fn lemma_entries_map<S: Node>(entries: Seq<Successors<S>>)
    requires
        forall|i: int, j: int|
            0 <= i < j < entries.len() ==> entries[i].state@ != entries[j].state@,
    ensures
        forall|k: S::V|
            entries_map(entries).contains_key(k) <==> exists|i: int|
                0 <= i < entries.len() && (#[trigger] entries[i]).state@ == k,
        forall|i: int|
            0 <= i < entries.len() ==> entries_map(entries)[(#[trigger] entries[i]).state@]
                == node_views(entries[i].next@),
    decreases entries.len(),
{
    if entries.len() > 0 {
        let shorter = entries.drop_last();
        lemma_entries_map(shorter);
        assert forall|k: S::V|
            entries_map(entries).contains_key(k) <==> exists|i: int|
                0 <= i < entries.len() && (#[trigger] entries[i]).state@ == k by {
            if entries_map(entries).contains_key(k) {
                if entries.last().state@ == k {
                    assert(entries[entries.len() - 1].state@ == k);
                } else {
                    assert(entries_map(shorter).contains_key(k));
                    let i = choose|i: int|
                        0 <= i < shorter.len() && (#[trigger] shorter[i]).state@ == k;
                    assert(entries[i] == shorter[i]);
                }
            }
            if exists|i: int| 0 <= i < entries.len() && (#[trigger] entries[i]).state@ == k {
                let i = choose|i: int| 0 <= i < entries.len() && (#[trigger] entries[i]).state@ == k;
                if i < shorter.len() {
                    assert(shorter[i].state@ == k);
                    assert(entries_map(shorter).contains_key(k));
                }
            }
        }
        assert forall|i: int| 0 <= i < entries.len() implies entries_map(entries)[(
        #[trigger] entries[i]).state@] == node_views(entries[i].next@) by {
            if i < shorter.len() {
                assert(shorter[i] == entries[i]);
            }
        }
    }
}

impl<S: Node> View for NextStates<S> {
    type V = Map<S::V, Seq<S::V>>;

    closed spec fn view(&self) -> Map<S::V, Seq<S::V>> {
        entries_map(self.entries@)
    }
}

impl<S: Node> NextStates<S> {
    /// Whether the value is one that this type's functions built: no state
    /// has two entries, and no next state is listed twice for a state.
    pub closed spec fn wf(&self) -> bool {
        &&& forall|i: int, j: int|
            0 <= i < j < self.entries.len() ==> self.entries[i].state@ != self.entries[j].state@
        &&& forall|i: int|
            0 <= i < self.entries.len() ==> node_views(
                (#[trigger] self.entries[i]).next@,
            ).no_duplicates()
    }

    /// The states and the lists of their next states, in the order in
    /// which the states got a list.
    pub closed spec fn listing(&self) -> Seq<(S::V, Seq<S::V>)> {
        self.entries@.map_values(|e: Successors<S>| (e.state@, node_views(e.next@)))
    }

    /// The listing holds each state of the mapping once, with its list.
    pub proof fn lemma_listing(&self)
        requires
            self.wf(),
        ensures
            forall|i: int|
                0 <= i < self.listing().len() ==> self@.contains_key(
                    (#[trigger] self.listing()[i]).0,
                ) && self@[self.listing()[i].0] == self.listing()[i].1,
            forall|k: S::V|
                self@.contains_key(k) ==> exists|i: int|
                    0 <= i < self.listing().len() && (#[trigger] self.listing()[i]).0 == k,
            forall|i: int, j: int|
                0 <= i < j < self.listing().len() ==> (#[trigger] self.listing()[i]).0 != (
                #[trigger] self.listing()[j]).0,
    {
        lemma_entries_map(self.entries@);
        let listing = self.listing();
        assert forall|i: int| 0 <= i < listing.len() implies self@.contains_key(
            (#[trigger] listing[i]).0,
        ) && self@[listing[i].0] == listing[i].1 by {
            assert(self.entries[i].state@ == listing[i].0);
        }
        assert forall|k: S::V| self@.contains_key(k) implies exists|i: int|
            0 <= i < listing.len() && (#[trigger] listing[i]).0 == k by {
            let i = choose|i: int| 0 <= i < self.entries.len() && (#[trigger] self.entries[i]).state@ == k;
            assert(listing[i].0 == k);
        }
    }

    /// In a well-formed value no next state is listed twice.
    pub proof fn lemma_no_duplicates(&self, state: S::V)
        requires
            self.wf(),
            self@.contains_key(state),
        ensures
            self@[state].no_duplicates(),
    {
        lemma_entries_map(self.entries@);
        let i = choose|i: int| 0 <= i < self.entries.len() && (#[trigger] self.entries[i]).state@ == state;
        assert(self@[state] == node_views(self.entries[i].next@));
    }

    /// Creates a mapping without states.
    pub fn new() -> (out: Self)
        ensures
            out.wf(),
            out@ == Map::<S::V, Seq<S::V>>::empty(),
            out.listing() == Seq::<(S::V, Seq<S::V>)>::empty(),
    {
        let out = NextStates { entries: Vec::new() };
        assert(out.listing() =~= Seq::<(S::V, Seq<S::V>)>::empty());
        out
    }

    /// The position of the entry of `state`, if it has one.
    fn position(&self, state: &S) -> (out: Option<usize>)
        requires
            self.wf(),
        ensures
            match out {
                Some(i) => i < self.entries.len() && self.entries[i as int].state@ == state@,
                None => forall|i: int|
                    0 <= i < self.entries.len() ==> (#[trigger] self.entries[i]).state@ != state@,
            },
    {
        let mut i: usize = 0;
        while i < self.entries.len()
            invariant
                i <= self.entries.len(),
                forall|j: int| 0 <= j < i ==> (#[trigger] self.entries[j]).state@ != state@,
            decreases self.entries.len() - i,
        {
            if self.entries[i].state.same(state) {
                return Some(i);
            }
            i += 1;
        }
        None
    }

    /// Adds `next_state` to the next states of `state`, behind those known;
    /// where it is among them already, nothing changes.
    pub fn add_next_state(&mut self, state: S, next_state: S)
        requires
            old(self).wf(),
        ensures
            final(self).wf(),
            final(self)@ == old(self)@.insert(
                state@,
                with_node(known_next(old(self)@, state@), next_state@),
            ),
            forall|i: int|
                0 <= i < old(self).listing().len() && (#[trigger] old(self).listing()[i]).0
                    == state@ ==> final(self).listing() == old(self).listing().update(
                    i,
                    (state@, with_node(old(self).listing()[i].1, next_state@)),
                ),
            (forall|i: int|
                0 <= i < old(self).listing().len() ==> (#[trigger] old(self).listing()[i]).0
                    != state@) ==> final(self).listing() == old(self).listing().push(
                (state@, seq![next_state@]),
            ),
    {
        proof {
            lemma_entries_map(self.entries@);
        }
        let ghost before = self.entries@;
        let ghost listing0 = self.listing();
        let ghost mut at: int = 0;
        match self.position(&state) {
            Some(i) => {
                proof {
                    at = i as int;
                }
                if !holds_node(&self.entries[i].next, &next_state) {
                    let mut entry = self.entries.remove(i);
                    let ghost old_next = node_views(entry.next@);
                    entry.next.push(next_state);
                    assert(node_views(entry.next@) =~= old_next.push(next_state@));
                    self.entries.insert(i, entry);
                    assert(self.entries@ =~= before.update(i as int, entry));
                }
            },
            None => {
                proof {
                    at = before.len() as int;
                }
                let mut next: Vec<S> = Vec::new();
                next.push(next_state);
                assert(node_views(next@) =~= seq![next_state@]);
                self.entries.push(Successors { state, next });
            },
        }
        proof {
            let after = self.entries@;
            assert forall|i: int, j: int| 0 <= i < j < after.len() implies after[i].state@
                != after[j].state@ by {
                if j < before.len() {
                    assert(before[i].state@ != before[j].state@);
                }
            }
            lemma_entries_map(after);
            let expected = old(self)@.insert(
                state@,
                with_node(known_next(old(self)@, state@), next_state@),
            );
            assert forall|k: S::V| self@.contains_key(k) <==> expected.contains_key(k) by {
                if self@.contains_key(k) {
                    let i = choose|i: int| 0 <= i < after.len() && (#[trigger] after[i]).state@ == k;
                    if i < before.len() {
                        assert(before[i].state@ == k);
                    }
                }
                if expected.contains_key(k) && k != state@ {
                    let i = choose|i: int|
                        0 <= i < before.len() && (#[trigger] before[i]).state@ == k;
                    assert(after[i].state@ == k);
                }
                if k == state@ {
                    assert(after[at].state@ == state@);
                }
            }
            assert forall|k: S::V| self@.contains_key(k) implies self@[k] == expected[k] by {
                let i = choose|i: int| 0 <= i < after.len() && (#[trigger] after[i]).state@ == k;
                assert(self@[k] == node_views(after[i].next@));
                if i < before.len() {
                    assert(before[i].state@ == k);
                    assert(old(self)@[k] == node_views(before[i].next@));
                }
            }
            assert(self@ =~= expected);
            let listing1 = self.listing();
            if at < before.len() {
                assert(listing0[at].0 == state@);
                assert(listing1 =~= listing0.update(
                    at,
                    (state@, with_node(listing0[at].1, next_state@)),
                ));
                assert forall|i: int|
                    0 <= i < listing0.len() && (#[trigger] listing0[i]).0 == state@ implies i
                    == at by {
                    assert(before[i].state@ == listing0[i].0);
                    assert(before[at].state@ == state@);
                }
            } else {
                assert(listing1 =~= listing0.push((state@, seq![next_state@])));
                assert forall|i: int| 0 <= i < listing0.len() implies (#[trigger] listing0[i]).0
                    != state@ by {
                    assert(before[i].state@ == listing0[i].0);
                }
            }
        }
    }

    /// The states that have a list of next states, in the order in which
    /// they got one.
    pub fn states(&self) -> (out: Vec<S>)
        requires
            self.wf(),
        ensures
            node_views(out@) == self.listing().map_values(|e: (S::V, Seq<S::V>)| e.0),
    {
        let mut out: Vec<S> = Vec::new();
        let mut i: usize = 0;
        while i < self.entries.len()
            invariant
                i <= self.entries.len(),
                out.len() == i,
                forall|j: int| 0 <= j < i ==> node_views(out@)[j] == self.entries[j].state@,
            decreases self.entries.len() - i,
        {
            let ghost before = node_views(out@);
            let state = self.entries[i].state.duplicate();
            out.push(state);
            assert(node_views(out@) =~= before.push(state@));
            i += 1;
        }
        assert(node_views(out@) =~= self.listing().map_values(|e: (S::V, Seq<S::V>)| e.0));
        out
    }

    /// Retrieves the list of next states of `state`, or `None` where none was
    /// ever added for it.
    pub fn get_next_states(&self, state: &S) -> (out: Option<&Vec<S>>)
        requires
            self.wf(),
        ensures
            match out {
                Some(next) => self@.contains_key(state@) && node_views(next@) == self@[state@],
                None => !self@.contains_key(state@),
            },
    {
        proof {
            lemma_entries_map(self.entries@);
        }
        match self.position(state) {
            Some(i) => Some(&self.entries[i].next),
            None => None,
        }
    }
}

/// The graph `g` with an edge from `state` to each state of `next`, in
/// order, each state labelled with its `Debug` form; `None` where the
/// graph has no room for one of them.
pub open spec fn draw_list(g: Option<GraphModel>, state: Seq<char>, next: Seq<Seq<char>>) -> Option<
    GraphModel,
>
    decreases next.len(),
{
    if next.len() == 0 {
        g
    } else {
        match draw_list(g, state, next.drop_last()) {
            Some(m) => if has_room(m) {
                Some(with_neighbor(m, debug_form(state), debug_form(next.last())))
            } else {
                None
            },
            None => None,
        }
    }
}

/// The graph of the states of `listing` and their next states; `None`
/// where the graph has no room for one of them.
pub open spec fn draw_all(listing: Seq<(Seq<char>, Seq<Seq<char>>)>) -> Option<GraphModel>
    decreases listing.len(),
{
    if listing.len() == 0 {
        Some(empty_graph())
    } else {
        draw_list(draw_all(listing.drop_last()), listing.last().0, listing.last().1)
    }
}

impl NextStates<String> {
    /// Dot representation of self when viewed as a state graph: a node for
    /// each state that has a next state or is one, and an edge from each
    /// state to each of its next states. `None` where there are more states
    /// or edges than the graph can number.
    pub fn dot(&self) -> (out: Option<String>)
        requires
            self.wf(),
        ensures
            match draw_all(self.listing()) {
                Some(g) => out matches Some(text) && text@ == dot_text(g.labels, g.edges),
                None => out is None,
            },
    {
        let mut state_graph = StateGraph::new();
        let ghost listing = self.listing();
        let mut i: usize = 0;
        assert(listing.take(0) =~= Seq::<(Seq<char>, Seq<Seq<char>>)>::empty());
        while i < self.entries.len()
            invariant
                i <= self.entries.len(),
                listing == self.listing(),
                state_graph.wf(),
                draw_all(listing.take(i as int)) == Some(state_graph@),
            decreases self.entries.len() - i,
        {
            let entry = &self.entries[i];
            let ghost before = draw_all(listing.take(i as int));
            let ghost next = node_views(entry.next@);
            proof {
                assert(listing.take(i + 1).drop_last() == listing.take(i as int));
                assert(listing.take(i + 1).last() == (entry.state@, next));
                assert(next.take(0) =~= Seq::<Seq<char>>::empty());
            }
            let mut k: usize = 0;
            while k < entry.next.len()
                invariant
                    k <= entry.next.len(),
                    i < self.entries.len(),
                    listing == self.listing(),
                    listing.len() == self.entries.len(),
                    next == node_views(entry.next@),
                    listing.take(i + 1).drop_last() == listing.take(i as int),
                    listing.take(i + 1).last() == (entry.state@, next),
                    before == draw_all(listing.take(i as int)),
                    state_graph.wf(),
                    draw_list(before, entry.state@, next.take(k as int)) == Some(state_graph@),
                decreases entry.next.len() - k,
            {
                proof {
                    assert(next.take(k + 1).drop_last() == next.take(k as int));
                    assert(next.take(k + 1).last() == entry.next@[k as int]@);
                }
                let state = debug_of(entry.state.as_str());
                let next_state = debug_of(entry.next[k].as_str());
                if !state_graph.add_neighbor(state, next_state) {
                    proof {
                        assert(draw_list(before, entry.state@, next.take(k + 1)) is None);
                        lemma_draw_list_fails(before, entry.state@, next, k + 1);
                        assert(draw_all(listing.take(i + 1)) is None);
                        lemma_draw_all_fails(listing, i + 1);
                    }
                    return None;
                }
                k += 1;
            }
            assert(next.take(entry.next@.len() as int) == next);
            i += 1;
        }
        assert(listing.take(self.entries@.len() as int) == listing);
        Some(state_graph.dot())
    }
}

/// Once the graph has no room, it has none for the states behind.
pub proof fn lemma_draw_list_fails(
    g: Option<GraphModel>,
    state: Seq<char>,
    next: Seq<Seq<char>>,
    k: int,
)
    requires
        0 <= k <= next.len(),
        draw_list(g, state, next.take(k)) is None,
    ensures
        draw_list(g, state, next) is None,
    decreases next.len() - k,
{
    if k < next.len() {
        assert(next.take(k + 1).drop_last() == next.take(k));
        lemma_draw_list_fails(g, state, next, k + 1);
    } else {
        assert(next.take(k) == next);
    }
}

/// Once the graph has no room, it has none for the entries behind.
pub proof fn lemma_draw_all_fails(listing: Seq<(Seq<char>, Seq<Seq<char>>)>, i: int)
    requires
        0 <= i <= listing.len(),
        draw_all(listing.take(i)) is None,
    ensures
        draw_all(listing) is None,
    decreases listing.len() - i,
{
    if i < listing.len() {
        assert(listing.take(i + 1).drop_last() == listing.take(i));
        let e = listing[i];
        assert(listing.take(i + 1).last() == e);
        assert(e.1.take(0) =~= Seq::<Seq<char>>::empty());
        assert(draw_list(None, e.0, e.1.take(0)) is None);
        lemma_draw_list_fails(None, e.0, e.1, 0);
        lemma_draw_all_fails(listing, i + 1);
    } else {
        assert(listing.take(i) == listing);
    }
}

/// The next states that `m` lists for `state`: none where it has no entry.
pub open spec fn known_next<V>(m: Map<V, Seq<V>>, state: V) -> Seq<V> {
    if m.contains_key(state) {
        m[state]
    } else {
        Seq::empty()
    }
}

/// `list` with `x` behind it, unless `list` holds `x` already.
pub open spec fn with_node<V>(list: Seq<V>, x: V) -> Seq<V> {
    if list.contains(x) {
        list
    } else {
        list.push(x)
    }
}

/// Whether `v` holds the node of `x`.
pub fn holds_node<S: Node>(v: &Vec<S>, x: &S) -> (b: bool)
    ensures
        b == node_views(v@).contains(x@),
{
    let mut i: usize = 0;
    while i < v.len()
        invariant
            i <= v.len(),
            forall|j: int| 0 <= j < i ==> node_views(v@)[j] != x@,
        decreases v.len() - i,
    {
        if v[i].same(x) {
            assert(node_views(v@)[i as int] == x@);
            return true;
        }
        i += 1;
    }
    false
}


/// The edges between the consecutive nodes of `p`.
pub open spec fn path_edges<V>(p: Seq<V>) -> Set<(V, V)> {
    Set::new(|e: (V, V)| exists|i: int| 0 <= i < p.len() - 1 && #[trigger] p[i] == e.0 && p[i + 1] == e.1)
}

/// Whether `p` is a path of the graph that starts at `from` and has at
/// least one node and at most `max_len`: `from` is a node of the graph, and
/// there is an edge between each two consecutive nodes of `p`.
pub open spec fn is_path<V>(
    nodes: Set<V>,
    edges: Set<(V, V)>,
    from: V,
    max_len: nat,
    p: Seq<V>,
) -> bool {
    &&& 1 <= p.len() <= max_len
    &&& p[0] == from
    &&& nodes.contains(from)
    &&& forall|i: int| 0 <= i < p.len() - 1 ==> #[trigger] joined(edges, p, i)
}

/// Whether there is an edge from the node at `i` in `p` to the node at
/// `i + 1`.
pub open spec fn joined<V>(edges: Set<(V, V)>, p: Seq<V>, i: int) -> bool {
    edges.contains((p[i], p[i + 1]))
}

/// A directed graph: a set of nodes and a set of edges between them. It
/// may hold cycles. An edge is held once, however often it is added.
pub struct TransitionGraph<S: Node> {
    nodes: Vec<S>,
    succ: Vec<Vec<usize>>,
}

impl<S: Node> TransitionGraph<S> {
    /// Whether the value is one that this type's functions built.
    pub closed spec fn wf(&self) -> bool {
        &&& self.succ.len() == self.nodes.len()
        &&& node_views(self.nodes@).no_duplicates()
        &&& forall|i: int, j: int|
            0 <= i < self.succ.len() && 0 <= j < self.succ[i].len() ==> (
            #[trigger] self.succ[i]@[j]) < self.nodes.len()
        &&& forall|i: int| 0 <= i < self.succ.len() ==> (#[trigger] self.succ[i])@.no_duplicates()
    }

    /// The nodes of the graph.
    pub closed spec fn nodes(&self) -> Set<S::V> {
        node_views(self.nodes@).to_set()
    }

    /// The edges of the graph, each from its first node to its second.
    pub closed spec fn edges(&self) -> Set<(S::V, S::V)> {
        Set::new(
            |e: (S::V, S::V)|
                exists|i: int, j: int|
                    0 <= i < self.succ.len() && 0 <= j < self.succ[i].len() && self.nodes[i]@
                        == e.0 && self.nodes[(#[trigger] self.succ[i]@[j]) as int]@ == e.1,
        )
    }

    /// Creates a graph without nodes.
    pub fn new() -> (out: Self)
        ensures
            out.wf(),
            out.nodes() == Set::<S::V>::empty(),
            out.edges() == Set::<(S::V, S::V)>::empty(),
    {
        let out = TransitionGraph { nodes: Vec::new(), succ: Vec::new() };
        assert(out.nodes() =~= Set::<S::V>::empty());
        assert(out.edges() =~= Set::<(S::V, S::V)>::empty());
        out
    }

    /// The number of `node`, if it is in the graph.
    fn number_of(&self, node: &S) -> (out: Option<usize>)
        requires
            self.wf(),
        ensures
            match out {
                Some(i) => i < self.nodes.len() && self.nodes[i as int]@ == node@,
                None => !self.nodes().contains(node@),
            },
    {
        let mut i: usize = 0;
        while i < self.nodes.len()
            invariant
                i <= self.nodes.len(),
                forall|j: int| 0 <= j < i ==> node_views(self.nodes@)[j] != node@,
            decreases self.nodes.len() - i,
        {
            if self.nodes[i].same(node) {
                return Some(i);
            }
            i += 1;
        }
        None
    }

    /// Adds `node` unless the graph has it, and gives its number.
    fn intern(&mut self, node: &S) -> (at: usize)
        requires
            old(self).wf(),
        ensures
            final(self).wf(),
            at < final(self).nodes.len(),
            final(self).nodes[at as int]@ == node@,
            final(self).nodes() == old(self).nodes().insert(node@),
            final(self).edges() == old(self).edges(),
            old(self).nodes.len() <= final(self).nodes.len(),
            forall|i: int|
                0 <= i < old(self).nodes.len() ==> final(self).nodes[i]@ == old(self).nodes[i]@,
    {
        match self.number_of(node) {
            Some(i) => {
                assert(node_views(self.nodes@)[i as int] == node@);
                assert(self.nodes() =~= old(self).nodes().insert(node@));
                i
            },
            None => {
                let at = self.nodes.len();
                self.nodes.push(node.duplicate());
                self.succ.push(Vec::new());
                proof {
                    let before = node_views(old(self).nodes@);
                    let after = node_views(self.nodes@);
                    assert(after =~= before.push(node@));
                    assert forall|i: int, j: int| 0 <= i < j < after.len() implies after[i]
                        != after[j] by {
                        if j == before.len() {
                            assert(before[i] == after[i]);
                            assert(before.contains(before[i]));
                        } else {
                            assert(before[i] != before[j]);
                        }
                    }
                    assert forall|v: S::V| after.contains(v) <==> (before.contains(v) || v
                        == node@) by {
                        if after.contains(v) {
                            let i = choose|i: int| 0 <= i < after.len() && after[i] == v;
                            if i < before.len() {
                                assert(before[i] == v);
                            }
                        }
                        if before.contains(v) {
                            let i = choose|i: int| 0 <= i < before.len() && before[i] == v;
                            assert(after[i] == v);
                        }
                        if v == node@ {
                            assert(after[at as int] == v);
                        }
                    }
                    assert(self.nodes() =~= old(self).nodes().insert(node@));
                    assert forall|i: int, j: int|
                        0 <= i < self.succ.len() && 0 <= j < self.succ[i].len() implies (
                    #[trigger] self.succ[i]@[j]) < self.nodes.len() by {
                        assert(self.succ[i] == old(self).succ[i]);
                        assert(old(self).succ[i]@[j] < old(self).nodes.len());
                    }
                    assert forall|i: int| 0 <= i < self.succ.len() implies (
                    #[trigger] self.succ[i])@.no_duplicates() by {
                        if i < old(self).succ.len() {
                            assert(self.succ[i] == old(self).succ[i]);
                        }
                    }
                    assert forall|e: (S::V, S::V)|
                        self.edges().contains(e) <==> old(self).edges().contains(e) by {
                        if self.edges().contains(e) {
                            let (i, j) = choose|i: int, j: int|
                                0 <= i < self.succ.len() && 0 <= j < self.succ[i].len()
                                    && self.nodes[i]@ == e.0 && self.nodes[(
                                #[trigger] self.succ[i]@[j]) as int]@ == e.1;
                            assert(self.succ[i] == old(self).succ[i]);
                            assert(old(self).succ[i]@[j] < old(self).nodes.len());
                            assert(old(self).nodes[i]@ == e.0);
                        }
                        if old(self).edges().contains(e) {
                            let (i, j) = choose|i: int, j: int|
                                0 <= i < old(self).succ.len() && 0 <= j < old(self).succ[i].len()
                                    && old(self).nodes[i]@ == e.0 && old(self).nodes[(
                                #[trigger] old(self).succ[i]@[j]) as int]@ == e.1;
                            assert(self.succ[i] == old(self).succ[i]);
                            assert(self.succ[i]@[j] < old(self).nodes.len());
                        }
                    }
                    assert(self.edges() =~= old(self).edges());
                }
                at
            },
        }
    }

    /// Whether `v` holds `x`.
    fn lists(v: &Vec<usize>, x: usize) -> (b: bool)
        ensures
            b == v@.contains(x),
    {
        let mut i: usize = 0;
        while i < v.len()
            invariant
                i <= v.len(),
                forall|j: int| 0 <= j < i ==> v@[j] != x,
            decreases v.len() - i,
        {
            if v[i] == x {
                return true;
            }
            i += 1;
        }
        false
    }

    /// Adds the edge from node number `a` to node number `b` unless the
    /// graph has it.
    fn link(&mut self, a: usize, b: usize)
        requires
            old(self).wf(),
            a < old(self).nodes.len(),
            b < old(self).nodes.len(),
        ensures
            final(self).wf(),
            final(self).nodes == old(self).nodes,
            final(self).nodes() == old(self).nodes(),
            final(self).edges() == old(self).edges().insert(
                (old(self).nodes[a as int]@, old(self).nodes[b as int]@),
            ),
    {
        let ghost edge = (self.nodes[a as int]@, self.nodes[b as int]@);
        if Self::lists(&self.succ[a], b) {
            proof {
                let j = choose|j: int| 0 <= j < self.succ[a as int]@.len() && self.succ[a as int]@[j] == b;
                assert(self.nodes[(self.succ[a as int]@[j]) as int]@ == edge.1);
                assert(self.edges().contains(edge));
                assert(self.edges() =~= old(self).edges().insert(edge));
            }
        } else {
            let mut list = self.succ.remove(a);
            let ghost old_list = list@;
            list.push(b);
            self.succ.insert(a, list);
            proof {
                let before = old(self).succ@;
                let after = self.succ@;
                assert(after =~= before.update(a as int, list));
                assert(list@ == old_list.push(b));
                assert(before[a as int]@ == old_list);
                assert forall|i: int, j: int|
                    0 <= i < self.succ.len() && 0 <= j < self.succ[i].len() implies (
                #[trigger] self.succ[i]@[j]) < self.nodes.len() by {
                    if i != a {
                        assert(after[i] == before[i]);
                        assert(before[i]@[j] < self.nodes.len());
                    } else if j < old_list.len() {
                        assert(before[a as int]@[j] < self.nodes.len());
                    }
                }
                assert forall|i: int| 0 <= i < self.succ.len() implies (
                #[trigger] self.succ[i])@.no_duplicates() by {
                    if i != a {
                        assert(after[i] == before[i]);
                    } else {
                        assert(before[a as int]@.no_duplicates());
                    }
                }
                assert forall|e: (S::V, S::V)|
                    self.edges().contains(e) <==> old(self).edges().insert(edge).contains(e) by {
                    if self.edges().contains(e) {
                        let (i, j) = choose|i: int, j: int|
                            0 <= i < self.succ.len() && 0 <= j < self.succ[i].len()
                                && self.nodes[i]@ == e.0 && self.nodes[(
                            #[trigger] self.succ[i]@[j]) as int]@ == e.1;
                        if i != a {
                            assert(after[i] == before[i]);
                            assert(before[i]@[j] == after[i]@[j]);
                        } else if j < old_list.len() {
                            assert(before[a as int]@[j] == after[a as int]@[j]);
                        } else {
                            assert(e == edge);
                        }
                    }
                    if old(self).edges().contains(e) {
                        let (i, j) = choose|i: int, j: int|
                            0 <= i < before.len() && 0 <= j < before[i].len() && old(
                                self,
                            ).nodes[i]@ == e.0 && old(self).nodes[(
                            #[trigger] before[i]@[j]) as int]@ == e.1;
                        if i != a {
                            assert(after[i] == before[i]);
                            assert(after[i]@[j] == before[i]@[j]);
                        } else {
                            assert(after[a as int]@[j] == before[a as int]@[j]);
                        }
                    }
                    if e == edge {
                        assert(after[a as int]@[old_list.len() as int] == b);
                    }
                }
                assert(self.edges() =~= old(self).edges().insert(edge));
            }
        }
    }

    /// Adds the nodes of `path`, and an edge from each to the one behind
    /// it. What the graph has already stays as it is.
    pub fn add_path(&mut self, path: Vec<S>)
        requires
            old(self).wf(),
        ensures
            final(self).wf(),
            final(self).nodes() == old(self).nodes().union(node_views(path@).to_set()),
            final(self).edges() == old(self).edges().union(path_edges(node_views(path@))),
    {
        let ghost p = node_views(path@);
        let mut last: usize = 0;
        let mut k: usize = 0;
        proof {
            assert(old(self).nodes().union(p.take(0).to_set()) =~= old(self).nodes());
            assert(old(self).edges().union(path_edges(p.take(0))) =~= old(self).edges());
        }
        while k < path.len()
            invariant
                k <= path.len(),
                p == node_views(path@),
                self.wf(),
                self.nodes() == old(self).nodes().union(p.take(k as int).to_set()),
                self.edges() == old(self).edges().union(path_edges(p.take(k as int))),
                k > 0 ==> last < self.nodes.len() && self.nodes[last as int]@ == p[k - 1],
            decreases path.len() - k,
        {
            let ghost nodes_before = self.nodes();
            let ghost edges_before = self.edges();
            let at = self.intern(&path[k]);
            assert(path[k as int]@ == p[k as int]);
            if k > 0 {
                self.link(last, at);
            }
            proof {
                let shorter = p.take(k as int);
                let longer = p.take(k + 1);
                assert(longer =~= shorter.push(p[k as int]));
                assert(longer.to_set() =~= shorter.to_set().insert(p[k as int])) by {
                    assert forall|v: S::V| longer.contains(v) <==> (shorter.contains(v) || v
                        == p[k as int]) by {
                        if longer.contains(v) {
                            let i = choose|i: int| 0 <= i < longer.len() && longer[i] == v;
                            if i < k {
                                assert(shorter[i] == v);
                            }
                        }
                        if shorter.contains(v) {
                            let i = choose|i: int| 0 <= i < shorter.len() && shorter[i] == v;
                            assert(longer[i] == v);
                        }
                        if v == p[k as int] {
                            assert(longer[k as int] == v);
                        }
                    }
                }
                assert(self.nodes() =~= old(self).nodes().union(longer.to_set()));
                if k > 0 {
                    let edge = (p[k - 1], p[k as int]);
                    assert forall|e: (S::V, S::V)|
                        path_edges(longer).contains(e) <==> (path_edges(shorter).contains(e) || e
                            == edge) by {
                        if path_edges(longer).contains(e) {
                            let i = choose|i: int|
                                0 <= i < longer.len() - 1 && #[trigger] longer[i] == e.0
                                    && longer[i + 1] == e.1;
                            if i < k - 1 {
                                assert(shorter[i] == e.0 && shorter[i + 1] == e.1);
                            }
                        }
                        if path_edges(shorter).contains(e) {
                            let i = choose|i: int|
                                0 <= i < shorter.len() - 1 && #[trigger] shorter[i] == e.0
                                    && shorter[i + 1] == e.1;
                            assert(longer[i] == e.0 && longer[i + 1] == e.1);
                        }
                        if e == edge {
                            assert(longer[k - 1] == e.0 && longer[k - 1 + 1] == e.1);
                        }
                    }
                    assert(path_edges(longer) =~= path_edges(shorter).insert(edge));
                    assert(self.edges() =~= old(self).edges().union(path_edges(longer)));
                } else {
                    assert(path_edges(longer) =~= path_edges(shorter));
                }
            }
            last = at;
            k += 1;
        }
        assert(p.take(path@.len() as int) == p);
    }

    /// The nodes that a path of node numbers visits.
    pub closed spec fn labels(&self, q: Seq<usize>) -> Seq<S::V> {
        q.map_values(|i: usize| self.nodes[i as int]@)
    }

    /// A copy of `v`.
    fn copy_numbers(v: &Vec<usize>) -> (out: Vec<usize>)
        ensures
            out@ == v@,
    {
        let mut out: Vec<usize> = Vec::new();
        let mut i: usize = 0;
        while i < v.len()
            invariant
                i <= v.len(),
                out@ == v@.take(i as int),
            decreases v.len() - i,
        {
            out.push(v[i]);
            assert(v@.take(i + 1) == v@.take(i as int).push(v@[i as int]));
            i += 1;
        }
        assert(v@.take(v@.len() as int) == v@);
        out
    }

    /// Visits `node`, which `path` leads to, with `rem` nodes still allowed:
    /// records the path to `node`, then visits each of its successors.
    fn walk(&self, path: &mut Vec<usize>, node: usize, rem: usize, out: &mut Vec<Vec<usize>>)
        requires
            self.wf(),
            node < self.nodes.len(),
        ensures
            final(path)@ == old(path)@,
            number_paths(final(out)@) == number_paths(old(out)@) + walks(
                self.succ@,
                old(path)@,
                node,
                rem as nat,
            ),
        decreases rem,
    {
        if rem == 0 {
            assert(number_paths(out@) + Seq::<Seq<usize>>::empty() =~= number_paths(out@));
            return ;
        }
        path.push(node);
        let ghost first = path@;
        let found = Self::copy_numbers(path);
        out.push(found);
        assert(number_paths(out@) =~= number_paths(old(out)@) + seq![first]);
        let targets = &self.succ[node];
        let mut j: usize = 0;
        while j < targets.len()
            invariant
                j <= targets.len(),
                self.wf(),
                node < self.nodes.len(),
                targets == self.succ[node as int],
                rem > 0,
                path@ == first,
                first == old(path)@.push(node),
                number_paths(out@) == number_paths(old(out)@) + seq![first] + walks_from(
                    self.succ@,
                    first,
                    targets@.take(j as int),
                    (rem - 1) as nat,
                ),
            decreases targets.len() - j,
        {
            let ghost before = number_paths(out@);
            assert(targets@.take(j + 1).drop_last() == targets@.take(j as int));
            assert(targets@.take(j + 1).last() == targets@[j as int]);
            assert(self.succ[node as int]@[j as int] < self.nodes.len());
            self.walk(path, targets[j], rem - 1, out);
            assert(number_paths(out@) =~= number_paths(old(out)@) + seq![first] + walks_from(
                self.succ@,
                first,
                targets@.take(j + 1),
                (rem - 1) as nat,
            ));
            j += 1;
        }
        assert(targets@.take(targets@.len() as int) == targets@);
        path.pop();
        assert(path@ =~= old(path)@);
        assert(number_paths(out@) =~= number_paths(old(out)@) + walks(
            self.succ@,
            old(path)@,
            node,
            rem as nat,
        ));
    }

    /// The node paths that paths of node numbers stand for.
    pub closed spec fn label_paths(&self, w: Seq<Seq<usize>>) -> Seq<Seq<S::V>> {
        w.map_values(|q: Seq<usize>| self.labels(q))
    }

    /// The number of the node `v`.
    closed spec fn spec_number(&self, v: S::V) -> int {
        choose|a: int| 0 <= a < self.nodes.len() && self.nodes[a]@ == v
    }

    /// A walk from node number `f` stands for a path of the graph that
    /// starts at that node.
    proof fn lemma_walk_is_path(&self, f: usize, max_len: nat, q: Seq<usize>)
        requires
            self.wf(),
            f < self.nodes.len(),
            extends(self.succ@, Seq::empty(), seq![f], max_len, q),
        ensures
            is_path(
                self.nodes(),
                self.edges(),
                self.nodes[f as int]@,
                max_len,
                self.labels(q),
            ),
    {
        let succ = self.succ@;
        let p = self.labels(q);
        let names = node_views(self.nodes@);
        assert(q.skip(0) == q);
        assert(q[0] == f);
        assert(names[f as int] == self.nodes[f as int]@);
        assert forall|i: int| 0 <= i < p.len() - 1 implies #[trigger] joined(
            self.edges(),
            p,
            i,
        ) by {
            assert(q[i] < succ.len());
            assert(linked(succ, q, i));
            let j = choose|j: int|
                0 <= j < succ[q[i] as int]@.len() && succ[q[i] as int]@[j] == q[i + 1];
            assert(self.nodes[(self.succ[q[i] as int]@[j]) as int]@ == p[i + 1]);
        }
    }

    /// Every node of a path of the graph has a number.
    proof fn lemma_path_nodes(&self, from: S::V, max_len: nat, p: Seq<S::V>, i: int)
        requires
            self.wf(),
            is_path(self.nodes(), self.edges(), from, max_len, p),
            0 <= i < p.len(),
        ensures
            0 <= self.spec_number(p[i]) < self.nodes.len(),
            self.nodes[self.spec_number(p[i])]@ == p[i],
    {
        let names = node_views(self.nodes@);
        if i == 0 {
            let a = choose|a: int| 0 <= a < names.len() && names[a] == from;
            assert(self.nodes[a]@ == p[0]);
        } else {
            assert(joined(self.edges(), p, i - 1));
            let (a, j) = choose|a: int, j: int|
                0 <= a < self.succ.len() && 0 <= j < self.succ[a].len() && self.nodes[a]@ == p[i
                    - 1] && self.nodes[(#[trigger] self.succ[a]@[j]) as int]@ == p[i];
            assert(self.succ[a]@[j] < self.nodes.len());
        }
    }

    /// Along a path of the graph, the number of each node is among the
    /// successors of the number of the node before it.
    proof fn lemma_path_step(&self, from: S::V, max_len: nat, p: Seq<S::V>, i: int)
        requires
            self.wf(),
            is_path(self.nodes(), self.edges(), from, max_len, p),
            0 <= i < p.len() - 1,
        ensures
            0 <= self.spec_number(p[i]) < self.succ.len(),
            self.succ[self.spec_number(p[i])]@.contains(self.spec_number(p[i + 1]) as usize),
            0 <= self.spec_number(p[i + 1]) < self.nodes.len(),
    {
        let names = node_views(self.nodes@);
        self.lemma_path_nodes(from, max_len, p, i);
        self.lemma_path_nodes(from, max_len, p, i + 1);
        let x = self.spec_number(p[i]);
        let y = self.spec_number(p[i + 1]);
        assert(joined(self.edges(), p, i));
        let (a, j) = choose|a: int, j: int|
            0 <= a < self.succ.len() && 0 <= j < self.succ[a].len() && self.nodes[a]@ == p[i]
                && self.nodes[(#[trigger] self.succ[a]@[j]) as int]@ == p[i + 1];
        let b = self.succ[a]@[j];
        assert(b < self.nodes.len());
        assert(names[a] == names[x]);
        assert(names[b as int] == names[y]);
        assert(self.succ[x]@[j] == y as usize);
    }

    /// A path of the graph that starts at node number `f` is what a walk
    /// from `f` stands for.
    proof fn lemma_path_is_walk(&self, f: usize, max_len: nat, p: Seq<S::V>) -> (q: Seq<usize>)
        requires
            self.wf(),
            f < self.nodes.len(),
            is_path(self.nodes(), self.edges(), self.nodes[f as int]@, max_len, p),
        ensures
            extends(self.succ@, Seq::empty(), seq![f], max_len, q),
            self.labels(q) == p,
    {
        let succ = self.succ@;
        let from = self.nodes[f as int]@;
        let names = node_views(self.nodes@);
        let q = Seq::new(p.len(), |i: int| self.spec_number(p[i]) as usize);
        assert forall|i: int| 0 <= i < q.len() implies #[trigger] q[i] < succ.len() by {
            self.lemma_path_nodes(from, max_len, p, i);
        }
        assert forall|i: int| 0 <= i < q.len() - 1 implies #[trigger] linked(succ, q, i) by {
            self.lemma_path_step(from, max_len, p, i);
        }
        assert forall|i: int| 0 <= i < p.len() implies self.labels(q)[i] == p[i] by {
            self.lemma_path_nodes(from, max_len, p, i);
        }
        assert(self.labels(q) =~= p);
        assert(q.skip(0) == q);
        self.lemma_path_nodes(from, max_len, p, 0);
        assert(names[q[0] as int] == names[f as int]);
        assert(seq![f][0] == q[0]);
        assert(q.take(0) =~= Seq::<usize>::empty());
        q
    }

    /// The walks from node number `f` stand for exactly the paths of the
    /// graph that start at that node.
    proof fn lemma_paths(&self, f: usize, max_len: nat)
        requires
            self.wf(),
            f < self.nodes.len(),
        ensures
            forall|p: Seq<S::V>| #[trigger]
                self.label_paths(walks(self.succ@, Seq::empty(), f, max_len)).contains(p)
                    <==> is_path(self.nodes(), self.edges(), self.nodes[f as int]@, max_len, p),
    {
        let succ = self.succ@;
        let w = walks(succ, Seq::empty(), f, max_len);
        let lw = self.label_paths(w);
        let from = self.nodes[f as int]@;
        lemma_walks(succ, Seq::empty(), f, max_len);
        assert forall|p: Seq<S::V>| #[trigger] lw.contains(p) implies is_path(
            self.nodes(),
            self.edges(),
            from,
            max_len,
            p,
        ) by {
            let k = choose|k: int| 0 <= k < lw.len() && lw[k] == p;
            let q = w[k];
            assert(w.contains(q));
            self.lemma_walk_is_path(f, max_len, q);
        }
        assert forall|p: Seq<S::V>|
            is_path(self.nodes(), self.edges(), from, max_len, p) implies #[trigger] lw.contains(
            p,
        ) by {
            let q = self.lemma_path_is_walk(f, max_len, p);
            assert(w.contains(q));
            let k = choose|k: int| 0 <= k < w.len() && w[k] == q;
            assert(lw[k] == p);
        }
    }

    /// Two paths of node numbers that visit the same nodes are the same.
    proof fn lemma_labels_tell_apart(&self, a: Seq<usize>, b: Seq<usize>)
        requires
            self.wf(),
            forall|i: int| 0 <= i < a.len() ==> #[trigger] a[i] < self.nodes.len(),
            forall|i: int| 0 <= i < b.len() ==> #[trigger] b[i] < self.nodes.len(),
            self.labels(a) == self.labels(b),
        ensures
            a == b,
    {
        let names = node_views(self.nodes@);
        assert(self.labels(a).len() == a.len());
        assert(self.labels(b).len() == b.len());
        assert forall|i: int| 0 <= i < a.len() implies a[i] == b[i] by {
            assert(self.labels(a)[i] == names[a[i] as int]);
            assert(self.labels(b)[i] == names[b[i] as int]);
        }
        assert(a =~= b);
    }

    /// The walks from node number `f` stand for paths that differ from
    /// each other.
    proof fn lemma_paths_distinct(&self, f: usize, max_len: nat)
        requires
            self.wf(),
            f < self.nodes.len(),
        ensures
            self.label_paths(walks(self.succ@, Seq::empty(), f, max_len)).no_duplicates(),
    {
        let succ = self.succ@;
        let w = walks(succ, Seq::empty(), f, max_len);
        let lw = self.label_paths(w);
        assert(simple(succ));
        lemma_walks_distinct(succ, Seq::empty(), f, max_len);
        lemma_walks(succ, Seq::empty(), f, max_len);
        assert forall|i: int, j: int| 0 <= i < j < lw.len() implies lw[i] != lw[j] by {
            assert(w.contains(w[i]));
            assert(w.contains(w[j]));
            assert(w[i].skip(0) == w[i]);
            assert(w[j].skip(0) == w[j]);
            assert(chained(succ, w[i]));
            assert(chained(succ, w[j]));
            if lw[i] == lw[j] {
                self.lemma_labels_tell_apart(w[i], w[j]);
            }
        }
    }

    /// The nodes that the path of node numbers `q` visits.
    fn label(&self, q: &Vec<usize>) -> (out: Vec<S>)
        requires
            forall|i: int| 0 <= i < q.len() ==> q[i] < self.nodes.len(),
        ensures
            node_views(out@) == self.labels(q@),
    {
        let mut out: Vec<S> = Vec::new();
        let mut i: usize = 0;
        while i < q.len()
            invariant
                i <= q.len(),
                forall|i: int| 0 <= i < q.len() ==> q[i] < self.nodes.len(),
                node_views(out@) == self.labels(q@.take(i as int)),
            decreases q.len() - i,
        {
            let ghost before = node_views(out@);
            out.push(self.nodes[q[i]].duplicate());
            proof {
                assert(node_views(out@) =~= before.push(self.nodes[q[i as int] as int]@));
                assert(q@.take(i + 1) =~= q@.take(i as int).push(q@[i as int]));
                assert(self.labels(q@.take(i + 1)) =~= self.labels(q@.take(i as int)).push(
                    self.nodes[q[i as int] as int]@,
                ));
            }
            i += 1;
        }
        assert(q@.take(q@.len() as int) == q@);
        out
    }

    /// Every path of the graph that starts at `from` and has at least one
    /// node and at most `max_len`. Each prefix of such a path is one of
    /// them, and a path may pass through a node more than once. There is
    /// none where `from` is no node of the graph, or `max_len` is 0.
    pub fn all_paths(&self, from: &S, max_len: usize) -> (out: Vec<Vec<S>>)
        requires
            self.wf(),
        ensures
            forall|p: Seq<S::V>| #[trigger]
                node_paths(out@).contains(p) <==> is_path(
                    self.nodes(),
                    self.edges(),
                    from@,
                    max_len as nat,
                    p,
                ),
            forall|k: int| 0 <= k < out.len() ==> 1 <= (#[trigger] out[k]).len() <= max_len,
            node_paths(out@).no_duplicates(),
            max_len == 0 ==> out.len() == 0,
            !self.nodes().contains(from@) ==> out.len() == 0,
    {
        let mut out: Vec<Vec<S>> = Vec::new();
        match self.number_of(from) {
            None => {
                assert forall|p: Seq<S::V>| #[trigger]
                    node_paths(out@).contains(p) <==> is_path(
                        self.nodes(),
                        self.edges(),
                        from@,
                        max_len as nat,
                        p,
                    ) by {}
                out
            },
            Some(f) => {
                let mut path: Vec<usize> = Vec::new();
                let mut found: Vec<Vec<usize>> = Vec::new();
                self.walk(&mut path, f, max_len, &mut found);
                let ghost w = walks(self.succ@, Seq::empty(), f, max_len as nat);
                proof {
                    assert(number_paths(found@) =~= w);
                    lemma_walks(self.succ@, Seq::empty(), f, max_len as nat);
                    self.lemma_paths(f, max_len as nat);
                    self.lemma_paths_distinct(f, max_len as nat);
                    assert(node_views(self.nodes@)[f as int] == from@);
                }
                let mut k: usize = 0;
                while k < found.len()
                    invariant
                        k <= found.len(),
                        self.wf(),
                        number_paths(found@) == w,
                        forall|p: Seq<usize>| #[trigger]
                            w.contains(p) <==> extends(
                                self.succ@,
                                Seq::empty(),
                                seq![f],
                                max_len as nat,
                                p,
                            ),
                        node_paths(out@) == self.label_paths(w.take(k as int)),
                        out.len() == k,
                        forall|i: int| 0 <= i < k ==> 1 <= (#[trigger] out[i]).len() <= max_len,
                    decreases found.len() - k,
                {
                    let q = &found[k];
                    proof {
                        assert(w[k as int] == q@);
                        assert(w.contains(q@));
                        assert(q@.skip(0) == q@);
                        assert forall|i: int| 0 <= i < q.len() implies q[i] < self.nodes.len() by {
                            assert(chained(self.succ@, q@));
                        }
                    }
                    let named = self.label(q);
                    let ghost before = node_paths(out@);
                    assert(named.len() == node_views(named@).len());
                    assert(self.labels(q@).len() == q@.len());
                    out.push(named);
                    proof {
                        assert(node_paths(out@) =~= before.push(self.labels(q@)));
                        assert(w.take(k + 1) =~= w.take(k as int).push(q@));
                        assert(self.label_paths(w.take(k + 1)) =~= self.label_paths(
                            w.take(k as int),
                        ).push(self.labels(q@)));
                    }
                    k += 1;
                }
                proof {
                    assert(w.take(found@.len() as int) == w);
                    if max_len == 0 {
                        assert(w.len() == 0);
                    }
                }
                out
            },
        }
    }
}

/// The paths of node numbers that a vector of vectors holds.
pub open spec fn number_paths(v: Seq<Vec<usize>>) -> Seq<Seq<usize>> {
    v.map_values(|q: Vec<usize>| q@)
}

/// The paths of nodes that a vector of vectors of node values holds.
pub open spec fn node_paths<S: Node>(v: Seq<Vec<S>>) -> Seq<Seq<S::V>> {
    v.map_values(|q: Vec<S>| node_views(q@))
}


/// Adding a path that was added before changes nothing: the nodes and
/// edges of a graph with the path added twice are those with it added
/// once.
pub proof fn lemma_add_path_again<V>(nodes: Set<V>, edges: Set<(V, V)>, p: Seq<V>)
    ensures
        nodes.union(p.to_set()).union(p.to_set()) == nodes.union(p.to_set()),
        edges.union(path_edges(p)).union(path_edges(p)) == edges.union(path_edges(p)),
{
    assert(nodes.union(p.to_set()).union(p.to_set()) =~= nodes.union(p.to_set()));
    assert(edges.union(path_edges(p)).union(path_edges(p)) =~= edges.union(path_edges(p)));
}

/// The sequence of `len` nodes that goes back and forth between `x` and
/// `y`, starting at `x`.
pub open spec fn back_and_forth<V>(x: V, y: V, len: nat) -> Seq<V> {
    Seq::new(
        len,
        |i: int|
            if i % 2 == 0 {
                x
            } else {
                y
            },
    )
}

/// No path has no node: with 0 for the greatest length there is no path,
/// whatever the graph and the node to start at.
pub proof fn lemma_no_path_of_length_zero<V>(nodes: Set<V>, edges: Set<(V, V)>, from: V, p: Seq<V>)
    ensures
        !is_path(nodes, edges, from, 0, p),
{
}

/// A path is at most as long as the greatest length asked for, and stays a
/// path when a greater length is allowed.
pub proof fn lemma_paths_grow<V>(
    nodes: Set<V>,
    edges: Set<(V, V)>,
    from: V,
    k: nat,
    more: nat,
    p: Seq<V>,
)
    requires
        is_path(nodes, edges, from, k, p),
        k <= more,
    ensures
        p.len() <= k,
        is_path(nodes, edges, from, more, p),
{
}

/// In a graph that holds a cycle between `x` and `y`, allowing one more
/// node gives strictly more paths from `x`: every path of at most `k` nodes
/// is still one, and the path of `k + 1` nodes that goes back and forth
/// between `x` and `y` is new.
pub proof fn lemma_cycle_gives_more_paths<V>(
    nodes: Set<V>,
    edges: Set<(V, V)>,
    x: V,
    y: V,
    k: nat,
)
    requires
        nodes.contains(x),
        edges.contains((x, y)),
        edges.contains((y, x)),
    ensures
        forall|p: Seq<V>|
            is_path(nodes, edges, x, k, p) ==> #[trigger] is_path(nodes, edges, x, k + 1, p),
        is_path(nodes, edges, x, k + 1, back_and_forth(x, y, k + 1)),
        !is_path(nodes, edges, x, k, back_and_forth(x, y, k + 1)),
{
    let p = back_and_forth(x, y, k + 1);
    assert forall|i: int| 0 <= i < p.len() - 1 implies #[trigger] joined(edges, p, i) by {
        if i % 2 == 0 {
            assert(p[i] == x && p[i + 1] == y);
        } else {
            assert(p[i] == y && p[i + 1] == x);
        }
    }
}

} // verus!
