//! Walks through a graph whose nodes are numbered: the paths that a
//! depth-first traversal of bounded depth finds, and what they are.

use vstd::prelude::*;

verus! {

/// Whether the node at `i + 1` in `q` is a successor of the node at `i`.
pub open spec fn linked(succ: Seq<Vec<usize>>, q: Seq<usize>, i: int) -> bool {
    succ[q[i] as int]@.contains(q[i + 1])
}

/// Whether `q` holds nodes of the graph only, each but the first a
/// successor of the node before it.
pub open spec fn chained(succ: Seq<Vec<usize>>, q: Seq<usize>) -> bool {
    &&& forall|i: int| 0 <= i < q.len() ==> #[trigger] q[i] < succ.len()
    &&& forall|i: int| 0 <= i < q.len() - 1 ==> #[trigger] linked(succ, q, i)
}

/// Whether `p` is `prefix` and then a walk of 1 to `rem` nodes that starts
/// at a node of `starts`.
pub open spec fn extends(
    succ: Seq<Vec<usize>>,
    prefix: Seq<usize>,
    starts: Seq<usize>,
    rem: nat,
    p: Seq<usize>,
) -> bool {
    &&& prefix.len() < p.len() <= prefix.len() + rem
    &&& p.take(prefix.len() as int) == prefix
    &&& starts.contains(p[prefix.len() as int])
    &&& chained(succ, p.skip(prefix.len() as int))
}

/// The paths that a depth-first traversal records when it enters `node`
/// with `prefix` behind it and `rem` nodes still allowed: the path to
/// `node` itself, then what it records in each successor in turn.
pub open spec fn walks(succ: Seq<Vec<usize>>, prefix: Seq<usize>, node: usize, rem: nat) -> Seq<
    Seq<usize>,
>
    decreases rem, 0nat,
{
    if rem == 0 || node >= succ.len() {
        Seq::empty()
    } else {
        seq![prefix.push(node)] + walks_from(
            succ,
            prefix.push(node),
            succ[node as int]@,
            (rem - 1) as nat,
        )
    }
}

/// The paths that the traversal records in the nodes of `targets`, taken
/// in order.
pub open spec fn walks_from(
    succ: Seq<Vec<usize>>,
    prefix: Seq<usize>,
    targets: Seq<usize>,
    rem: nat,
) -> Seq<Seq<usize>>
    decreases rem, 1 + targets.len(),
{
    if targets.len() == 0 {
        Seq::empty()
    } else {
        walks_from(succ, prefix, targets.drop_last(), rem) + walks(
            succ,
            prefix,
            targets.last(),
            rem,
        )
    }
}

/// A walk of one node more: the node in front, then a walk from one of its
/// successors.
proof fn lemma_chained_step(succ: Seq<Vec<usize>>, q: Seq<usize>)
    requires
        q.len() >= 2,
    ensures
        chained(succ, q) <==> (q[0] < succ.len() && succ[q[0] as int]@.contains(q[1]) && chained(
            succ,
            q.skip(1),
        )),
{
    let t = q.skip(1);
    if chained(succ, q) {
        assert(q[0] < succ.len());
        assert(linked(succ, q, 0));
        assert forall|i: int| 0 <= i < t.len() implies #[trigger] t[i] < succ.len() by {
            assert(t[i] == q[i + 1]);
        }
        assert forall|i: int| 0 <= i < t.len() - 1 implies #[trigger] linked(succ, t, i) by {
            assert(linked(succ, q, i + 1));
            assert(t[i] == q[i + 1]);
            assert(t[i + 1] == q[i + 1 + 1]);
        }
    }
    if q[0] < succ.len() && succ[q[0] as int]@.contains(q[1]) && chained(succ, t) {
        assert forall|i: int| 0 <= i < q.len() implies #[trigger] q[i] < succ.len() by {
            if i > 0 {
                assert(t[i - 1] == q[i]);
            }
        }
        assert forall|i: int| 0 <= i < q.len() - 1 implies #[trigger] linked(succ, q, i) by {
            if i > 0 {
                assert(linked(succ, t, i - 1));
                assert(t[i - 1] == q[i]);
                assert(t[i - 1 + 1] == q[i + 1]);
            }
        }
    }
}

/// The traversal records exactly the walks of 1 to `rem` nodes from `node`,
/// each behind `prefix`.
pub proof fn lemma_walks(succ: Seq<Vec<usize>>, prefix: Seq<usize>, node: usize, rem: nat)
    requires
        node < succ.len(),
    ensures
        forall|p: Seq<usize>| #[trigger]
            walks(succ, prefix, node, rem).contains(p) <==> extends(
                succ,
                prefix,
                seq![node],
                rem,
                p,
            ),
    decreases rem, 0nat,
{
    let w = walks(succ, prefix, node, rem);
    let n = prefix.len() as int;
    if rem == 0 {
    } else {
        let first = prefix.push(node);
        let targets = succ[node as int]@;
        let deeper = walks_from(succ, first, targets, (rem - 1) as nat);
        lemma_walks_from(succ, first, targets, (rem - 1) as nat);
        assert forall|p: Seq<usize>| #[trigger] w.contains(p) implies extends(
            succ,
            prefix,
            seq![node],
            rem,
            p,
        ) by {
            let k = choose|k: int| 0 <= k < w.len() && w[k] == p;
            assert(seq![node][0] == node);
            if k == 0 {
                assert(p == first);
                assert(p.take(n) == prefix);
                assert(p.skip(n) == seq![node]);
                assert(p[n] == node);
                assert(seq![node].contains(p[n]));
                assert(chained(succ, p.skip(n)));
            } else {
                assert(deeper[k - 1] == p);
                assert(deeper.contains(p));
                assert(extends(succ, first, targets, (rem - 1) as nat, p));
                assert(p.take(n) == p.take(n + 1).take(n));
                let q = p.skip(n);
                assert(q.skip(1) == p.skip(n + 1));
                assert(p.take(n + 1)[n] == node);
                assert(q[0] == node);
                assert(q[1] == p[n + 1]);
                lemma_chained_step(succ, q);
                assert(chained(succ, q));
                assert(p[n] == node);
                assert(seq![node].contains(p[n]));
                assert(p.take(n) == prefix);
            }
        }
        assert forall|p: Seq<usize>| extends(succ, prefix, seq![node], rem, p) implies #[trigger]
            w.contains(p) by {
            assert(p[n] == node);
            if p.len() == n + 1 {
                assert(p =~= first);
                assert(w[0] == p);
            } else {
                let q = p.skip(n);
                assert(q.skip(1) == p.skip(n + 1));
                assert(q[0] == node);
                assert(q[1] == p[n + 1]);
                lemma_chained_step(succ, q);
                assert(p.take(n + 1) =~= first);
                assert(targets.contains(p[n + 1]));
                assert(extends(succ, first, targets, (rem - 1) as nat, p));
                assert(deeper.contains(p));
                let k = choose|k: int| 0 <= k < deeper.len() && deeper[k] == p;
                assert(w[k + 1] == p);
            }
        }
    }
}

/// The traversal records, in the nodes of `targets`, exactly the walks of 1
/// to `rem` nodes that start at one of them, each behind `prefix`.
pub proof fn lemma_walks_from(
    succ: Seq<Vec<usize>>,
    prefix: Seq<usize>,
    targets: Seq<usize>,
    rem: nat,
)
    ensures
        forall|p: Seq<usize>| #[trigger]
            walks_from(succ, prefix, targets, rem).contains(p) <==> extends(
                succ,
                prefix,
                targets,
                rem,
                p,
            ),
    decreases rem, 1 + targets.len(),
{
    let w = walks_from(succ, prefix, targets, rem);
    let n = prefix.len() as int;
    if targets.len() > 0 {
        let shorter = targets.drop_last();
        let last = targets.last();
        let a = walks_from(succ, prefix, shorter, rem);
        let b = walks(succ, prefix, last, rem);
        lemma_walks_from(succ, prefix, shorter, rem);
        if last < succ.len() {
            lemma_walks(succ, prefix, last, rem);
        }
        assert forall|p: Seq<usize>| #[trigger]
            w.contains(p) <==> extends(succ, prefix, targets, rem, p) by {
            if w.contains(p) {
                let k = choose|k: int| 0 <= k < w.len() && w[k] == p;
                if k < a.len() {
                    assert(a[k] == p);
                    assert(a.contains(p));
                    let j = choose|j: int| 0 <= j < shorter.len() && shorter[j] == p[n];
                    assert(targets[j] == p[n]);
                } else {
                    assert(b[k - a.len()] == p);
                    assert(b.contains(p));
                    assert(last < succ.len());
                    assert(seq![last][0] == last);
                    assert(targets[targets.len() - 1] == p[n]);
                }
            }
            if extends(succ, prefix, targets, rem, p) {
                assert(p.skip(n)[0] == p[n]);
                let j = choose|j: int| 0 <= j < targets.len() && targets[j] == p[n];
                if j < shorter.len() {
                    assert(shorter[j] == p[n]);
                    assert(a.contains(p));
                    let k = choose|k: int| 0 <= k < a.len() && a[k] == p;
                    assert(w[k] == p);
                } else {
                    assert(seq![last][0] == last);
                    assert(extends(succ, prefix, seq![last], rem, p));
                    assert(b.contains(p));
                    let k = choose|k: int| 0 <= k < b.len() && b[k] == p;
                    assert(w[a.len() + k] == p);
                }
            }
        }
    }
}


/// Whether no list of successors holds a node twice.
pub open spec fn simple(succ: Seq<Vec<usize>>) -> bool {
    forall|i: int| 0 <= i < succ.len() ==> (#[trigger] succ[i])@.no_duplicates()
}

/// The traversal records no path twice.
pub proof fn lemma_walks_distinct(succ: Seq<Vec<usize>>, prefix: Seq<usize>, node: usize, rem: nat)
    requires
        simple(succ),
        node < succ.len(),
    ensures
        walks(succ, prefix, node, rem).no_duplicates(),
    decreases rem, 0nat,
{
    if rem > 0 {
        let first = prefix.push(node);
        let targets = succ[node as int]@;
        let deeper = walks_from(succ, first, targets, (rem - 1) as nat);
        lemma_walks_from_distinct(succ, first, targets, (rem - 1) as nat);
        lemma_walks_from(succ, first, targets, (rem - 1) as nat);
        let head = seq![first];
        assert forall|i: int, j: int| 0 <= i < head.len() && 0 <= j < deeper.len() implies head[i]
            != deeper[j] by {
            assert(deeper.contains(deeper[j]));
            assert(extends(succ, first, targets, (rem - 1) as nat, deeper[j]));
        }
        vstd::seq_lib::lemma_no_dup_in_concat(head, deeper);
    }
}

/// The traversal records no path twice in the nodes of a list that holds
/// no node twice.
pub proof fn lemma_walks_from_distinct(
    succ: Seq<Vec<usize>>,
    prefix: Seq<usize>,
    targets: Seq<usize>,
    rem: nat,
)
    requires
        simple(succ),
        targets.no_duplicates(),
    ensures
        walks_from(succ, prefix, targets, rem).no_duplicates(),
    decreases rem, 1 + targets.len(),
{
    if targets.len() > 0 {
        let shorter = targets.drop_last();
        let last = targets.last();
        let a = walks_from(succ, prefix, shorter, rem);
        let b = walks(succ, prefix, last, rem);
        lemma_walks_from_distinct(succ, prefix, shorter, rem);
        lemma_walks_from(succ, prefix, shorter, rem);
        if last < succ.len() {
            lemma_walks_distinct(succ, prefix, last, rem);
            lemma_walks(succ, prefix, last, rem);
        }
        let n = prefix.len() as int;
        assert forall|i: int, j: int| 0 <= i < a.len() && 0 <= j < b.len() implies a[i]
            != b[j] by {
            assert(a.contains(a[i]));
            assert(b.contains(b[j]));
            assert(extends(succ, prefix, shorter, rem, a[i]));
            assert(extends(succ, prefix, seq![last], rem, b[j]));
            let x = choose|x: int| 0 <= x < shorter.len() && shorter[x] == a[i][n];
            assert(targets[x] == a[i][n]);
            assert(seq![last][0] == last);
            assert(b[j][n] == last);
            assert(targets[targets.len() - 1] == last);
        }
        vstd::seq_lib::lemma_no_dup_in_concat(a, b);
    }
}

} // verus!
