//! The order of texts: that of a dictionary, by the characters' code
//! points.

use vstd::prelude::*;

verus! {

/// Whether `a` stands before `b`: at the first place where they differ `a`
/// has the smaller character, or `a` ends there and `b` does not.
pub open spec fn text_lt(a: Seq<char>, b: Seq<char>) -> bool
    decreases a.len(),
{
    if b.len() == 0 {
        false
    } else if a.len() == 0 {
        true
    } else if a[0] != b[0] {
        (a[0] as u32) < (b[0] as u32)
    } else {
        text_lt(a.skip(1), b.skip(1))
    }
}

/// Of two different texts one stands before the other, and no text stands
/// before itself.
pub proof fn lemma_text_lt_total(a: Seq<char>, b: Seq<char>)
    ensures
        a != b ==> (text_lt(a, b) || text_lt(b, a)),
        !(text_lt(a, b) && text_lt(b, a)),
        a == b ==> !text_lt(a, b),
    decreases a.len(),
{
    if a.len() > 0 && b.len() > 0 && a[0] == b[0] {
        lemma_text_lt_total(a.skip(1), b.skip(1));
        if a.skip(1) == b.skip(1) {
            assert(a =~= seq![a[0]] + a.skip(1));
            assert(b =~= seq![b[0]] + b.skip(1));
        }
    } else if a.len() == 0 && b.len() == 0 {
        assert(a =~= b);
    } else if a.len() > 0 && b.len() > 0 {
        assert(a[0] != b[0]);
        assert(a[0] as u32 != b[0] as u32) by {
            vstd::utf8::char_u32_cast(a[0], a[0] as u32);
            vstd::utf8::char_u32_cast(b[0], b[0] as u32);
        }
    }
}

/// What stands before a text that stands before a third stands before
/// the third.
pub proof fn lemma_text_lt_transitive(a: Seq<char>, b: Seq<char>, c: Seq<char>)
    requires
        text_lt(a, b),
        text_lt(b, c),
    ensures
        text_lt(a, c),
    decreases a.len(),
{
    if a.len() > 0 && a[0] == b[0] && b[0] == c[0] {
        lemma_text_lt_transitive(a.skip(1), b.skip(1), c.skip(1));
    }
}

/// How `a[i..]` stands to `b[i..]`, given that the two agree before `i`.
proof fn lemma_text_lt_from(a: Seq<char>, b: Seq<char>, i: int)
    requires
        0 <= i <= a.len(),
        i <= b.len(),
        forall|j: int| 0 <= j < i ==> a[j] == b[j],
    ensures
        text_lt(a, b) == text_lt(a.skip(i), b.skip(i)),
    decreases i,
{
    if i > 0 {
        lemma_text_lt_from(a, b, i - 1);
        let x = a.skip(i - 1);
        let y = b.skip(i - 1);
        assert(x[0] == y[0]);
        assert(x.skip(1) == a.skip(i));
        assert(y.skip(1) == b.skip(i));
    } else {
        assert(a.skip(0) == a);
        assert(b.skip(0) == b);
    }
}

/// How two texts stand to each other.
#[derive(Clone, Copy, Debug, PartialEq, Eq, Structural)]
pub enum Place {
    /// The first stands before the second.
    Before,
    /// The two are the same text.
    Same,
    /// The first stands behind the second.
    Behind,
}

/// How `a` stands to `b`.
pub fn place_of(a: &Vec<char>, b: &Vec<char>) -> (out: Place)
    ensures
        out == Place::Before <==> text_lt(a@, b@),
        out == Place::Same <==> a@ == b@,
        out == Place::Behind <==> text_lt(b@, a@),
{
    let mut i: usize = 0;
    while i < a.len() && i < b.len()
        invariant
            i <= a.len(),
            i <= b.len(),
            forall|j: int| 0 <= j < i ==> a@[j] == b@[j],
        decreases a.len() - i,
    {
        if a[i] != b[i] {
            proof {
                lemma_text_lt_from(a@, b@, i as int);
                lemma_text_lt_from(b@, a@, i as int);
                lemma_text_lt_total(a@, b@);
                assert(a@.skip(i as int)[0] == a@[i as int]);
                assert(b@.skip(i as int)[0] == b@[i as int]);
            }
            if (a[i] as u32) < (b[i] as u32) {
                return Place::Before;
            } else {
                return Place::Behind;
            }
        }
        i += 1;
    }
    proof {
        lemma_text_lt_from(a@, b@, i as int);
        lemma_text_lt_from(b@, a@, i as int);
        lemma_text_lt_total(a@, b@);
    }
    if i < b.len() {
        Place::Before
    } else if i < a.len() {
        Place::Behind
    } else {
        assert(a@ =~= b@);
        Place::Same
    }
}

/// Whether each text of `s` but the last stands before the one behind it.
pub open spec fn ascending(s: Seq<Seq<char>>) -> bool {
    forall|i: int, j: int| 0 <= i < j < s.len() ==> text_lt(#[trigger] s[i], #[trigger] s[j])
}


/// There is one way only to put a set of texts in ascending order.
pub proof fn lemma_ascending_unique(a: Seq<Seq<char>>, b: Seq<Seq<char>>)
    requires
        ascending(a),
        ascending(b),
        a.to_set() == b.to_set(),
    ensures
        a == b,
    decreases a.len(),
{
    if a.len() == 0 {
        if b.len() > 0 {
            assert(b.contains(b[0]));
            assert(a.to_set().contains(b[0]));
        }
        assert(a =~= b);
    } else {
        let x = a.last();
        assert(a.contains(x));
        assert(b.to_set().contains(x));
        let j = choose|j: int| 0 <= j < b.len() && b[j] == x;
        let y = b.last();
        assert(b.contains(y));
        assert(a.to_set().contains(y));
        let i = choose|i: int| 0 <= i < a.len() && a[i] == y;
        lemma_text_lt_total(x, y);
        if j < b.len() - 1 {
            assert(text_lt(b[j], b[b.len() - 1]));
        }
        if i < a.len() - 1 {
            assert(text_lt(a[i], a[a.len() - 1]));
        }
        assert(x == y);
        let a0 = a.drop_last();
        let b0 = b.drop_last();
        assert forall|v: Seq<char>| a0.contains(v) <==> b0.contains(v) by {
            if a0.contains(v) {
                let k = choose|k: int| 0 <= k < a0.len() && a0[k] == v;
                assert(a[k] == v);
                assert(text_lt(a[k], a[a.len() - 1]));
                lemma_text_lt_total(v, x);
                assert(a.contains(v));
                assert(b.to_set().contains(v));
                let m = choose|m: int| 0 <= m < b.len() && b[m] == v;
                assert(b0[m] == v);
            }
            if b0.contains(v) {
                let k = choose|k: int| 0 <= k < b0.len() && b0[k] == v;
                assert(b[k] == v);
                assert(text_lt(b[k], b[b.len() - 1]));
                lemma_text_lt_total(v, y);
                assert(b.contains(v));
                assert(a.to_set().contains(v));
                let m = choose|m: int| 0 <= m < a.len() && a[m] == v;
                assert(a0[m] == v);
            }
        }
        assert(a0.to_set() =~= b0.to_set());
        assert forall|p: int, q: int| 0 <= p < q < a0.len() implies text_lt(
            #[trigger] a0[p],
            #[trigger] a0[q],
        ) by {
            assert(text_lt(a[p], a[q]));
        }
        assert forall|p: int, q: int| 0 <= p < q < b0.len() implies text_lt(
            #[trigger] b0[p],
            #[trigger] b0[q],
        ) by {
            assert(text_lt(b[p], b[q]));
        }
        lemma_ascending_unique(a0, b0);
        assert(a =~= a0.push(x));
        assert(b =~= b0.push(y));
    }
}

} // verus!
