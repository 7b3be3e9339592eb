//! Membership in sequences that grow.

use vstd::prelude::*;

verus! {

/// One more element of a sequence taken: what the longer prefix contains.
pub proof fn lemma_take_next<A>(s: Seq<A>, i: int)
    requires
        0 <= i < s.len(),
    ensures
        forall|x: A| s.take(i + 1).contains(x) <==> (s.take(i).contains(x) || x == s[i]),
        s.no_duplicates() ==> !s.take(i).contains(s[i]),
{
    let done = s.take(i);
    let next = s.take(i + 1);
    assert forall|x: A| next.contains(x) <==> (done.contains(x) || x == s[i]) by {
        if next.contains(x) {
            let k = choose|k: int| 0 <= k < next.len() && next[k] == x;
            if k < i {
                assert(done[k] == x);
            }
        }
        if done.contains(x) {
            let k = choose|k: int| 0 <= k < done.len() && done[k] == x;
            assert(next[k] == x);
        }
        assert(next[i] == s[i]);
    }
    if s.no_duplicates() && done.contains(s[i]) {
        let k = choose|k: int| 0 <= k < done.len() && done[k] == s[i];
        assert(s[k] == s[i]);
    }
}

/// What a sequence contains once an element is pushed, and when it stays free
/// of duplicates.
pub proof fn lemma_push_contains<A>(s: Seq<A>, e: A)
    ensures
        forall|x: A| s.push(e).contains(x) <==> (s.contains(x) || x == e),
        s.no_duplicates() && !s.contains(e) ==> s.push(e).no_duplicates(),
{
    let t = s.push(e);
    assert forall|x: A| t.contains(x) <==> (s.contains(x) || x == e) by {
        if t.contains(x) {
            let k = choose|k: int| 0 <= k < t.len() && t[k] == x;
            if k < s.len() {
                assert(s[k] == x);
            }
        }
        if s.contains(x) {
            let k = choose|k: int| 0 <= k < s.len() && s[k] == x;
            assert(t[k] == x);
        }
        assert(t[s.len() as int] == e);
    }
    if s.no_duplicates() && !s.contains(e) {
        assert forall|i: int, j: int| 0 <= i < t.len() && 0 <= j < t.len() && i != j implies t[i]
            != t[j] by {
            if i < s.len() && j < s.len() {
                assert(s[i] != s[j]);
            } else if i < s.len() {
                assert(s.contains(s[i]));
            } else {
                assert(s.contains(s[j]));
            }
        }
    }
}

/// What two sequences contain once they are joined, and when the result is
/// free of duplicates.
pub proof fn lemma_joined<A>(a: Seq<A>, b: Seq<A>)
    ensures
        forall|x: A| (a + b).contains(x) <==> (a.contains(x) || b.contains(x)),
        a.no_duplicates() && b.no_duplicates() && (forall|x: A| !(a.contains(x) && b.contains(x)))
            ==> (a + b).no_duplicates(),
{
    let c = a + b;
    assert forall|x: A| c.contains(x) <==> (a.contains(x) || b.contains(x)) by {
        if c.contains(x) {
            let k = choose|k: int| 0 <= k < c.len() && c[k] == x;
            if k < a.len() {
                assert(a[k] == x);
            } else {
                assert(b[k - a.len()] == x);
            }
        }
        if a.contains(x) {
            let k = choose|k: int| 0 <= k < a.len() && a[k] == x;
            assert(c[k] == x);
        }
        if b.contains(x) {
            let k = choose|k: int| 0 <= k < b.len() && b[k] == x;
            assert(c[k + a.len()] == x);
        }
    }
    if a.no_duplicates() && b.no_duplicates() && (forall|x: A| !(a.contains(x) && b.contains(x))) {
        assert forall|i: int, j: int| 0 <= i < c.len() && 0 <= j < c.len() && i != j implies c[i]
            != c[j] by {
            if i < a.len() && j < a.len() {
                assert(a[i] != a[j]);
            } else if i >= a.len() && j >= a.len() {
                assert(b[i - a.len()] != b[j - a.len()]);
            } else if i < a.len() {
                assert(a.contains(a[i]));
                assert(b.contains(b[j - a.len()]));
            } else {
                assert(a.contains(a[j]));
                assert(b.contains(b[i - a.len()]));
            }
        }
    }
}

} // verus!
