use vstd::prelude::*;

verus! {

/// No two elements of the sequence have the same key.
pub open spec fn distinct_by<A, K>(s: Seq<A>, key: spec_fn(A) -> K) -> bool {
    forall|i: int, j: int|
        #![trigger s[i], s[j]]
        0 <= i < s.len() && 0 <= j < s.len() && i != j ==> key(s[i]) != key(s[j])
}

/// Appending an element whose key no element has keeps the keys distinct.
pub proof fn push_keeps_distinct<A, K>(s: Seq<A>, x: A, key: spec_fn(A) -> K)
    requires
        distinct_by(s, key),
        forall|i: int| 0 <= i < s.len() ==> key(#[trigger] s[i]) != key(x),
    ensures
        distinct_by(s.push(x), key),
{
    let t = s.push(x);
    assert forall|i: int, j: int|
        0 <= i < t.len() && 0 <= j < t.len() && i != j implies key(#[trigger] t[i]) != key(#[trigger] t[j]) by {
        if i == s.len() {
            assert(t[j] == s[j]);
        } else if j == s.len() {
            assert(t[i] == s[i]);
        } else {
            assert(t[i] == s[i] && t[j] == s[j]);
        }
    }
}

/// Replacing an element by one with the same key keeps the keys distinct.
pub proof fn update_keeps_distinct<A, K>(s: Seq<A>, i: int, x: A, key: spec_fn(A) -> K)
    requires
        distinct_by(s, key),
        0 <= i < s.len(),
        key(x) == key(s[i]),
    ensures
        distinct_by(s.update(i, x), key),
{
    let t = s.update(i, x);
    assert forall|a: int, b: int|
        0 <= a < t.len() && 0 <= b < t.len() && a != b implies key(#[trigger] t[a]) != key(#[trigger] t[b]) by {
        assert(key(t[a]) == key(s[a]));
        assert(key(t[b]) == key(s[b]));
    }
}

} // verus!
