//! Linear search for the first element of a sequence that meets a condition.

use vstd::prelude::*;
use vstd::std_specs::cmp::PartialEqSpec;

verus! {

/// The first position of `s` whose element meets `f`, or `s.len()` where no
/// element does.
pub open spec fn first_where<E>(s: Seq<E>, f: spec_fn(E) -> bool) -> int
    decreases s.len(),
{
    if s.len() == 0 || f(s[0]) {
        0
    } else {
        1 + first_where(s.drop_first(), f)
    }
}

/// `p` is the first position of `s` whose element meets `f`: no element
/// before `p` meets it, and the element at `p`, if there is one, does.
pub open spec fn is_first_where<E>(s: Seq<E>, f: spec_fn(E) -> bool, p: int) -> bool {
    &&& 0 <= p <= s.len()
    &&& forall|j: int| 0 <= j < p ==> !f(#[trigger] s[j])
    &&& p < s.len() ==> f(s[p])
}

/// Some element of `s` meets `f`.
pub open spec fn some_where<E>(s: Seq<E>, f: spec_fn(E) -> bool) -> bool {
    exists|i: int| 0 <= i < s.len() && f(#[trigger] s[i])
}

/// The first element of `s` that meets `f`, if there is one.
pub open spec fn first_of<E>(s: Seq<E>, f: spec_fn(E) -> bool) -> Option<E> {
    let p = first_where(s, f);
    if p < s.len() {
        Some(s[p])
    } else {
        None
    }
}

/// The condition that an element equals `probe`, which may be of another
/// type than the element.
pub open spec fn matching<E: PartialEq<T>, T>(probe: T) -> spec_fn(E) -> bool {
    |e: E| e.eq_spec(&probe)
}

/// A position that `is_first_where` describes is the one that `first_where`
/// computes.
pub proof fn lemma_first_where_unique<E>(s: Seq<E>, f: spec_fn(E) -> bool, p: int)
    requires
        is_first_where(s, f, p),
    ensures
        first_where(s, f) == p,
    decreases s.len(),
{
    if s.len() == 0 || f(s[0]) {
        if p > 0 {
            assert(!f(s[0]));
        }
    } else {
        let t = s.drop_first();
        assert forall|j: int| 0 <= j < p - 1 implies !f(#[trigger] t[j]) by {
            assert(t[j] == s[j + 1]);
        }
        lemma_first_where_unique(t, f, p - 1);
    }
}

/// `first_where` computes a position that `is_first_where` describes, and it
/// lies inside `s` exactly when some element meets `f`.
pub proof fn lemma_first_where_is_first<E>(s: Seq<E>, f: spec_fn(E) -> bool)
    ensures
        is_first_where(s, f, first_where(s, f)),
        first_where(s, f) < s.len() <==> some_where(s, f),
    decreases s.len(),
{
    let p = first_where(s, f);
    if s.len() == 0 || f(s[0]) {
    } else {
        let t = s.drop_first();
        lemma_first_where_is_first(t, f);
        assert forall|j: int| 0 <= j < p implies !f(#[trigger] s[j]) by {
            if j > 0 {
                assert(s[j] == t[j - 1]);
            }
        }
        if p < s.len() {
            assert(s[p] == t[p - 1]);
        }
    }
    if some_where(s, f) {
        let i = choose|i: int| 0 <= i < s.len() && f(#[trigger] s[i]);
        if p > i {
            assert(!f(s[i]));
        }
    }
}

} // verus!
