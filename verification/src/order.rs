//! The mathematical model of ordered insertion.

use std::cmp::Ordering;

use vstd::prelude::*;
use vstd::std_specs::cmp::PartialEqIs;
use vstd::std_specs::cmp::PartialEqSpec;
use vstd::std_specs::cmp::PartialOrdIs;
use vstd::std_specs::cmp::PartialOrdSpec;

use crate::scan::first_where;

verus! {

/// The executable `==` and `>` of `E` compute what `eq_spec` and
/// `partial_cmp_spec` say.
pub open spec fn comparisons_specified<E: PartialEq + PartialOrd>() -> bool {
    E::obeys_eq_spec() && E::obeys_partial_cmp_spec()
}

/// The scan of an insertion halts at `e` when `x` is the candidate:
/// `e` equals `x`, or `e` is greater than `x`.
pub open spec fn halts_at<E: PartialEq + PartialOrd>(e: E, x: E) -> bool {
    e.is_eq(&x) || e.is_gt(&x)
}

/// The condition on which the scan for `x` halts, as a function of the
/// element that the scan looks at.
pub open spec fn halting<E: PartialEq + PartialOrd>(x: E) -> spec_fn(E) -> bool {
    |e: E| halts_at(e, x)
}

/// The first position of `s` at which the scan for `x` halts, or `s.len()`
/// where it halts nowhere.
pub open spec fn scan_stop<E: PartialEq + PartialOrd>(s: Seq<E>, x: E) -> int {
    first_where(s, halting(x))
}

/// The insertion of `x` into `s` is refused: the scan halts at an element
/// that equals `x`.
pub open spec fn rejects<E: PartialEq + PartialOrd>(s: Seq<E>, x: E) -> bool {
    let p = scan_stop(s, x);
    p < s.len() && s[p].is_eq(&x)
}

/// The contents after the insertion of `x` into `s`: `s` itself where the
/// insertion is refused, else `s` with `x` put in where the scan halted.
pub open spec fn inserted<E: PartialEq + PartialOrd>(s: Seq<E>, x: E) -> Seq<E> {
    if rejects(s, x) {
        s
    } else {
        s.insert(scan_stop(s, x), x)
    }
}

/// The contents after the elements of `xs` were inserted into `s` one after
/// another, front to back, each refused one left out.
pub open spec fn inserted_all<E: PartialEq + PartialOrd>(s: Seq<E>, xs: Seq<E>) -> Seq<E>
    decreases xs.len(),
{
    if xs.len() == 0 {
        s
    } else {
        inserted(inserted_all(s, xs.drop_last()), xs.last())
    }
}

/// The insertion of `xs[k]` is refused once the elements before it were
/// inserted into `s`.
pub open spec fn refused_at<E: PartialEq + PartialOrd>(s: Seq<E>, xs: Seq<E>, k: int) -> bool {
    rejects(inserted_all(s, xs.take(k)), xs[k])
}

/// None of the elements of `xs` is refused when they are inserted into `s`
/// one after another.
pub open spec fn inserts_cleanly<E: PartialEq + PartialOrd>(s: Seq<E>, xs: Seq<E>) -> bool {
    forall|k: int| 0 <= k < xs.len() ==> !refused_at(s, xs, k)
}

/// `xs[k]` is the first element of `xs` that is refused when they are
/// inserted into `s` one after another.
pub open spec fn first_refused_at<E: PartialEq + PartialOrd>(
    s: Seq<E>,
    xs: Seq<E>,
    k: int,
) -> bool {
    &&& 0 <= k < xs.len()
    &&& refused_at(s, xs, k)
    &&& inserts_cleanly(s, xs.take(k))
}

/// The comparisons of `E` are those of a total order: any two elements
/// compare, `==` holds where they compare as equal, `a < b` where `b > a`,
/// and both `<` and `==` are transitive.
#[verifier::opaque]
pub open spec fn is_total_order<E: PartialEq + PartialOrd>() -> bool {
    &&& forall|a: E, b: E| (#[trigger] a.partial_cmp_spec(&b)) is Some
    &&& forall|a: E, b: E|
        a.eq_spec(&b) <==> #[trigger] a.partial_cmp_spec(&b) == Some(Ordering::Equal)
    &&& forall|a: E, b: E|
        #[trigger] a.partial_cmp_spec(&b) == Some(Ordering::Less) <==> b.partial_cmp_spec(&a)
            == Some(Ordering::Greater)
    &&& forall|a: E, b: E, c: E|
        #[trigger] a.partial_cmp_spec(&b) == Some(Ordering::Less) && #[trigger] b.partial_cmp_spec(
            &c,
        ) == Some(Ordering::Less) ==> a.partial_cmp_spec(&c) == Some(Ordering::Less)
    &&& forall|a: E, b: E, c: E|
        #[trigger] a.eq_spec(&b) && #[trigger] b.eq_spec(&c) ==> a.eq_spec(&c)
}

/// Each element of `s` is less than every element after it.
pub open spec fn strictly_ascending<E: PartialEq + PartialOrd>(s: Seq<E>) -> bool {
    forall|i: int, j: int|
        0 <= i < j < s.len() ==> #[trigger] s[i].partial_cmp_spec(&s[j]) == Some(Ordering::Less)
}

/// Some element of `s` equals `x`.
pub open spec fn holds_equal<E: PartialEq + PartialOrd>(s: Seq<E>, x: E) -> bool {
    exists|i: int| 0 <= i < s.len() && (#[trigger] s[i]).is_eq(&x)
}

/// No two elements of `s` at different positions are equal.
pub open spec fn pairwise_distinct<E: PartialEq + PartialOrd>(s: Seq<E>) -> bool {
    forall|i: int, j: int|
        #![trigger s[i], s[j]]
        0 <= i < s.len() && 0 <= j < s.len() && i != j ==> !s[i].is_eq(&s[j])
}

} // verus!
