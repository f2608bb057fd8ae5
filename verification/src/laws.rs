//! What holds of ordered insertion where the comparisons are a total order.

use std::cmp::Ordering;

use vstd::laws_cmp::obeys_cmp;
use vstd::laws_cmp::obeys_cmp_ord;
use vstd::laws_cmp::obeys_cmp_partial_ord;
use vstd::laws_cmp::obeys_partial_cmp_spec_properties;
use vstd::laws_eq::obeys_eq_spec_properties;
use vstd::prelude::*;
use vstd::seq_lib::to_multiset_contains;
use vstd::std_specs::cmp::PartialEqIs;
use vstd::std_specs::cmp::PartialOrdIs;
use vstd::std_specs::cmp::PartialOrdSpec;

use crate::order::comparisons_specified;
use crate::order::halting;
use crate::order::halts_at;
use crate::order::holds_equal;
use crate::order::inserted;
use crate::order::inserted_all;
use crate::order::inserts_cleanly;
use crate::order::is_total_order;
use crate::order::pairwise_distinct;
use crate::order::refused_at;
use crate::order::rejects;
use crate::order::scan_stop;
use crate::order::strictly_ascending;
use crate::scan::lemma_first_where_is_first;
use crate::scan::matching;
use crate::scan::some_where;

verus! {

/// A type whose `Ord`, `PartialOrd` and `PartialEq` keep the laws that
/// `vstd` states of them has specified comparisons, and they are those of a
/// total order.
pub proof fn lemma_ord_is_total<E: Ord>()
    requires
        obeys_cmp::<E>(),
    ensures
        comparisons_specified::<E>(),
        is_total_order::<E>(),
{
    reveal(is_total_order);
    reveal(obeys_eq_spec_properties);
    reveal(obeys_partial_cmp_spec_properties);
    reveal(obeys_cmp_partial_ord);
    reveal(obeys_cmp_ord);
}

/// In a total order, of two elements exactly one is less than, equal to or
/// greater than the other.
pub proof fn lemma_one_of_three<E: PartialEq + PartialOrd>(a: E, b: E)
    requires
        is_total_order::<E>(),
    ensures
        a.is_lt(&b) || a.is_eq(&b) || a.is_gt(&b),
        !(a.is_lt(&b) && a.is_eq(&b)),
        !(a.is_gt(&b) && a.is_eq(&b)),
        !(a.is_lt(&b) && a.is_gt(&b)),
        a.is_lt(&b) <==> b.is_gt(&a),
{
    reveal(is_total_order);
    match a.partial_cmp_spec(&b) {
        Some(Ordering::Less) => {},
        Some(Ordering::Equal) => {},
        Some(Ordering::Greater) => {},
        None => {},
    }
}

/// In a total order, what is less than something less than a third is less
/// than the third.
pub proof fn lemma_less_transitive<E: PartialEq + PartialOrd>(a: E, b: E, c: E)
    requires
        is_total_order::<E>(),
        a.is_lt(&b),
        b.is_lt(&c),
    ensures
        a.is_lt(&c),
{
    reveal(is_total_order);
}

/// In a total order, what equals something equal to a third equals the
/// third.
pub proof fn lemma_equal_transitive<E: PartialEq + PartialOrd>(a: E, b: E, c: E)
    requires
        is_total_order::<E>(),
        a.is_eq(&b),
        b.is_eq(&c),
    ensures
        a.is_eq(&c),
{
    reveal(is_total_order);
}

/// An insertion that is accepted keeps an ascending sequence ascending, and
/// one that is refused leaves it as it was.
pub proof fn lemma_inserted_ascending<E: PartialEq + PartialOrd>(s: Seq<E>, x: E)
    requires
        is_total_order::<E>(),
        strictly_ascending(s),
    ensures
        strictly_ascending(inserted(s, x)),
{
    let p = scan_stop(s, x);
    lemma_first_where_is_first(s, halting(x));
    if !rejects(s, x) {
        let t = s.insert(p, x);
        assert forall|i: int, j: int| 0 <= i < j < t.len() implies #[trigger] t[i].partial_cmp_spec(
            &t[j],
        ) == Some(Ordering::Less) by {
            if i == p {
                assert(t[i] == x);
                assert(t[j] == s[j - 1]);
                assert(halts_at(s[p], x));
                lemma_one_of_three(x, s[p]);
                if j - 1 > p {
                    assert(s[p].is_lt(&s[j - 1]));
                    lemma_less_transitive(x, s[p], s[j - 1]);
                }
                assert(x.is_lt(&s[j - 1]));
            } else if j == p {
                assert(t[j] == x);
                assert(t[i] == s[i]);
                assert(!halts_at(s[i], x));
                lemma_one_of_three(s[i], x);
            } else {
                let si = if i < p { i } else { i - 1 };
                let sj = if j < p { j } else { j - 1 };
                assert(t[i] == s[si]);
                assert(t[j] == s[sj]);
            }
        }
    }
}

/// In an ascending sequence an insertion is refused exactly when some
/// element equals the candidate.
pub proof fn lemma_rejects_iff_present<E: PartialEq + PartialOrd>(s: Seq<E>, x: E)
    requires
        is_total_order::<E>(),
        strictly_ascending(s),
    ensures
        rejects(s, x) <==> holds_equal(s, x),
{
    let p = scan_stop(s, x);
    lemma_first_where_is_first(s, halting(x));
    if holds_equal(s, x) {
        let k = choose|k: int| 0 <= k < s.len() && (#[trigger] s[k]).is_eq(&x);
        assert(halts_at(s[k], x));
        if p < k {
            assert(halts_at(s[p], x));
            if !s[p].is_eq(&x) {
                lemma_one_of_three(x, s[p]);
                assert(s[p].is_lt(&s[k]));
                lemma_less_transitive(x, s[p], s[k]);
                lemma_one_of_three(x, s[k]);
                lemma_one_of_three(s[k], x);
            }
        }
    }
}

/// That some element equals `x` is what a search for `x` by equality
/// finds.
pub proof fn lemma_holds_equal_is_match<E: PartialEq + PartialOrd>(s: Seq<E>, x: E)
    ensures
        holds_equal(s, x) <==> some_where(s, matching::<E, E>(x)),
{
    if holds_equal(s, x) {
        let i = choose|i: int| 0 <= i < s.len() && (#[trigger] s[i]).is_eq(&x);
        assert(matching::<E, E>(x)(s[i]));
    }
    if some_where(s, matching::<E, E>(x)) {
        let i = choose|i: int| 0 <= i < s.len() && matching::<E, E>(x)(#[trigger] s[i]);
        assert(s[i].is_eq(&x));
    }
}

/// In an ascending sequence no two elements are equal.
pub proof fn lemma_ascending_distinct<E: PartialEq + PartialOrd>(s: Seq<E>)
    requires
        is_total_order::<E>(),
        strictly_ascending(s),
    ensures
        pairwise_distinct(s),
{
    assert forall|i: int, j: int|
        #![trigger s[i], s[j]]
        0 <= i < s.len() && 0 <= j < s.len() && i != j implies !s[i].is_eq(&s[j]) by {
        lemma_one_of_three(s[i], s[j]);
        if i < j {
            assert(s[i].is_lt(&s[j]));
        } else {
            assert(s[j].is_lt(&s[i]));
            lemma_one_of_three(s[j], s[i]);
        }
    }
}

/// What an insertion leaves in the sequence: what was there, and the
/// candidate where it was accepted.
pub proof fn lemma_inserted_contains<E: PartialEq + PartialOrd>(s: Seq<E>, x: E, v: E)
    ensures
        inserted(s, x).contains(v) <==> s.contains(v) || (!rejects(s, x) && v == x),
{
    let p = scan_stop(s, x);
    lemma_first_where_is_first(s, halting(x));
    if !rejects(s, x) {
        let t = s.insert(p, x);
        assert(t[p] == x);
        if s.contains(v) {
            let i = choose|i: int| 0 <= i < s.len() && s[i] == v;
            if i < p {
                assert(t[i] == v);
            } else {
                assert(t[i + 1] == v);
            }
        }
        if t.contains(v) {
            let i = choose|i: int| 0 <= i < t.len() && t[i] == v;
            if i < p {
                assert(s[i] == v);
            } else if i > p {
                assert(s[i - 1] == v);
            }
        }
    }
}

/// Insertions into an ascending sequence, however many and whether
/// accepted or refused, leave an ascending sequence.
pub proof fn lemma_inserted_all_ascending<E: PartialEq + PartialOrd>(s: Seq<E>, xs: Seq<E>)
    requires
        is_total_order::<E>(),
        strictly_ascending(s),
    ensures
        strictly_ascending(inserted_all(s, xs)),
    decreases xs.len(),
{
    if xs.len() > 0 {
        lemma_inserted_all_ascending(s, xs.drop_last());
        lemma_inserted_ascending(inserted_all(s, xs.drop_last()), xs.last());
    }
}

/// In an ascending sequence an element is neither greater than the one
/// behind it nor equal to it.
pub proof fn lemma_ascending_neighbours<E: PartialEq + PartialOrd>(s: Seq<E>, i: int)
    requires
        is_total_order::<E>(),
        strictly_ascending(s),
        0 <= i,
        i + 1 < s.len(),
    ensures
        s[i].is_le(&s[i + 1]),
        !s[i].is_eq(&s[i + 1]),
        !s[i].is_gt(&s[i + 1]),
{
    assert(s[i].is_lt(&s[i + 1]));
    lemma_one_of_three(s[i], s[i + 1]);
}

/// Elements of which no two are equal are all accepted by an empty
/// sequence, in whatever order they come, and all of them are in it
/// afterwards.
pub proof fn lemma_distinct_all_accepted<E: PartialEq + PartialOrd>(xs: Seq<E>)
    requires
        is_total_order::<E>(),
        pairwise_distinct(xs),
    ensures
        inserts_cleanly(Seq::<E>::empty(), xs),
        forall|v: E| inserted_all(Seq::<E>::empty(), xs).contains(v) <==> xs.contains(v),
    decreases xs.len(),
{
    let empty = Seq::<E>::empty();
    if xs.len() > 0 {
        let front = xs.drop_last();
        let x = xs.last();
        let before = inserted_all(empty, front);
        assert forall|i: int, j: int|
            #![trigger front[i], front[j]]
            0 <= i < front.len() && 0 <= j < front.len() && i != j implies !front[i].is_eq(
            &front[j],
        ) by {
            assert(front[i] == xs[i] && front[j] == xs[j]);
        }
        lemma_distinct_all_accepted(front);
        lemma_inserted_all_ascending(empty, front);
        lemma_rejects_iff_present(before, x);
        if holds_equal(before, x) {
            let k = choose|k: int| 0 <= k < before.len() && (#[trigger] before[k]).is_eq(&x);
            assert(before.contains(before[k]));
            assert(front.contains(before[k]));
            let i = choose|i: int| 0 <= i < front.len() && front[i] == before[k];
            assert(xs[i] == before[k] && xs[xs.len() - 1] == x);
            assert(false);
        }
        assert forall|k: int| 0 <= k < xs.len() implies !refused_at(empty, xs, k) by {
            if k < front.len() {
                assert(xs.take(k) == front.take(k));
                assert(!refused_at(empty, front, k));
            } else {
                assert(xs.take(k) == front);
            }
        }
        assert forall|v: E| inserted_all(empty, xs).contains(v) <==> xs.contains(v) by {
            lemma_inserted_contains(before, x, v);
            if xs.contains(v) {
                let i = choose|i: int| 0 <= i < xs.len() && xs[i] == v;
                if i < front.len() {
                    assert(front[i] == v);
                }
            }
            if front.contains(v) {
                let i = choose|i: int| 0 <= i < front.len() && front[i] == v;
                assert(xs[i] == v);
            }
            if v == x {
                assert(xs[xs.len() - 1] == v);
            }
        }
    } else {
        assert forall|v: E| inserted_all(empty, xs).contains(v) <==> xs.contains(v) by {}
    }
}

/// In a total order, what equals something is equalled by it.
pub proof fn lemma_equal_symmetric<E: PartialEq + PartialOrd>(a: E, b: E)
    requires
        is_total_order::<E>(),
        a.is_eq(&b),
    ensures
        b.is_eq(&a),
{
    lemma_one_of_three(a, b);
    lemma_one_of_three(b, a);
}

/// Where none of `xs` is refused, what `s` holds after their insertion is
/// what it held before and the elements of `xs`.
pub proof fn lemma_cleanly_contains<E: PartialEq + PartialOrd>(s: Seq<E>, xs: Seq<E>, v: E)
    requires
        inserts_cleanly(s, xs),
    ensures
        inserted_all(s, xs).contains(v) <==> s.contains(v) || xs.contains(v),
    decreases xs.len(),
{
    if xs.len() > 0 {
        let front = xs.drop_last();
        let n = front.len() as int;
        assert forall|k: int| 0 <= k < front.len() implies !refused_at(s, front, k) by {
            assert(front.take(k) == xs.take(k));
            assert(!refused_at(s, xs, k));
        }
        lemma_cleanly_contains(s, front, v);
        assert(xs.take(n) == front);
        assert(!refused_at(s, xs, n));
        lemma_inserted_contains(inserted_all(s, front), xs.last(), v);
        if xs.contains(v) {
            let i = choose|i: int| 0 <= i < xs.len() && xs[i] == v;
            if i < n {
                assert(front[i] == v);
            }
        }
        if front.contains(v) {
            let i = choose|i: int| 0 <= i < front.len() && front[i] == v;
            assert(xs[i] == v);
        }
        if v == xs.last() {
            assert(xs[n] == v);
        }
    }
}

/// An empty sequence accepts all of `xs` exactly when no two of them are
/// equal.
pub proof fn lemma_cleanly_iff_distinct<E: PartialEq + PartialOrd>(xs: Seq<E>)
    requires
        is_total_order::<E>(),
    ensures
        inserts_cleanly(Seq::<E>::empty(), xs) <==> pairwise_distinct(xs),
{
    let empty = Seq::<E>::empty();
    if pairwise_distinct(xs) {
        lemma_distinct_all_accepted(xs);
    }
    if inserts_cleanly(empty, xs) {
        assert forall|i: int, j: int|
            #![trigger xs[i], xs[j]]
            0 <= i < xs.len() && 0 <= j < xs.len() && i != j implies !xs[i].is_eq(&xs[j]) by {
            if xs[i].is_eq(&xs[j]) {
                let lo = if i < j {
                    i
                } else {
                    j
                };
                let hi = if i < j {
                    j
                } else {
                    i
                };
                if i < j {
                } else {
                    lemma_equal_symmetric(xs[i], xs[j]);
                }
                assert(xs[lo].is_eq(&xs[hi]));
                let front = xs.take(hi);
                assert forall|k: int| 0 <= k < front.len() implies !refused_at(
                    empty,
                    front,
                    k,
                ) by {
                    assert(front.take(k) == xs.take(k));
                    assert(!refused_at(empty, xs, k));
                }
                assert(front[lo] == xs[lo]);
                lemma_cleanly_contains(empty, front, xs[lo]);
                let r = inserted_all(empty, front);
                lemma_inserted_all_ascending(empty, front);
                let k = choose|k: int| 0 <= k < r.len() && r[k] == xs[lo];
                assert(r[k].is_eq(&xs[hi]));
                lemma_rejects_iff_present(r, xs[hi]);
                assert(refused_at(empty, xs, hi));
                assert(false);
            }
        }
    }
}

/// Two ascending sequences that hold the same elements are the same
/// sequence.
pub proof fn lemma_ascending_by_elements<E: PartialEq + PartialOrd>(a: Seq<E>, b: Seq<E>)
    requires
        is_total_order::<E>(),
        strictly_ascending(a),
        strictly_ascending(b),
        forall|v: E| a.contains(v) <==> b.contains(v),
    ensures
        a == b,
    decreases a.len(),
{
    if a.len() == 0 {
        if b.len() > 0 {
            assert(b.contains(b[0]));
        }
        assert(a =~= b);
    } else {
        assert(a.contains(a[0]));
        let k = choose|k: int| 0 <= k < b.len() && b[k] == a[0];
        assert(b.contains(b[0]));
        let m = choose|m: int| 0 <= m < a.len() && a[m] == b[0];
        lemma_one_of_three(a[0], b[0]);
        if k > 0 {
            assert(b[0].is_lt(&b[k]));
        }
        if m > 0 {
            assert(a[0].is_lt(&a[m]));
        }
        assert(a[0] == b[0]);
        let ta = a.drop_first();
        let tb = b.drop_first();
        assert forall|v: E| ta.contains(v) <==> tb.contains(v) by {
            lemma_one_of_three(a[0], a[0]);
            if ta.contains(v) {
                let i = choose|i: int| 0 <= i < ta.len() && ta[i] == v;
                assert(a[i + 1] == v);
                assert(a[0].is_lt(&a[i + 1]));
                assert(a.contains(v));
                let j = choose|j: int| 0 <= j < b.len() && b[j] == v;
                assert(j > 0);
                assert(tb[j - 1] == v);
            }
            if tb.contains(v) {
                let i = choose|i: int| 0 <= i < tb.len() && tb[i] == v;
                assert(b[i + 1] == v);
                assert(b[0].is_lt(&b[i + 1]));
                assert(b.contains(v));
                let j = choose|j: int| 0 <= j < a.len() && a[j] == v;
                assert(j > 0);
                assert(ta[j - 1] == v);
            }
        }
        assert forall|i: int, j: int| 0 <= i < j < ta.len() implies #[trigger] ta[i].partial_cmp_spec(
            &ta[j],
        ) == Some(Ordering::Less) by {
            assert(ta[i] == a[i + 1] && ta[j] == a[j + 1]);
        }
        assert forall|i: int, j: int| 0 <= i < j < tb.len() implies #[trigger] tb[i].partial_cmp_spec(
            &tb[j],
        ) == Some(Ordering::Less) by {
            assert(tb[i] == b[i + 1] && tb[j] == b[j + 1]);
        }
        lemma_ascending_by_elements(ta, tb);
        assert(a =~= seq![a[0]] + ta);
        assert(b =~= seq![b[0]] + tb);
    }
}

/// A rearrangement of elements of which no two are equal has no two equal
/// elements either, and holds the same elements.
pub proof fn lemma_rearranged_distinct<E: PartialEq + PartialOrd>(a: Seq<E>, b: Seq<E>)
    requires
        is_total_order::<E>(),
        pairwise_distinct(a),
        a.to_multiset() == b.to_multiset(),
    ensures
        pairwise_distinct(b),
        forall|v: E| a.contains(v) <==> b.contains(v),
{
    a.to_multiset_ensures();
    b.to_multiset_ensures();
    assert forall|v: E| a.contains(v) <==> b.contains(v) by {
        to_multiset_contains(a, v);
        to_multiset_contains(b, v);
    }
    assert forall|i: int, j: int| 0 <= i < a.len() && 0 <= j < a.len() && i != j implies a[i]
        != a[j] by {
        lemma_one_of_three(a[i], a[i]);
    }
    a.lemma_multiset_has_no_duplicates();
    b.lemma_multiset_has_no_duplicates_conv();
    assert forall|i: int, j: int|
        #![trigger b[i], b[j]]
        0 <= i < b.len() && 0 <= j < b.len() && i != j implies !b[i].is_eq(&b[j]) by {
        assert(b.contains(b[i]) && b.contains(b[j]));
        assert(a.contains(b[i]) && a.contains(b[j]));
        let m = choose|m: int| 0 <= m < a.len() && a[m] == b[i];
        let n = choose|n: int| 0 <= n < a.len() && a[n] == b[j];
        assert(b[i] != b[j]);
        assert(!a[m].is_eq(&a[n]));
    }
}

/// The order in which elements come does not show in the outcome: where no
/// two of them are equal, an empty sequence accepts them all in either of
/// two arrangements, and holds them in the same ascending order afterwards.
pub proof fn lemma_insertion_order_independent<E: PartialEq + PartialOrd>(a: Seq<E>, b: Seq<E>)
    requires
        is_total_order::<E>(),
        pairwise_distinct(a),
        a.to_multiset() == b.to_multiset(),
    ensures
        inserts_cleanly(Seq::<E>::empty(), a),
        inserts_cleanly(Seq::<E>::empty(), b),
        inserted_all(Seq::<E>::empty(), a) == inserted_all(Seq::<E>::empty(), b),
        strictly_ascending(inserted_all(Seq::<E>::empty(), a)),
{
    let empty = Seq::<E>::empty();
    lemma_rearranged_distinct(a, b);
    lemma_distinct_all_accepted(a);
    lemma_distinct_all_accepted(b);
    lemma_inserted_all_ascending(empty, a);
    lemma_inserted_all_ascending(empty, b);
    let ra = inserted_all(empty, a);
    let rb = inserted_all(empty, b);
    assert forall|v: E| ra.contains(v) <==> rb.contains(v) by {
        assert(ra.contains(v) <==> a.contains(v));
        assert(a.contains(v) <==> b.contains(v));
        assert(rb.contains(v) <==> b.contains(v));
    }
    lemma_ascending_by_elements(ra, rb);
}

} // verus!
