//! A growable sequence kept in ascending order.

use vstd::prelude::*;
use vstd::seq_lib::to_multiset_build;
use vstd::seq_lib::to_multiset_insert;
use vstd::std_specs::cmp::PartialEqSpec;
use vstd::std_specs::convert::TryFromSpecImpl;
use vstd::std_specs::iter::IteratorSpec;
use vstd::string::to_string_from_display_ensures;

use crate::error::Error;
use crate::laws::lemma_cleanly_iff_distinct;
use crate::laws::lemma_inserted_all_ascending;
use crate::laws::lemma_inserted_ascending;
use crate::laws::lemma_rejects_iff_present;
use crate::order::comparisons_specified;
use crate::order::first_refused_at;
use crate::order::halting;
use crate::order::halts_at;
use crate::order::holds_equal;
use crate::order::inserted;
use crate::order::inserted_all;
use crate::order::inserts_cleanly;
use crate::order::is_total_order;
use crate::order::pairwise_distinct;
use crate::order::refused_at;
use crate::order::rejects;
use crate::order::strictly_ascending;
use crate::scan::first_of;
use crate::scan::first_where;
use crate::scan::lemma_first_where_unique;
use crate::scan::matching;
use crate::scan::some_where;
use crate::text::contents;
use crate::text::join_texts;
use crate::text::joined;

verus! {

/// A sequence of elements that insertion keeps in ascending order.
#[derive(Clone, Debug, PartialEq)]
pub struct OrdVec<E>(Vec<E>) where E: PartialEq + PartialOrd;

impl<E: PartialEq + PartialOrd> View for OrdVec<E> {
    type V = Seq<E>;

    closed spec fn view(&self) -> Seq<E> {
        self.0@
    }
}

impl<E: PartialEq + PartialOrd> OrdVec<E> {
    /// The order holds: each element is less than every element behind it.
    pub open spec fn is_ascending(&self) -> bool {
        strictly_ascending(self@)
    }

    /// An empty sequence.
    pub fn new() -> (r: Self)
        ensures
            r@ == Seq::<E>::empty(),
            r.is_ascending(),
    {
        OrdVec(Vec::new())
    }

    /// Puts `element` in front of the first element that is greater, or at
    /// the end. Hands `element` back, and changes nothing, where the scan
    /// meets an element equal to it first. An empty sequence accepts
    /// whatever comes.
    pub(crate) fn place(&mut self, element: E) -> (r: Result<(), E>)
        ensures
            comparisons_specified::<E>() ==> (r is Err <==> rejects(old(self)@, element)),
            comparisons_specified::<E>() ==> final(self)@ == inserted(old(self)@, element),
            r matches Err(back) ==> back == element && final(self)@ == old(self)@,
            r is Ok ==> exists|p: int|
                0 <= p <= old(self)@.len() && final(self)@ == old(self)@.insert(p, element),
            old(self)@.len() == 0 ==> r is Ok && final(self)@ == seq![element],
            comparisons_specified::<E>() && is_total_order::<E>() && old(self).is_ascending() ==> {
                &&& final(self).is_ascending()
                &&& r is Err <==> holds_equal(old(self)@, element)
            },
    {
        proof {
            if is_total_order::<E>() && self.is_ascending() {
                lemma_inserted_ascending(self@, element);
                lemma_rejects_iff_present(self@, element);
            }
        }
        let n = self.0.len();
        let mut i: usize = 0;
        while i < n
            invariant
                n == self.0.len(),
                i <= n,
                self.0@ == old(self)@,
                comparisons_specified::<E>() ==> forall|j: int|
                    0 <= j < i ==> !halts_at(#[trigger] self.0@[j], element),
                is_total_order::<E>() && old(self).is_ascending() ==> {
                    &&& strictly_ascending(inserted(old(self)@, element))
                    &&& rejects(old(self)@, element) <==> holds_equal(old(self)@, element)
                },
            decreases n - i,
        {
            if self.0[i] == element {
                proof {
                    if comparisons_specified::<E>() {
                        lemma_first_where_unique(self.0@, halting(element), i as int);
                    }
                }
                return Err(element);
            } else if self.0[i] > element {
                proof {
                    if comparisons_specified::<E>() {
                        lemma_first_where_unique(self.0@, halting(element), i as int);
                    }
                }
                self.0.insert(i, element);
                return Ok(());
            }
            i += 1;
        }
        proof {
            if comparisons_specified::<E>() {
                lemma_first_where_unique(self.0@, halting(element), n as int);
            }
        }
        self.0.push(element);
        assert(self.0@ == old(self)@.insert(n as int, element));
        Ok(())
    }
}

impl<E: PartialEq + PartialOrd> OrdVec<E> {
    /// Whether some element equals `what`.
    pub fn contains<T>(&self, what: T) -> (r: bool) where E: PartialEq<T>
        ensures
            <E as PartialEqSpec<T>>::obeys_eq_spec() ==> r == some_where(self@, matching(what)),
            self@.len() == 0 ==> !r,
    {
        let n = self.0.len();
        let mut i: usize = 0;
        while i < n
            invariant
                n == self.0.len(),
                i <= n,
                <E as PartialEqSpec<T>>::obeys_eq_spec() ==> forall|j: int|
                    0 <= j < i ==> !matching::<E, T>(what)(#[trigger] self.0@[j]),
            decreases n - i,
        {
            if self.0[i] == what {
                return true;
            }
            i += 1;
        }
        false
    }

    /// The first element that equals `what`.
    pub fn get<T>(&self, what: T) -> (r: Option<&E>) where E: PartialEq<T>
        ensures
            <E as PartialEqSpec<T>>::obeys_eq_spec() ==> match first_of(self@, matching(what)) {
                Some(e) => r == Some(&e),
                None => r is None,
            },
            r matches Some(e) ==> self@.contains(*e),
            self@.len() == 0 ==> r is None,
    {
        let n = self.0.len();
        let mut i: usize = 0;
        while i < n
            invariant
                n == self.0.len(),
                i <= n,
                <E as PartialEqSpec<T>>::obeys_eq_spec() ==> forall|j: int|
                    0 <= j < i ==> !matching::<E, T>(what)(#[trigger] self.0@[j]),
            decreases n - i,
        {
            if self.0[i] == what {
                proof {
                    if <E as PartialEqSpec<T>>::obeys_eq_spec() {
                        lemma_first_where_unique(self.0@, matching(what), i as int);
                    }
                }
                return Some(&self.0[i]);
            }
            i += 1;
        }
        proof {
            if <E as PartialEqSpec<T>>::obeys_eq_spec() {
                lemma_first_where_unique(self.0@, matching(what), n as int);
            }
        }
        None
    }

    /// The first element that equals `what`, to be changed in place: what is
    /// written through the reference stands at that element's position
    /// afterwards, and nothing else changes.
    pub fn get_mut<T>(&mut self, what: T) -> (r: Option<&mut E>) where E: PartialEq<T>
        ensures
            <E as PartialEqSpec<T>>::obeys_eq_spec() ==> {
                let p = first_where(old(self)@, matching(what));
                match r {
                    Some(e) => {
                        &&& p < old(self)@.len()
                        &&& *e == old(self)@[p]
                        &&& final(self)@ == old(self)@.update(p, *final(e))
                    },
                    None => p == old(self)@.len(),
                }
            },
            match r {
                Some(e) => exists|p: int|
                    0 <= p < old(self)@.len() && *e == old(self)@[p] && final(self)@ == old(
                        self,
                    )@.update(p, *final(e)),
                None => final(self)@ == old(self)@,
            },
    {
        let n = self.0.len();
        let mut i: usize = 0;
        while i < n
            invariant
                n == self.0.len(),
                i <= n,
                self.0@ == old(self)@,
                <E as PartialEqSpec<T>>::obeys_eq_spec() ==> forall|j: int|
                    0 <= j < i ==> !matching::<E, T>(what)(#[trigger] self.0@[j]),
            decreases n - i,
        {
            if self.0[i] == what {
                proof {
                    if <E as PartialEqSpec<T>>::obeys_eq_spec() {
                        lemma_first_where_unique(self.0@, matching(what), i as int);
                    }
                }
                return Some(&mut self.0[i]);
            }
            i += 1;
        }
        proof {
            if <E as PartialEqSpec<T>>::obeys_eq_spec() {
                lemma_first_where_unique(self.0@, matching(what), n as int);
            }
        }
        None
    }

    /// The elements in their order, front to back.
    pub fn iter(&self) -> (r: std::slice::Iter<'_, E>)
        ensures
            IteratorSpec::remaining(&r) == self@.as_ref(),
            IteratorSpec::decrease(&r) is Some,
            IteratorSpec::initial_value_relation(&r, &r),
    {
        self.0.iter()
    }

    /// The elements in their order, as a slice.
    pub(crate) fn as_slice(&self) -> (r: &[E])
        ensures
            r@ == self@,
    {
        self.0.as_slice()
    }

    /// The elements in their order, as a slice, each to be changed in
    /// place.
    pub(crate) fn as_mut_slice(&mut self) -> (r: &mut [E])
        ensures
            r@ == old(self)@,
            final(self)@ == final(r)@,
    {
        self.0.as_mut_slice()
    }

    /// The elements in their order, each to be changed in place.
    pub fn iter_mut(&mut self) -> (r: impl Iterator<Item = &mut E>)
        ensures
            IteratorSpec::obeys_prophetic_iter_laws(&r),
            IteratorSpec::decrease(&r) is Some,
            IteratorSpec::initial_value_relation(&r, &r),
            IteratorSpec::remaining(&r).len() == old(self)@.len(),
            final(self)@.len() == old(self)@.len(),
            forall|i: int|
                0 <= i < old(self)@.len() ==> {
                    let e = #[trigger] IteratorSpec::remaining(&r)[i];
                    &&& *e == old(self)@[i]
                    &&& final(self)@[i] == *final(e)
                },
    {
        let ghost before = self@;
        let ghost after = final(self)@;
        let mut out: Vec<&mut E> = Vec::new();
        let mut rest: &mut [E] = self.0.as_mut_slice();
        while rest.len() > 0
            invariant
                out@.len() + rest@.len() == before.len(),
                rest@ == before.skip(out@.len() as int),
                after.len() == out@.len() + final(rest)@.len(),
                final(rest)@ == after.skip(out@.len() as int),
                forall|i: int|
                    0 <= i < out@.len() ==> {
                        let e = #[trigger] out@[i];
                        &&& *e == before[i]
                        &&& after[i] == *final(e)
                    },
            decreases rest@.len(),
        {
            let ghost done = out@;
            let ghost rest_before = rest@;
            let ghost rest_after = final(rest)@;
            let (head, tail) = rest.split_at_mut(1);
            let ghost head_after = final(head)@;
            let e = &mut head[0];
            out.push(e);
            rest = tail;
            proof {
                assert(rest_after == head_after + final(rest)@);
                assert(rest_after[0] == after[done.len() as int]);
                assert(rest_before[0] == before[done.len() as int]);
                assert forall|j: int| 0 <= j < final(rest)@.len() implies final(rest)@[j]
                    == after.skip(out@.len() as int)[j] by {
                    assert(final(rest)@[j] == rest_after[j + 1]);
                }
            }
        }
        out.into_iter()
    }

    /// The number of elements.
    pub fn len(&self) -> (r: usize)
        ensures
            r == self@.len(),
    {
        self.0.len()
    }

    /// Whether there is no element.
    pub fn is_empty(&self) -> (r: bool)
        ensures
            r == (self@.len() == 0),
    {
        self.0.is_empty()
    }

    /// The element at the front: the least one, where the order holds.
    pub fn first(&self) -> (r: Option<&E>)
        ensures
            r == (if self@.len() == 0 {
                None
            } else {
                Some(&self@[0])
            }),
    {
        self.0.first()
    }

    /// The element at the back: the greatest one, where the order holds.
    pub fn last(&self) -> (r: Option<&E>)
        ensures
            r == (if self@.len() == 0 {
                None
            } else {
                Some(&self@[self@.len() - 1])
            }),
    {
        self.0.last()
    }

    /// Puts `items` behind the elements as they come, with no look at their
    /// order nor at duplicates.
    pub fn extend(&mut self, items: Vec<E>)
        ensures
            final(self)@ == old(self)@ + items@,
    {
        let mut items = items;
        self.0.append(&mut items);
    }
}

impl<E: PartialEq + PartialOrd + std::fmt::Display> OrdVec<E> {
    /// Inserts `element` where the order wants it, or reports it as a
    /// duplicate, with its rendering, where an equal element is met first.
    /// An empty sequence accepts whatever comes.
    pub fn insert(&mut self, element: E) -> (r: Result<(), Error>)
        ensures
            comparisons_specified::<E>() ==> (r is Err <==> rejects(old(self)@, element)),
            comparisons_specified::<E>() ==> final(self)@ == inserted(old(self)@, element),
            r matches Err(Error::Duplicate(text)) ==> final(self)@ == old(self)@
                && to_string_from_display_ensures::<E>(&element, text),
            r is Ok ==> exists|p: int|
                0 <= p <= old(self)@.len() && final(self)@ == old(self)@.insert(p, element),
            old(self)@.len() == 0 ==> r is Ok && final(self)@ == seq![element],
            comparisons_specified::<E>() && is_total_order::<E>() && old(self).is_ascending() ==> {
                &&& final(self).is_ascending()
                &&& r is Err <==> holds_equal(old(self)@, element)
            },
    {
        match self.place(element) {
            Ok(()) => Ok(()),
            Err(back) => Err(Error::Duplicate(back.to_string())),
        }
    }

    /// Moves every element of `other` into `self`, front to back, each by an
    /// insertion, and leaves `other` empty. No insertion may be refused; an
    /// empty `other` asks nothing of the comparisons.
    pub fn append(&mut self, other: &mut Self)
        requires
            old(other)@.len() > 0 ==> comparisons_specified::<E>(),
            inserts_cleanly(old(self)@, old(other)@),
        ensures
            final(self)@ == inserted_all(old(self)@, old(other)@),
            final(other)@ == Seq::<E>::empty(),
            is_total_order::<E>() && old(self).is_ascending() ==> final(self).is_ascending(),
    {
        let mut items: Vec<E> = Vec::new();
        std::mem::swap(&mut items, &mut other.0);
        let ghost xs = items@;
        proof {
            if is_total_order::<E>() && self.is_ascending() {
                lemma_inserted_all_ascending(self@, xs);
            }
        }
        for x in it: items
            invariant
                xs.len() > 0 ==> comparisons_specified::<E>(),
                inserts_cleanly(old(self)@, xs),
                it.seq() == xs,
                self.0@ == inserted_all(old(self)@, xs.take(it.index() as int)),
                is_total_order::<E>() && old(self).is_ascending() ==> strictly_ascending(
                    inserted_all(old(self)@, xs),
                ),
        {
            proof {
                let k = it.index() as int;
                assert(xs.take(k + 1).drop_last() == xs.take(k));
                assert(!refused_at(old(self)@, xs, k));
            }
            self.insert(x).unwrap();
        }
        proof {
            assert(xs.take(xs.len() as int) == xs);
        }
    }

    /// The renderings of the elements, joined with `separator` between each
    /// two of them.
    pub fn join(&self, separator: &str) -> (r: String)
        ensures
            exists|texts: Seq<String>|
                renders(self@, texts) && r@ == joined(contents(texts), separator@),
    {
        let mut texts: Vec<String> = Vec::new();
        let n = self.0.len();
        let mut i: usize = 0;
        while i < n
            invariant
                n == self.0@.len(),
                i <= n,
                renders(self.0@.take(i as int), texts@),
            decreases n - i,
        {
            texts.push(self.0[i].to_string());
            i += 1;
        }
        let r = join_texts(&texts, separator);
        proof {
            assert(self.0@.take(n as int) == self.0@);
            assert(renders(self@, texts@) && r@ == joined(contents(texts@), separator@));
        }
        r
    }
}

impl<E: PartialEq + PartialOrd> Default for OrdVec<E> {
    /// An empty sequence.
    fn default() -> (r: Self)
        ensures
            r@ == Seq::<E>::empty(),
            r.is_ascending(),
    {
        OrdVec(Vec::new())
    }
}

impl<E: PartialEq + PartialOrd + std::fmt::Display> TryFrom<Vec<E>> for OrdVec<E> {
    type Error = Error;

    /// Inserts the elements of `value` into an empty sequence, front to
    /// back, and stops at the first that is refused, which it reports. No
    /// element or a single one is always accepted.
    fn try_from(value: Vec<E>) -> (r: Result<Self, Error>)
        ensures
            comparisons_specified::<E>() ==> match r {
                Ok(v) => inserts_cleanly(Seq::<E>::empty(), value@) && v@ == inserted_all(
                    Seq::<E>::empty(),
                    value@,
                ),
                Err(Error::Duplicate(text)) => exists|k: int|
                    first_refused_at(Seq::<E>::empty(), value@, k)
                        && to_string_from_display_ensures::<E>(&value@[k], text),
            },
            comparisons_specified::<E>() && is_total_order::<E>() ==> {
                &&& r is Ok <==> pairwise_distinct(value@)
                &&& r matches Ok(v) ==> v.is_ascending()
            },
            r matches Ok(v) ==> v@.to_multiset() == value@.to_multiset(),
            r matches Err(Error::Duplicate(text)) ==> exists|k: int|
                0 <= k < value@.len() && to_string_from_display_ensures::<E>(&value@[k], text),
            value@.len() <= 1 ==> (r matches Ok(v) && v@ == value@),
    {
        let mut result = OrdVec::new();
        let ghost xs = value@;
        proof {
            assert(xs.take(0) == result@);
            if is_total_order::<E>() {
                lemma_cleanly_iff_distinct(xs);
                lemma_inserted_all_ascending(Seq::<E>::empty(), xs);
            }
        }
        for x in it: value
            invariant
                it.seq() == xs,
                result@.to_multiset() == xs.take(it.index() as int).to_multiset(),
                xs.len() <= 1 ==> result@ == xs.take(it.index() as int),
                comparisons_specified::<E>() ==> inserts_cleanly(
                    Seq::<E>::empty(),
                    xs.take(it.index() as int),
                ),
                comparisons_specified::<E>() ==> result@ == inserted_all(
                    Seq::<E>::empty(),
                    xs.take(it.index() as int),
                ),
                is_total_order::<E>() ==> {
                    &&& inserts_cleanly(Seq::<E>::empty(), xs) <==> pairwise_distinct(xs)
                    &&& strictly_ascending(inserted_all(Seq::<E>::empty(), xs))
                },
        {
            let ghost k = it.index() as int;
            let ghost had = result@;
            proof {
                assert(xs.take(k + 1).drop_last() == xs.take(k));
                assert(xs.take(k + 1) == xs.take(k).push(x));
                to_multiset_build(xs.take(k), x);
            }
            match result.insert(x) {
                Ok(()) => {
                    proof {
                        let p = choose|p: int| 0 <= p <= had.len() && result@ == had.insert(p, x);
                        to_multiset_insert(had, p, x);
                        if comparisons_specified::<E>() {
                            let ys = xs.take(k + 1);
                            assert forall|j: int| 0 <= j < ys.len() implies !refused_at(
                                Seq::<E>::empty(),
                                ys,
                                j,
                            ) by {
                                if j < k {
                                    assert(ys.take(j) == xs.take(k).take(j));
                                    assert(!refused_at(Seq::<E>::empty(), xs.take(k), j));
                                } else {
                                    assert(ys.take(j) == xs.take(k));
                                }
                            }
                        }
                    }
                },
                Err(e) => {
                    proof {
                        if comparisons_specified::<E>() {
                            assert(first_refused_at(Seq::<E>::empty(), xs, k));
                        }
                    }
                    return Err(e);
                },
            }
        }
        proof {
            assert(xs.take(xs.len() as int) == xs);
        }
        Ok(result)
    }
}

/// What `try_from` returns is stated by its own `ensures`. No function of the
/// elements gives it: the text in the error is a rendering, and of a
/// rendering it is only known that it is one.
impl<E: PartialEq + PartialOrd + std::fmt::Display> TryFromSpecImpl<Vec<E>> for OrdVec<E> {
    open spec fn obeys_try_from_spec() -> bool {
        false
    }

    open spec fn try_from_spec(v: Vec<E>) -> Result<Self, Error> {
        arbitrary()
    }
}

impl OrdVec<String> {
    /// The elements joined with a comma between each two of them.
    pub fn to_string(&self) -> (r: String)
        ensures
            r@ == joined(contents(self@), ","@),
    {
        join_texts(&self.0, ",")
    }
}

/// `texts` holds a rendering of each of `items`, in the same order.
pub open spec fn renders<E: std::fmt::Display>(items: Seq<E>, texts: Seq<String>) -> bool {
    &&& texts.len() == items.len()
    &&& forall|i: int|
        0 <= i < items.len() ==> to_string_from_display_ensures::<E>(
            &#[trigger] items[i],
            texts[i],
        )
}

} // verus!
