//! A map whose entries are kept in ascending order of their keys.

use std::cmp::Ordering;

use vstd::prelude::*;
use vstd::std_specs::cmp::PartialEqIs;
use vstd::std_specs::cmp::PartialEqSpec;
use vstd::std_specs::cmp::PartialEqSpecImpl;
use vstd::std_specs::cmp::PartialOrdSpec;
use vstd::std_specs::cmp::PartialOrdSpecImpl;
use vstd::std_specs::iter::IteratorSpec;
use vstd::string::StringExecFns;
use vstd::string::to_string_from_display_ensures;

use crate::error::Error;
use crate::laws::lemma_equal_transitive;
use crate::laws::lemma_inserted_ascending;
use crate::laws::lemma_rejects_iff_present;
use crate::ord_vec::OrdVec;
use crate::order::comparisons_specified;
use crate::order::halting;
use crate::order::holds_equal;
use crate::order::inserted;
use crate::order::is_total_order;
use crate::order::rejects;
use crate::order::scan_stop;
use crate::order::strictly_ascending;
use crate::scan::first_where;
use crate::scan::lemma_first_where_is_first;
use crate::scan::lemma_first_where_unique;
use crate::scan::some_where;

verus! {

/// A key with the value that goes with it. Two of them compare as their
/// keys do: the values take no part in `==` nor in `<`.
#[derive(Clone, Debug, Default)]
pub struct Indexed<I, E>(I, E) where
    I: PartialEq + PartialOrd + std::fmt::Display,
    E: std::fmt::Display,
;

impl<I, E> View for Indexed<I, E> where
    I: PartialEq + PartialOrd + std::fmt::Display,
    E: std::fmt::Display,
 {
    type V = (I, E);

    closed spec fn view(&self) -> (I, E) {
        (self.0, self.1)
    }
}

/// `text` renders an entry of key `index` and value `element`: the
/// rendering of the key, a colon and a blank, the rendering of the value.
pub open spec fn renders_entry<I: std::fmt::Display, E: std::fmt::Display>(
    index: I,
    element: E,
    text: String,
) -> bool {
    exists|key: String, value: String|
        {
            &&& #[trigger] to_string_from_display_ensures::<I>(&index, key)
            &&& #[trigger] to_string_from_display_ensures::<E>(&element, value)
            &&& text@ == key@ + ": "@ + value@
        }
}

impl<I, E> Indexed<I, E> where
    I: PartialEq + PartialOrd + std::fmt::Display,
    E: std::fmt::Display,
 {
    /// The entry of key `index` and value `element`.
    pub fn new(index: I, element: E) -> (r: Self)
        ensures
            r@ == (index, element),
    {
        Indexed(index, element)
    }

    /// The key.
    pub fn index(&self) -> (r: &I)
        ensures
            *r == self@.0,
    {
        &self.0
    }

    /// The value.
    pub fn element(&self) -> (r: &E)
        ensures
            *r == self@.1,
    {
        &self.1
    }

    /// The value, to be changed in place; the key stays.
    pub fn element_mut(&mut self) -> (r: &mut E)
        ensures
            *r == old(self)@.1,
            final(self)@ == (old(self)@.0, *final(r)),
    {
        &mut self.1
    }

    /// The rendering of the entry: key, colon, blank, value.
    pub fn to_string(&self) -> (r: String)
        ensures
            renders_entry(self@.0, self@.1, r),
    {
        let key = self.0.to_string();
        let value = self.1.to_string();
        let mut out = String::new();
        out.append(key.as_str());
        out.append(": ");
        out.append(value.as_str());
        proof {
            assert(out@ == key@ + ": "@ + value@);
            assert(to_string_from_display_ensures::<I>(&self.0, key));
            assert(to_string_from_display_ensures::<E>(&self.1, value));
        }
        out
    }
}

impl<I, E> PartialEq for Indexed<I, E> where
    I: PartialEq + PartialOrd + std::fmt::Display,
    E: std::fmt::Display,
 {
    fn eq(&self, other: &Self) -> (r: bool) {
        self.0 == other.0
    }
}

impl<I, E> PartialEqSpecImpl for Indexed<I, E> where
    I: PartialEq + PartialOrd + std::fmt::Display,
    E: std::fmt::Display,
 {
    open spec fn obeys_eq_spec() -> bool {
        I::obeys_eq_spec()
    }

    open spec fn eq_spec(&self, other: &Self) -> bool {
        self@.0.eq_spec(&other@.0)
    }
}

impl<I, E> PartialOrd for Indexed<I, E> where
    I: PartialEq + PartialOrd + std::fmt::Display,
    E: std::fmt::Display,
 {
    fn partial_cmp(&self, other: &Self) -> (r: Option<Ordering>) {
        self.0.partial_cmp(&other.0)
    }
}

impl<I, E> PartialOrdSpecImpl for Indexed<I, E> where
    I: PartialEq + PartialOrd + std::fmt::Display,
    E: std::fmt::Display,
 {
    open spec fn obeys_partial_cmp_spec() -> bool {
        I::obeys_partial_cmp_spec()
    }

    open spec fn partial_cmp_spec(&self, other: &Self) -> Option<Ordering> {
        self@.0.partial_cmp_spec(&other@.0)
    }
}

/// The condition that an entry has a key equal to `index`.
pub open spec fn keyed<I, E>(index: I) -> spec_fn(Indexed<I, E>) -> bool where
    I: PartialEq + PartialOrd + std::fmt::Display,
    E: std::fmt::Display,
 {
    |entry: Indexed<I, E>| entry@.0.eq_spec(&index)
}

/// An entry is its key and its value, and nothing else.
pub proof fn lemma_entry_by_view<I, E>(a: Indexed<I, E>, b: Indexed<I, E>) where
    I: PartialEq + PartialOrd + std::fmt::Display,
    E: std::fmt::Display,

    requires
        a@ == b@,
    ensures
        a == b,
{
}

/// Entries are in a total order where their keys are.
pub proof fn lemma_entries_total_order<I, E>() where
    I: PartialEq + PartialOrd + std::fmt::Display,
    E: std::fmt::Display,

    requires
        is_total_order::<I>(),
    ensures
        is_total_order::<Indexed<I, E>>(),
{
    reveal(is_total_order);
}

/// An entry equals some entry of `s` exactly when its key equals the key
/// of some entry of `s`.
pub proof fn lemma_equal_by_key<I, E>(s: Seq<Indexed<I, E>>, x: Indexed<I, E>) where
    I: PartialEq + PartialOrd + std::fmt::Display,
    E: std::fmt::Display,

    ensures
        holds_equal(s, x) <==> some_where(s, keyed(x@.0)),
{
    if holds_equal(s, x) {
        let i = choose|i: int| 0 <= i < s.len() && (#[trigger] s[i]).is_eq(&x);
        assert(keyed::<I, E>(x@.0)(s[i]));
    }
    if some_where(s, keyed(x@.0)) {
        let i = choose|i: int| 0 <= i < s.len() && keyed::<I, E>(x@.0)(#[trigger] s[i]);
        assert(s[i].is_eq(&x));
    }
}

/// The value of an entry takes no part in its insertion: two entries of
/// one key halt the scan at the same place, and are refused together or
/// accepted together.
pub proof fn lemma_value_irrelevant<I, E>(
    s: Seq<Indexed<I, E>>,
    a: Indexed<I, E>,
    b: Indexed<I, E>,
) where I: PartialEq + PartialOrd + std::fmt::Display, E: std::fmt::Display
    requires
        a@.0 == b@.0,
    ensures
        scan_stop(s, a) == scan_stop(s, b),
        rejects(s, a) == rejects(s, b),
{
    lemma_first_where_is_first(s, halting(a));
    lemma_first_where_unique(s, halting(b), scan_stop(s, a));
}

/// Once an entry was inserted into an ascending sequence, an entry of an
/// equal key is refused, whatever the values of the two are.
pub proof fn lemma_equal_key_refused<I, E>(
    s: Seq<Indexed<I, E>>,
    a: Indexed<I, E>,
    b: Indexed<I, E>,
) where I: PartialEq + PartialOrd + std::fmt::Display, E: std::fmt::Display
    requires
        is_total_order::<I>(),
        strictly_ascending(s),
        a@.0.eq_spec(&b@.0),
    ensures
        rejects(inserted(s, a), b),
{
    lemma_entries_total_order::<I, E>();
    let t = inserted(s, a);
    lemma_inserted_ascending(s, a);
    lemma_rejects_iff_present(s, a);
    lemma_rejects_iff_present(t, b);
    if rejects(s, a) {
        let i = choose|i: int| 0 <= i < s.len() && (#[trigger] s[i]).is_eq(&a);
        lemma_equal_transitive(s[i], a, b);
    } else {
        lemma_first_where_is_first(s, halting(a));
        assert(t[scan_stop(s, a)] == a);
    }
}

/// Entries that change their values and keep their keys stay in ascending
/// order.
pub proof fn lemma_same_keys_ascending<I, E>(
    before: Seq<Indexed<I, E>>,
    after: Seq<Indexed<I, E>>,
) where I: PartialEq + PartialOrd + std::fmt::Display, E: std::fmt::Display
    requires
        strictly_ascending(before),
        after.len() == before.len(),
        forall|i: int| 0 <= i < before.len() ==> (#[trigger] after[i])@.0 == before[i]@.0,
    ensures
        strictly_ascending(after),
{
    assert forall|i: int, j: int|
        0 <= i < j < after.len() implies #[trigger] PartialOrdSpec::partial_cmp_spec(
        &after[i],
        &after[j],
    ) == Some(Ordering::Less) by {
        assert(PartialOrdSpec::partial_cmp_spec(&before[i], &before[j]) == Some(Ordering::Less));
    }
}

/// `after` is `before` but for the value of the entry at `p`, which is
/// `value`.
pub open spec fn holds_value_at<I, E>(
    before: Seq<Indexed<I, E>>,
    after: Seq<Indexed<I, E>>,
    p: int,
    value: E,
) -> bool where I: PartialEq + PartialOrd + std::fmt::Display, E: std::fmt::Display {
    &&& 0 <= p < before.len()
    &&& after.len() == before.len()
    &&& after[p]@ == (before[p]@.0, value)
    &&& forall|j: int| 0 <= j < before.len() && j != p ==> after[j] == before[j]
}

/// The value of the entry at `p`, to be changed in place.
fn value_at<I, E>(entries: &mut [Indexed<I, E>], p: usize) -> (r: &mut E) where
    I: PartialEq + PartialOrd + std::fmt::Display,
    E: std::fmt::Display,

    requires
        p < old(entries)@.len(),
    ensures
        *r == old(entries)@[p as int]@.1,
        holds_value_at(old(entries)@, final(entries)@, p as int, *final(r)),
{
    &mut entries[p].1
}

/// A map from keys to values whose entries insertion keeps in ascending
/// order of the keys, with no key twice.
#[derive(Clone, Debug, PartialEq)]
pub struct OrdMap<I, E> where
    I: PartialEq + PartialOrd + std::fmt::Display,
    E: std::fmt::Display,
 {
    vec: OrdVec<Indexed<I, E>>,
}

impl<I, E> View for OrdMap<I, E> where
    I: PartialEq + PartialOrd + std::fmt::Display,
    E: std::fmt::Display,
 {
    type V = Seq<Indexed<I, E>>;

    closed spec fn view(&self) -> Seq<Indexed<I, E>> {
        self.vec@
    }
}

impl<I, E> Default for OrdMap<I, E> where
    I: PartialEq + PartialOrd + std::fmt::Display,
    E: std::fmt::Display,
 {
    /// A map without entries.
    fn default() -> (r: Self)
        ensures
            r@ == Seq::<Indexed<I, E>>::empty(),
            r.is_ascending(),
    {
        OrdMap { vec: OrdVec::new() }
    }
}

impl<I, E> OrdMap<I, E> where
    I: PartialEq + PartialOrd + std::fmt::Display,
    E: std::fmt::Display,
 {
    /// The order holds: each entry's key is less than the key of every
    /// entry behind it.
    pub open spec fn is_ascending(&self) -> bool {
        strictly_ascending(self@)
    }

    /// Inserts `indexed` where the order of the keys wants it, or reports it
    /// as a duplicate, with its rendering, where an entry of an equal key is
    /// met first. The values take no part in this. An empty map accepts
    /// whatever comes.
    pub fn insert(&mut self, indexed: Indexed<I, E>) -> (r: Result<(), Error>)
        ensures
            comparisons_specified::<I>() ==> (r is Err <==> rejects(old(self)@, indexed)),
            comparisons_specified::<I>() ==> final(self)@ == inserted(old(self)@, indexed),
            r matches Err(Error::Duplicate(text)) ==> final(self)@ == old(self)@ && renders_entry(
                indexed@.0,
                indexed@.1,
                text,
            ),
            r is Ok ==> exists|p: int|
                0 <= p <= old(self)@.len() && final(self)@ == old(self)@.insert(p, indexed),
            old(self)@.len() == 0 ==> r is Ok && final(self)@ == seq![indexed],
            comparisons_specified::<I>() && is_total_order::<I>() && old(self).is_ascending() ==> {
                &&& final(self).is_ascending()
                &&& r is Err <==> some_where(old(self)@, keyed(indexed@.0))
            },
    {
        proof {
            if is_total_order::<I>() {
                lemma_entries_total_order::<I, E>();
                lemma_equal_by_key(self@, indexed);
            }
        }
        match self.vec.place(indexed) {
            Ok(()) => {
                proof {
                    let p = choose|p: int|
                        0 <= p <= old(self).vec@.len() && self.vec@ == old(self).vec@.insert(
                            p,
                            indexed,
                        );
                    assert(self@ == old(self)@.insert(p, indexed));
                }
                Ok(())
            },
            Err(back) => Err(Error::Duplicate(back.to_string())),
        }
    }

    /// The value of the first entry whose key equals `index`, to be changed
    /// in place: what is written through the reference is that entry's value
    /// afterwards, and no key and no other value changes.
    pub fn get_mut(&mut self, index: &I) -> (r: Option<&mut E>)
        ensures
            I::obeys_eq_spec() ==> {
                let p = first_where(old(self)@, keyed(*index));
                match r {
                    Some(e) => *e == old(self)@[p]@.1 && holds_value_at(
                        old(self)@,
                        final(self)@,
                        p,
                        *final(e),
                    ),
                    None => p == old(self)@.len(),
                }
            },
            match r {
                Some(e) => exists|p: int|
                    *e == old(self)@[p]@.1 && #[trigger] holds_value_at(
                        old(self)@,
                        final(self)@,
                        p,
                        *final(e),
                    ),
                None => final(self)@ == old(self)@,
            },
            old(self).is_ascending() ==> final(self).is_ascending(),
    {
        let p = self.position(index);
        if p < self.vec.len() {
            let ghost after = final(self)@;
            let r = Some(value_at(self.vec.as_mut_slice(), p));
            proof {
                assert(holds_value_at(old(self)@, after, p as int, *final(r->Some_0)));
                if old(self).is_ascending() {
                    lemma_same_keys_ascending(old(self)@, after);
                }
            }
            r
        } else {
            None
        }
    }

    /// The position of the first entry whose key equals `index`, or the
    /// number of entries where there is none.
    fn position(&self, index: &I) -> (r: usize)
        ensures
            r <= self@.len(),
            I::obeys_eq_spec() ==> r == first_where(self@, keyed(*index)),
    {
        let entries = self.vec.as_slice();
        let n = entries.len();
        let mut i: usize = 0;
        while i < n
            invariant
                n == entries@.len(),
                i <= n,
                entries@ == self@,
                I::obeys_eq_spec() ==> forall|j: int|
                    0 <= j < i ==> !keyed::<I, E>(*index)(#[trigger] entries@[j]),
            decreases n - i,
        {
            if entries[i].0 == *index {
                proof {
                    if I::obeys_eq_spec() {
                        lemma_first_where_unique(entries@, keyed(*index), i as int);
                    }
                }
                return i;
            }
            i += 1;
        }
        proof {
            if I::obeys_eq_spec() {
                lemma_first_where_unique(entries@, keyed(*index), n as int);
            }
        }
        n
    }

    /// For each entry in their order, its key and its value, the value to
    /// be changed in place.
    pub fn iter_mut(&mut self) -> (r: impl Iterator<Item = (&I, &mut E)>)
        ensures
            IteratorSpec::obeys_prophetic_iter_laws(&r),
            IteratorSpec::decrease(&r) is Some,
            IteratorSpec::initial_value_relation(&r, &r),
            IteratorSpec::remaining(&r).len() == old(self)@.len(),
            final(self)@.len() == old(self)@.len(),
            forall|i: int|
                0 <= i < old(self)@.len() ==> {
                    let pair = #[trigger] IteratorSpec::remaining(&r)[i];
                    &&& *pair.0 == old(self)@[i]@.0
                    &&& *pair.1 == old(self)@[i]@.1
                    &&& final(self)@[i]@ == (old(self)@[i]@.0, *final(pair.1))
                },
            old(self).is_ascending() ==> final(self).is_ascending(),
    {
        let ghost before = self@;
        let ghost after = final(self)@;
        let mut out: Vec<(&I, &mut E)> = Vec::new();
        let mut rest: &mut [Indexed<I, E>] = self.vec.as_mut_slice();
        while rest.len() > 0
            invariant
                out@.len() + rest@.len() == before.len(),
                rest@ == before.skip(out@.len() as int),
                after.len() == out@.len() + final(rest)@.len(),
                final(rest)@ == after.skip(out@.len() as int),
                forall|i: int|
                    0 <= i < out@.len() ==> {
                        let pair = #[trigger] out@[i];
                        &&& *pair.0 == before[i]@.0
                        &&& *pair.1 == before[i]@.1
                        &&& after[i]@ == (before[i]@.0, *final(pair.1))
                    },
            decreases rest@.len(),
        {
            let ghost done = out@;
            let ghost rest_before = rest@;
            let ghost rest_after = final(rest)@;
            let (head, tail) = rest.split_at_mut(1);
            let ghost head_after = final(head)@;
            let entry = &mut head[0];
            out.push((&entry.0, &mut entry.1));
            rest = tail;
            proof {
                assert(rest_after == head_after + final(rest)@);
                assert(rest_after[0] == after[done.len() as int]);
                assert(rest_before[0] == before[done.len() as int]);
                assert forall|j: int| 0 <= j < final(rest)@.len() implies final(rest)@[j]
                    == after.skip(out@.len() as int)[j] by {
                    assert(final(rest)@[j] == rest_after[j + 1]);
                }
            }
        }
        proof {
            if old(self).is_ascending() {
                assert forall|i: int| 0 <= i < before.len() implies (#[trigger] after[i])@.0
                    == before[i]@.0 by {
                    let pair = out@[i];
                }
                lemma_same_keys_ascending(before, after);
            }
        }
        out.into_iter()
    }

    /// The entries in their order, front to back.
    pub fn iter(&self) -> (r: impl Iterator<Item = &Indexed<I, E>>)
        ensures
            IteratorSpec::remaining(&r) == self@.as_ref(),
            IteratorSpec::obeys_prophetic_iter_laws(&r),
            IteratorSpec::decrease(&r) is Some,
            IteratorSpec::initial_value_relation(&r, &r),
    {
        self.vec.iter()
    }

    /// The number of entries.
    pub fn len(&self) -> (r: usize)
        ensures
            r == self@.len(),
    {
        self.vec.len()
    }

    /// Whether there is no entry.
    pub fn is_empty(&self) -> (r: bool)
        ensures
            r == (self@.len() == 0),
    {
        self.vec.is_empty()
    }

    /// Whether some entry has a key equal to `index`.
    pub fn contains(&self, index: I) -> (r: bool)
        ensures
            I::obeys_eq_spec() ==> r == some_where(self@, keyed(index)),
            self@.len() == 0 ==> !r,
    {
        proof {
            lemma_first_where_is_first(self@, keyed(index));
        }
        self.position(&index) < self.vec.len()
    }
}

} // verus!
