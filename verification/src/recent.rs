//! The deduplicating collector behind "the K most recent distinct entries".
//!
//! The backward walk feeds payloads newest-first into a [`Collector`], which
//! keeps the distinct text entries in the order first encountered — i.e.
//! most-recent-first — in an insertion-ordered set, and reports when the
//! requested count has been reached.

use vstd::prelude::*;
use vstd::utf8::valid_utf8;

verus! {

/// indexmap's `IndexSet`, a hash set that iterates in insertion order.
#[verifier::external_type_specification]
#[verifier::external_body]
#[verifier::reject_recursive_types(T)]
#[verifier::reject_recursive_types(S)]
pub struct ExIndexSet<T, S>(indexmap::IndexSet<T, S>);

/// The elements an `IndexSet` of byte entries holds, in its insertion
/// order.  indexmap documents that the order is determined by the sequence
/// of insertion and removal calls alone and that all iterators traverse the
/// set in that order.
pub uninterp spec fn iset_elems(s: indexmap::IndexSet<Vec<u8>>) -> Seq<Seq<u8>>;

/// Relies on `IndexSet::with_capacity`: creates an empty set.
#[verifier::external_body]
fn iset_with_capacity(n: usize) -> (s: indexmap::IndexSet<Vec<u8>>)
    ensures
        iset_elems(s) == Seq::<Seq<u8>>::empty(),
{
    indexmap::IndexSet::with_capacity(n)
}

/// Relies on `IndexSet::len`: the number of elements.
#[verifier::external_body]
fn iset_len(s: &indexmap::IndexSet<Vec<u8>>) -> (n: usize)
    ensures
        n == iset_elems(*s).len(),
{
    s.len()
}

/// Relies on `IndexSet::contains`: membership, by `Vec<u8>` equality.
#[verifier::external_body]
fn iset_contains(s: &indexmap::IndexSet<Vec<u8>>, e: &Vec<u8>) -> (r: bool)
    ensures
        r == iset_elems(*s).contains(e@),
{
    s.contains(e)
}

/// Relies on `IndexSet::insert`: a new element is appended at the end;
/// inserting an element equal to a present one leaves the set, and its
/// order, unaltered.
#[verifier::external_body]
fn iset_insert(s: &mut indexmap::IndexSet<Vec<u8>>, e: Vec<u8>) -> (r: bool)
    ensures
        r == !iset_elems(*old(s)).contains(e@),
        iset_elems(*final(s)) == if iset_elems(*old(s)).contains(e@) {
            iset_elems(*old(s))
        } else {
            iset_elems(*old(s)).push(e@)
        },
{
    s.insert(e)
}

/// Relies on `IndexSet`'s by-value iterator, which yields the elements in
/// order.
#[verifier::external_body]
fn iset_to_vec(s: indexmap::IndexSet<Vec<u8>>) -> (r: Vec<Vec<u8>>)
    ensures
        r.deep_view() == iset_elems(s),
{
    s.into_iter().collect()
}

/// Relies on std's `str::from_utf8`: returns `Ok` exactly on valid UTF-8
/// input, as formalized by vstd's `valid_utf8`.
#[verifier::external_body]
fn utf8_check(e: &[u8]) -> (r: bool)
    ensures
        r == valid_utf8(e@),
{
    core::str::from_utf8(e).is_ok()
}

/// How one offered entry changes the collected sequence: a distinct text
/// entry is appended, anything else is ignored.
pub open spec fn dedup_step(acc: Seq<Seq<u8>>, e: Seq<u8>) -> Seq<Seq<u8>> {
    if valid_utf8(e) && !acc.contains(e) {
        acc.push(e)
    } else {
        acc
    }
}

/// Collects distinct text entries in first-encountered order, up to a
/// requested count.
pub struct Collector {
    set: indexmap::IndexSet<Vec<u8>>,
    limit: usize,
}

impl View for Collector {
    type V = Seq<Seq<u8>>;

    /// The entries collected so far, most-recent-first.
    closed spec fn view(&self) -> Seq<Seq<u8>> {
        iset_elems(self.set)
    }
}

impl Collector {
    /// The requested number of entries.
    pub closed spec fn limit(&self) -> usize {
        self.limit
    }

    /// An empty collector that will stop asking once `limit` distinct
    /// entries are at hand.
    pub fn new(limit: usize) -> (c: Collector)
        ensures
            c@ == Seq::<Seq<u8>>::empty(),
            c.limit() == limit,
    {
        Collector { set: iset_with_capacity(limit), limit }
    }

    /// Whether the requested count has been reached.
    pub fn full(&self) -> (r: bool)
        ensures
            r == (self@.len() >= self.limit()),
    {
        iset_len(&self.set) >= self.limit
    }

    /// The number of entries collected so far.
    pub fn len(&self) -> (n: usize)
        ensures
            n == self@.len(),
    {
        iset_len(&self.set)
    }

    /// Offer the next payload of the walk, newest first: a distinct text
    /// entry is kept, a duplicate or non-text entry is consumed and ignored.
    pub fn offer(&mut self, entry: Vec<u8>)
        ensures
            final(self)@ == dedup_step(old(self)@, entry@),
            final(self).limit() == old(self).limit(),
    {
        if utf8_check(entry.as_slice()) {
            if !iset_contains(&self.set, &entry) {
                let _ = iset_insert(&mut self.set, entry);
            }
        }
    }

    /// The collected entries, most-recent-first.
    pub fn into_entries(self) -> (r: Vec<Vec<u8>>)
        ensures
            r.deep_view() == self@,
    {
        iset_to_vec(self.set)
    }
}

} // verus!
