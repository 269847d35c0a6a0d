//! Keys, records and errors of the key-value storage.
use std::ops::{Bound, RangeBounds};

use bytes::Bytes;
use vstd::prelude::*;
use vstd::string::*;

verus! {

/// A byte string that is cheap to share.
#[verifier::external_type_specification]
#[verifier::external_body]
pub struct ExBytes(bytes::Bytes);

/// An end of a range.
#[verifier::external_type_specification]
#[verifier::reject_recursive_types(T)]
pub struct ExBound<T>(std::ops::Bound<T>);

/// The bytes that a `Bytes` holds.
pub uninterp spec fn contents(b: Bytes) -> Seq<u8>;

/// `<Bytes as Deref>::deref`: the bytes that are held, as a slice.
#[verifier::external_body]
fn as_slice(b: &Bytes) -> (r: &[u8])
    ensures
        r@ == contents(*b),
{
    b
}

/// `Bytes::new`: holds nothing.
#[verifier::external_body]
fn no_bytes() -> (b: Bytes)
    ensures
        contents(b) == Seq::<u8>::empty(),
{
    Bytes::new()
}

/// `<Bytes as Clone>::clone`: another handle on the same bytes.
#[verifier::external_body]
fn share(b: &Bytes) -> (r: Bytes)
    ensures
        contents(r) == contents(*b),
{
    b.clone()
}

/// Whether one byte string comes before another: at the first place where they
/// differ it has the smaller byte, or it ends there.
pub open spec fn before(a: Seq<u8>, b: Seq<u8>) -> bool
    decreases a.len(),
{
    if b.len() == 0 {
        false
    } else if a.len() == 0 {
        true
    } else if a[0] == b[0] {
        before(a.drop_first(), b.drop_first())
    } else {
        a[0] < b[0]
    }
}

/// Whether one byte string comes before another.
pub fn precedes(a: &[u8], b: &[u8]) -> (r: bool)
    ensures
        r == before(a@, b@),
{
    let mut i: usize = 0;
    assert(a@.skip(0) =~= a@);
    assert(b@.skip(0) =~= b@);
    while i < a.len() && i < b.len() && a[i] == b[i]
        invariant
            i <= a@.len(),
            i <= b@.len(),
            before(a@.skip(i as int), b@.skip(i as int)) == before(a@, b@),
        decreases a@.len() - i,
    {
        assert(a@.skip(i as int).drop_first() =~= a@.skip(i as int + 1));
        assert(b@.skip(i as int).drop_first() =~= b@.skip(i as int + 1));
        i = i + 1;
    }
    if i == b.len() {
        false
    } else if i == a.len() {
        true
    } else {
        a[i] < b[i]
    }
}

/// A range over byte sequences, used for key range queries.
#[derive(Debug)]
pub struct BytesRange {
    pub start: Bound<Bytes>,
    pub end: Bound<Bytes>,
}

impl BytesRange {
    /// Whether a key lies in the range.
    pub open spec fn holds(&self, k: Seq<u8>) -> bool {
        &&& match self.start {
            Bound::Included(s) => !before(k, contents(s)),
            Bound::Excluded(s) => before(contents(s), k),
            Bound::Unbounded => true,
        }
        &&& match self.end {
            Bound::Included(e) => !before(contents(e), k),
            Bound::Excluded(e) => before(k, contents(e)),
            Bound::Unbounded => true,
        }
    }

    pub fn new(start: Bound<Bytes>, end: Bound<Bytes>) -> (range: Self)
        ensures
            range.start == start,
            range.end == end,
    {
        BytesRange { start, end }
    }

    pub fn contains(&self, k: &[u8]) -> (r: bool)
        ensures
            r == self.holds(k@),
    {
        (match &self.start {
            Bound::Included(s) => !precedes(k, as_slice(s)),
            Bound::Excluded(s) => precedes(as_slice(s), k),
            Bound::Unbounded => true,
        }) && (match &self.end {
            Bound::Included(e) => !precedes(as_slice(e), k),
            Bound::Excluded(e) => precedes(k, as_slice(e)),
            Bound::Unbounded => true,
        })
    }

    /// Creates a range that scans everything.
    pub fn unbounded() -> (range: Self)
        ensures
            range.start == Bound::<Bytes>::Unbounded,
            range.end == Bound::<Bytes>::Unbounded,
            forall|k: Seq<u8>| range.holds(k),
    {
        BytesRange { start: Bound::Unbounded, end: Bound::Unbounded }
    }
}

impl RangeBounds<Bytes> for BytesRange {
    fn start_bound(&self) -> (r: Bound<&Bytes>)
        ensures
            r == borrowed(self.start),
    {
        match &self.start {
            Bound::Included(s) => Bound::Included(s),
            Bound::Excluded(s) => Bound::Excluded(s),
            Bound::Unbounded => Bound::Unbounded,
        }
    }

    fn end_bound(&self) -> (r: Bound<&Bytes>)
        ensures
            r == borrowed(self.end),
    {
        match &self.end {
            Bound::Included(e) => Bound::Included(e),
            Bound::Excluded(e) => Bound::Excluded(e),
            Bound::Unbounded => Bound::Unbounded,
        }
    }
}

/// An end of a range, with its key borrowed.
pub open spec fn borrowed(bound: Bound<Bytes>) -> Bound<&'static Bytes> {
    match bound {
        Bound::Included(b) => Bound::Included(&b),
        Bound::Excluded(b) => Bound::Excluded(&b),
        Bound::Unbounded => Bound::Unbounded,
    }
}

/// That two ends of a range are at the same key.
pub open spec fn same_bound(a: Bound<Bytes>, b: Bound<Bytes>) -> bool {
    match (a, b) {
        (Bound::Included(x), Bound::Included(y)) => contents(x) == contents(y),
        (Bound::Excluded(x), Bound::Excluded(y)) => contents(x) == contents(y),
        (Bound::Unbounded, Bound::Unbounded) => true,
        _ => false,
    }
}

fn clone_bound(bound: &Bound<Bytes>) -> (r: Bound<Bytes>)
    ensures
        same_bound(r, *bound),
{
    match bound {
        Bound::Included(b) => Bound::Included(share(b)),
        Bound::Excluded(b) => Bound::Excluded(share(b)),
        Bound::Unbounded => Bound::Unbounded,
    }
}

impl Clone for BytesRange {
    fn clone(&self) -> (r: Self)
        ensures
            same_bound(r.start, self.start),
            same_bound(r.end, self.end),
    {
        BytesRange { start: clone_bound(&self.start), end: clone_bound(&self.end) }
    }
}

/// Result type alias for storage operations.
pub type StorageResult<T> = Result<T, StorageError>;

/// Result of a write operation, containing the sequence number assigned by the
/// storage engine.
#[derive(Clone, Copy, Debug, PartialEq, Eq, Structural)]
pub struct WriteResult {
    /// The sequence number assigned to this write by the underlying storage
    /// engine.
    pub seqnum: u64,
}

/// A key with its value.
#[derive(Debug)]
pub struct Record {
    pub key: Bytes,
    pub value: Bytes,
}

impl Record {
    pub fn new(key: Bytes, value: Bytes) -> (record: Self)
        ensures
            record.key == key,
            record.value == value,
    {
        Record { key, value }
    }

    /// A record whose value is empty.
    pub fn empty(key: Bytes) -> (record: Self)
        ensures
            record.key == key,
            contents(record.value) == Seq::<u8>::empty(),
    {
        Record::new(key, no_bytes())
    }
}

impl Clone for Record {
    fn clone(&self) -> (r: Self)
        ensures
            contents(r.key) == contents(self.key),
            contents(r.value) == contents(self.value),
    {
        Record { key: share(&self.key), value: share(&self.value) }
    }
}

/// Error type for storage operations.
#[derive(Debug, PartialEq, Eq)]
pub enum StorageError {
    /// Storage-related errors.
    Storage(String),
    /// Internal errors.
    Internal(String),
}

impl StorageError {
    /// Converts the text of a storage error to `StorageError::Storage`.
    pub fn from_storage(e: String) -> (error: Self)
        ensures
            error == StorageError::Storage(e),
    {
        StorageError::Storage(e)
    }

    /// The error as text.
    pub fn message(&self) -> (text: String)
        ensures
            text@ == match *self {
                StorageError::Storage(msg) => "Storage error: "@ + msg@,
                StorageError::Internal(msg) => "Internal error: "@ + msg@,
            },
    {
        match self {
            StorageError::Storage(msg) => {
                let mut text = "Storage error: ".to_owned();
                text.append(msg.as_str());
                text
            },
            StorageError::Internal(msg) => {
                let mut text = "Internal error: ".to_owned();
                text.append(msg.as_str());
                text
            },
        }
    }
}

impl Clone for StorageError {
    fn clone(&self) -> (r: Self)
        ensures
            match (*self, r) {
                (StorageError::Storage(a), StorageError::Storage(b)) => a@ == b@,
                (StorageError::Internal(a), StorageError::Internal(b)) => a@ == b@,
                _ => false,
            },
    {
        match self {
            StorageError::Storage(msg) => StorageError::Storage(msg.clone()),
            StorageError::Internal(msg) => StorageError::Internal(msg.clone()),
        }
    }
}

/// Of two different byte strings exactly one comes before the other.
pub proof fn law_before_is_total(a: Seq<u8>, b: Seq<u8>)
    ensures
        a == b ==> !before(a, b),
        a != b ==> before(a, b) != before(b, a),
    decreases a.len(),
{
    if a.len() > 0 && b.len() > 0 && a[0] == b[0] {
        law_before_is_total(a.drop_first(), b.drop_first());
        if a.drop_first() == b.drop_first() {
            assert(a =~= seq![a[0]] + a.drop_first());
            assert(b =~= seq![b[0]] + b.drop_first());
        }
    } else if a.len() == 0 && b.len() == 0 {
        assert(a =~= b);
    }
}

/// What comes before something that comes before a third comes before the third.
pub proof fn law_before_is_transitive(a: Seq<u8>, b: Seq<u8>, c: Seq<u8>)
    requires
        before(a, b),
        before(b, c),
    ensures
        before(a, c),
    decreases a.len(),
{
    if a.len() > 0 && a[0] == b[0] && b[0] == c[0] {
        law_before_is_transitive(a.drop_first(), b.drop_first(), c.drop_first());
    }
}

/// A range has no gaps: a key between two that lie in it lies in it too.
pub proof fn law_range_has_no_gaps(range: BytesRange, a: Seq<u8>, b: Seq<u8>, c: Seq<u8>)
    requires
        range.holds(a),
        range.holds(c),
        !before(b, a),
        !before(c, b),
    ensures
        range.holds(b),
{
    law_before_is_total(a, b);
    law_before_is_total(b, c);
    match range.start {
        Bound::Included(s) => lemma_between(contents(s), a, b),
        Bound::Excluded(s) => lemma_between(contents(s), a, b),
        Bound::Unbounded => {},
    }
    match range.end {
        Bound::Included(e) => lemma_between(b, c, contents(e)),
        Bound::Excluded(e) => lemma_between(b, c, contents(e)),
        Bound::Unbounded => {},
    }
}

proof fn lemma_between(a: Seq<u8>, b: Seq<u8>, c: Seq<u8>)
    ensures
        !before(b, a) && !before(c, b) ==> !before(c, a),
        before(a, b) && !before(c, b) ==> before(a, c),
        !before(b, a) && before(b, c) ==> before(a, c),
{
    law_before_is_total(a, b);
    law_before_is_total(b, c);
    law_before_is_total(a, c);
    if before(a, b) && before(b, c) {
        law_before_is_transitive(a, b, c);
    }
}

/// What two byte strings begin with in common has no say in their order; of two
/// that begin differently the one with the smaller byte comes first, whatever
/// follows; and one that goes on comes after one that does not.
pub proof fn law_first_difference_decides(common: Seq<u8>, a: u8, x: Seq<u8>, b: u8, y: Seq<u8>)
    ensures
        before(common + (seq![a] + x), common + (seq![b] + y)) == if a == b {
            before(x, y)
        } else {
            a < b
        },
        before(common, common + (seq![b] + y)),
        !before(common + (seq![a] + x), common),
    decreases common.len(),
{
    let one = common + (seq![a] + x);
    let other = common + (seq![b] + y);
    if common.len() > 0 {
        let less = common.drop_first();
        law_first_difference_decides(less, a, x, b, y);
        assert(one.drop_first() =~= less + (seq![a] + x));
        assert(other.drop_first() =~= less + (seq![b] + y));
        assert(one[0] == common[0] && other[0] == common[0]);
    } else {
        assert(one[0] == a && other[0] == b);
        assert(one.drop_first() =~= x);
        assert(other.drop_first() =~= y);
    }
}

/// A key lies in a range where neither end leaves it out. An end that is included
/// lets its own key in and one that is excluded does not; on the far side of an end
/// no key lies, on the near side every key does; and an end that is unbounded leaves
/// none out.
pub proof fn law_ends_of_a_range(range: BytesRange, end: Bytes, k: Seq<u8>)
    ensures
        range.holds(k) <==> (BytesRange { start: range.start, end: Bound::Unbounded }).holds(k) && (
        BytesRange { start: Bound::Unbounded, end: range.end }).holds(k),
        (BytesRange { start: Bound::Unbounded, end: Bound::Unbounded }).holds(k),
        ({
            let from = BytesRange { start: Bound::Included(end), end: Bound::Unbounded };
            let beyond = BytesRange { start: Bound::Excluded(end), end: Bound::Unbounded };
            let to = BytesRange { start: Bound::Unbounded, end: Bound::Included(end) };
            let below = BytesRange { start: Bound::Unbounded, end: Bound::Excluded(end) };
            &&& k == contents(end) ==> from.holds(k) && to.holds(k) && !beyond.holds(k)
                && !below.holds(k)
            &&& before(k, contents(end)) ==> !from.holds(k) && !beyond.holds(k) && to.holds(k)
                && below.holds(k)
            &&& before(contents(end), k) ==> from.holds(k) && beyond.holds(k) && !to.holds(k)
                && !below.holds(k)
        }),
{
    law_before_is_total(k, contents(end));
}

/// Ranges with the same ends hold the same keys.
pub proof fn law_same_ends_same_keys(a: BytesRange, b: BytesRange, k: Seq<u8>)
    requires
        same_bound(a.start, b.start),
        same_bound(a.end, b.end),
    ensures
        a.holds(k) == b.holds(k),
{
}

} // verus!
