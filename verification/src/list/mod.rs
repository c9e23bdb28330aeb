//! `FlList`: an immutable list of values, stored as a shared array of
//! buckets so that copies of a list share their storage.
use std::sync::Arc;
use vstd::prelude::*;

use crate::{share, Value};

pub mod access;
pub mod construct;

pub use access::FlListIter;

verus! {

/// An immutable list of values. Its values are stored in buckets, one after
/// the other; a clone shares the buckets with the list it was made from.
#[derive(Debug)]
pub struct FlList {
    buckets: Arc<Vec<Bucket>>,
}

/// A run of consecutive values of a list.
#[derive(Debug)]
struct Bucket {
    values: Arc<Vec<Value>>,
}

/// The values of the buckets `bs`, in order, one bucket after the other.
spec fn flatten(bs: Seq<Bucket>) -> Seq<Value>
    decreases bs.len(),
{
    if bs.len() == 0 {
        Seq::empty()
    } else {
        flatten(bs.drop_last()) + bs.last().values@
    }
}

/// Every bucket holds at least one value.
spec fn buckets_nonempty(bs: Seq<Bucket>) -> bool {
    forall|i: int| 0 <= i < bs.len() ==> (#[trigger] bs[i]).values@.len() > 0
}

/// The lengths of the buckets `bs`, in order.
spec fn bucket_lengths(bs: Seq<Bucket>) -> Seq<int> {
    Seq::new(bs.len(), |i: int| bs[i].values@.len() as int)
}

impl FlList {
    /// Every bucket is non-empty and the list's length fits a `usize`.
    #[verifier::type_invariant]
    closed spec fn well_formed(self) -> bool {
        &&& buckets_nonempty(self.buckets@)
        &&& flatten(self.buckets@).len() <= usize::MAX
    }

    /// The lengths of the list's buckets, in order: how its values are laid out.
    pub closed spec fn layout(self) -> Seq<int> {
        bucket_lengths(self.buckets@)
    }
}

impl View for FlList {
    type V = Seq<Value>;

    /// The values of the list, in order.
    closed spec fn view(&self) -> Seq<Value> {
        flatten(self.buckets@)
    }
}

impl Clone for FlList {
    /// Another handle on the same list; the buckets are shared, not copied.
    fn clone(&self) -> (res: Self)
        ensures
            res == *self,
            res@ == self@,
    {
        proof {
            use_type_invariant(self);
        }
        FlList { buckets: share(&self.buckets) }
    }
}

/// How many handles on the allocation behind `a` are alive
/// (`Arc::strong_count`). Trusted: the count depends on the whole program,
/// so nothing is said of it but that `a` itself is one.
#[verifier::external_body]
fn handle_count<T>(a: &Arc<T>) -> (res: usize)
    ensures
        res >= 1,
{
    Arc::strong_count(a)
}

/// Whether `a` and `b` point to the same allocation (`Arc::ptr_eq`).
/// Trusted: one allocation holds one value, so handles on it are equal.
#[verifier::external_body]
fn same_allocation<T>(a: &Arc<T>, b: &Arc<T>) -> (res: bool)
    ensures
        res ==> *a == *b,
{
    Arc::ptr_eq(a, b)
}

impl FlList {
    /// How many lists share this list's buckets, this one included.
    pub fn bucket_handles(&self) -> (res: usize)
        ensures
            res >= 1,
    {
        handle_count(&self.buckets)
    }

    /// Whether this list and `other` share their buckets; lists that share
    /// their buckets hold the same values.
    pub fn shares_buckets(&self, other: &FlList) -> (res: bool)
        ensures
            res ==> self@ == other@,
    {
        same_allocation(&self.buckets, &other.buckets)
    }
}

/// Flattening distributes over concatenation.
proof fn lemma_flatten_append(a: Seq<Bucket>, b: Seq<Bucket>)
    ensures
        flatten(a + b) == flatten(a) + flatten(b),
    decreases b.len(),
{
    if b.len() == 0 {
        assert(a + b =~= a);
        assert(flatten(a) + flatten(b) =~= flatten(a));
    } else {
        lemma_flatten_append(a, b.drop_last());
        assert((a + b).drop_last() =~= a + b.drop_last());
        assert((a + b).last() == b.last());
        assert(flatten(a) + flatten(b) =~= flatten(a) + flatten(b.drop_last()) + b.last().values@);
    }
}

/// The prefix of the first `i + 1` buckets flattens to the prefix of the
/// first `i` buckets followed by bucket `i`.
proof fn lemma_flatten_take_step(bs: Seq<Bucket>, i: int)
    requires
        0 <= i < bs.len(),
    ensures
        flatten(bs.take(i + 1)) == flatten(bs.take(i)) + bs[i].values@,
{
    assert(bs.take(i + 1).drop_last() =~= bs.take(i));
}

/// The values of bucket `i` stand in the flattened list right after the
/// values of the buckets before it.
proof fn lemma_flatten_index(bs: Seq<Bucket>, i: int, j: int)
    requires
        0 <= i < bs.len(),
        0 <= j < bs[i].values@.len(),
    ensures
        flatten(bs.take(i)).len() + j < flatten(bs).len(),
        flatten(bs)[flatten(bs.take(i)).len() + j] == bs[i].values@[j],
{
    lemma_flatten_take_step(bs, i);
    assert(bs =~= bs.take(i + 1) + bs.skip(i + 1));
    lemma_flatten_append(bs.take(i + 1), bs.skip(i + 1));
}

/// The values of a prefix of the buckets are a prefix of the list.
proof fn lemma_flatten_prefix(bs: Seq<Bucket>, i: int)
    requires
        0 <= i <= bs.len(),
    ensures
        flatten(bs.take(i)).len() <= flatten(bs).len(),
        flatten(bs) == flatten(bs.take(i)) + flatten(bs.skip(i)),
{
    assert(bs =~= bs.take(i) + bs.skip(i));
    lemma_flatten_append(bs.take(i), bs.skip(i));
}

} // verus!
