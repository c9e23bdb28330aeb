//! Reading lists: length, indexed access and iteration.
use std::sync::Arc;
use vstd::prelude::*;

use super::{
    buckets_nonempty, flatten, lemma_flatten_append, lemma_flatten_index, lemma_flatten_prefix,
    lemma_flatten_take_step, Bucket, FlList,
};
use crate::decimal::{append_decimal, decimal};
use crate::{share, FlError, Value};

verus! {

/// A non-empty run of non-empty buckets holds at least one value.
proof fn lemma_flatten_nonempty(bs: Seq<Bucket>)
    requires
        buckets_nonempty(bs),
    ensures
        flatten(bs).len() == 0 <==> bs.len() == 0,
{
    if bs.len() > 0 {
        assert(bs[bs.len() - 1].values@.len() > 0);
    }
}

/// The buckets from `b` on hold bucket `b`'s values, then those of the rest.
proof fn lemma_flatten_skip(bs: Seq<Bucket>, b: int)
    requires
        0 <= b < bs.len(),
    ensures
        flatten(bs.skip(b)) == bs[b].values@ + flatten(bs.skip(b + 1)),
{
    assert(bs.skip(b) =~= seq![bs[b]] + bs.skip(b + 1));
    lemma_flatten_append(seq![bs[b]], bs.skip(b + 1));
    assert(seq![bs[b]].drop_last() =~= Seq::<Bucket>::empty());
    reveal_with_fuel(flatten, 2);
    assert(flatten(seq![bs[b]]) =~= bs[b].values@);
}

impl FlList {
    /// The number of values in the list.
    pub fn len(&self) -> (res: usize)
        ensures
            res == self@.len(),
    {
        proof {
            use_type_invariant(self);
        }
        let ghost bs = self.buckets@;
        let mut total: usize = 0;
        let mut i: usize = 0;
        while i < self.buckets.len()
            invariant
                bs == self.buckets@,
                flatten(bs).len() <= usize::MAX,
                i <= bs.len(),
                total == flatten(bs.take(i as int)).len(),
            decreases bs.len() - i,
        {
            proof {
                lemma_flatten_take_step(bs, i as int);
                lemma_flatten_prefix(bs, i + 1);
            }
            total = total + self.buckets[i].values.len();
            i = i + 1;
        }
        assert(bs.take(i as int) =~= bs);
        total
    }

    /// The value at `index`.
    ///
    /// Fails on an empty list ("get on empty list"), on a negative index
    /// ("negative index: " and the index) and on an index at or past the end
    /// ("index >= size").
    pub fn get(&self, index: isize) -> (res: Result<Value, FlError>)
        ensures
            self@.len() == 0 ==> (res matches Err(e) && e@ == "get on empty list"@),
            self@.len() > 0 && index < 0 ==> (res matches Err(e) && e@ == "negative index: "@
                + decimal(index as int)),
            self@.len() > 0 && index >= self@.len() ==> (res matches Err(e) && e@
                == "index >= size"@),
            0 <= index < self@.len() ==> res == Ok::<Value, FlError>(self@[index as int]),
    {
        proof {
            use_type_invariant(self);
        }
        let ghost bs = self.buckets@;
        self.check_not_empty("get on empty list")?;
        if index < 0 {
            let mut message = String::from_str("negative index: ");
            append_decimal(&mut message, index as i64);
            return Err(FlError::new_arc(Arc::new(message)));
        }
        let u_index = index as usize;
        let num_buckets = self.buckets.len();
        let mut bucket_idx: usize = 0;
        let mut count: usize = 0;
        proof {
            lemma_flatten_nonempty(bs);
            assert(bs.take(0) =~= Seq::<Bucket>::empty());
            lemma_flatten_take_step(bs, 0);
            lemma_flatten_prefix(bs, 1);
        }
        while count + self.buckets[bucket_idx].values.len() <= u_index
            invariant
                bs == self.buckets@,
                buckets_nonempty(bs),
                flatten(bs).len() <= usize::MAX,
                bucket_idx < bs.len(),
                num_buckets == bs.len(),
                count == flatten(bs.take(bucket_idx as int)).len(),
                count + bs[bucket_idx as int].values@.len() <= flatten(bs).len(),
                count <= u_index,
                u_index == index,
            decreases bs.len() - bucket_idx,
        {
            proof {
                lemma_flatten_take_step(bs, bucket_idx as int);
            }
            count = count + self.buckets[bucket_idx].values.len();
            bucket_idx = bucket_idx + 1;
            if bucket_idx >= self.buckets.len() {
                assert(bs.take(bucket_idx as int) =~= bs);
                return Err(FlError::new("index >= size"));
            }
            proof {
                lemma_flatten_take_step(bs, bucket_idx as int);
                lemma_flatten_prefix(bs, bucket_idx + 1);
            }
        }
        proof {
            lemma_flatten_index(bs, bucket_idx as int, u_index - count);
        }
        Ok(self.buckets[bucket_idx].values[u_index - count].clone())
    }

    /// An iterator over the values of the list, from the first to the last.
    pub fn iter(&self) -> (res: FlListIter)
        ensures
            res@ == self@,
    {
        let res = FlListIter { buckets: share(&self.buckets), bucket_idx: 0, in_bucket_idx: 0 };
        assert(self.buckets@.skip(0) =~= self.buckets@);
        assert(flatten(self.buckets@).skip(0) =~= flatten(self.buckets@));
        res
    }

    /// Fails with `message` when the list has no buckets, that is, no values.
    fn check_not_empty(&self, message: &str) -> (res: Result<(), FlError>)
        ensures
            res is Ok <==> self@.len() > 0,
            res matches Err(e) ==> e@ == message@,
    {
        proof {
            use_type_invariant(self);
            lemma_flatten_nonempty(self.buckets@);
        }
        if self.buckets.len() > 0 {
            Ok(())
        } else {
            Err(FlError::new(message))
        }
    }
}

/// An iterator over the values of a list; it shares the list's buckets.
pub struct FlListIter {
    buckets: Arc<Vec<Bucket>>,
    bucket_idx: usize,
    in_bucket_idx: usize,
}

impl FlListIter {
    /// The position stays within the buckets.
    #[verifier::type_invariant]
    closed spec fn in_bounds(self) -> bool {
        &&& self.bucket_idx <= self.buckets@.len()
        &&& self.bucket_idx < self.buckets@.len() ==> self.in_bucket_idx
            <= self.buckets@[self.bucket_idx as int].values@.len()
        &&& self.bucket_idx == self.buckets@.len() ==> self.in_bucket_idx == 0
    }

    /// The next value, if any is left.
    pub fn next(&mut self) -> (res: Option<Value>)
        ensures
            old(self)@.len() == 0 ==> res is None && final(self)@ == old(self)@,
            old(self)@.len() > 0 ==> res == Some(old(self)@[0]) && final(self)@ == old(
                self,
            )@.drop_first(),
    {
        proof {
            use_type_invariant(&*self);
        }
        let ghost bs = self.buckets@;
        while self.bucket_idx < self.buckets.len()
            invariant
                bs == self.buckets@,
                self@ == old(self)@,
                self.bucket_idx <= bs.len(),
                self.bucket_idx < bs.len() ==> self.in_bucket_idx <= bs[self.bucket_idx as int].values@.len(),
                self.bucket_idx == bs.len() ==> self.in_bucket_idx == 0,
            decreases bs.len() - self.bucket_idx,
        {
            let bucket = &self.buckets[self.bucket_idx];
            proof {
                lemma_flatten_skip(bs, self.bucket_idx as int);
            }
            if self.in_bucket_idx < bucket.values.len() {
                let v = bucket.values[self.in_bucket_idx].clone();
                let ghost before = self@;
                self.in_bucket_idx = self.in_bucket_idx + 1;
                assert(self@ =~= before.drop_first());
                return Some(v);
            }
            let ghost before = self@;
            self.in_bucket_idx = 0;
            self.bucket_idx = self.bucket_idx + 1;
            assert(self@ =~= before);
        }
        assert(bs.skip(bs.len() as int) =~= Seq::<Bucket>::empty());
        None
    }
}

impl View for FlListIter {
    type V = Seq<Value>;

    /// The values not yet handed out, in order.
    closed spec fn view(&self) -> Seq<Value> {
        flatten(self.buckets@.skip(self.bucket_idx as int)).skip(self.in_bucket_idx as int)
    }
}

} // verus!
