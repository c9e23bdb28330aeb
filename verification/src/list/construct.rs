//! Building lists: the empty list, lists of one or two values, and lists
//! of many values laid out in buckets that grow towards the middle.
use std::sync::Arc;
use vstd::prelude::*;

use super::{buckets_nonempty, flatten, Bucket, FlList};
use crate::Value;

verus! {

/// Size of the smallest pair of buckets, counted twice (`8`).
pub const BASE_SIZE: usize = 8;

/// Growth of the bucket size from one pair of buckets to the next (`4`).
pub const FACTOR: usize = 4;

/// `4` to the power `k`.
pub open spec fn pow4(k: nat) -> nat
    decreases k,
{
    if k == 0 {
        1
    } else {
        4 * pow4((k - 1) as nat)
    }
}

/// How many values `2 * k` buckets can hold when the buckets of the `j`-th
/// pair hold `6 * 4^j` values each: `4 * (4^k - 1)`.
pub open spec fn capacity(k: nat) -> nat
    decreases k,
{
    if k == 0 {
        0
    } else {
        capacity((k - 1) as nat) + 12 * pow4((k - 1) as nat)
    }
}

/// The number of values in the outer `k` buckets on one side of a list,
/// whose `j`-th bucket (from the outside in) holds `4^(j + 1)` values:
/// `4 + 16 + ... + 4^k`.
pub open spec fn side_sum(k: nat) -> nat
    decreases k,
{
    if k == 0 {
        0
    } else {
        side_sum((k - 1) as nat) + pow4(k)
    }
}

/// The number of bucket pairs to plan for `size` values: the smallest `m`
/// with `capacity(m) >= size` (at least one).
pub open spec fn levels(size: nat) -> nat {
    choose|m: nat| m >= 1 && capacity((m - 1) as nat) < size <= #[trigger] capacity(m)
}

/// The bucket sizes of a list of `size > 0` values: `2 * m - 1` buckets for
/// `m = levels(size)`; the `j`-th bucket from either end holds `4^(j + 1)`
/// values and the middle bucket holds the rest.
pub open spec fn bucket_plan(size: nat) -> Seq<int> {
    let m = levels(size);
    Seq::new(
        (2 * m - 1) as nat,
        |i: int|
            if i < m - 1 {
                pow4((i + 1) as nat) as int
            } else if i > m - 1 {
                pow4((2 * m - 1 - i) as nat) as int
            } else {
                size - 2 * side_sum((m - 1) as nat)
            },
    )
}

proof fn lemma_pow4_positive(k: nat)
    ensures
        pow4(k) >= 1,
        pow4(k) >= k + 1,
    decreases k,
{
    if k > 0 {
        lemma_pow4_positive((k - 1) as nat);
    }
}

proof fn lemma_capacity_at_least(k: nat)
    ensures
        capacity(k) >= k,
    decreases k,
{
    if k > 0 {
        lemma_capacity_at_least((k - 1) as nat);
        lemma_pow4_positive((k - 1) as nat);
    }
}

proof fn lemma_capacity_monotone(a: nat, b: nat)
    requires
        a <= b,
    ensures
        capacity(a) <= capacity(b),
        a < b ==> capacity(a) < capacity(b),
    decreases b,
{
    if a < b {
        lemma_capacity_monotone(a, (b - 1) as nat);
        lemma_pow4_positive((b - 1) as nat);
    }
}

proof fn lemma_side_sum_monotone(a: nat, b: nat)
    requires
        a <= b,
    ensures
        side_sum(a) <= side_sum(b),
    decreases b,
{
    if a < b {
        lemma_side_sum_monotone(a, (b - 1) as nat);
    }
}

/// The outer pairs never hold more than the capacity of as many pairs.
proof fn lemma_sides_below_capacity(k: nat)
    ensures
        2 * side_sum(k) <= capacity(k),
    decreases k,
{
    if k > 0 {
        lemma_sides_below_capacity((k - 1) as nat);
        assert(pow4(k) == 4 * pow4((k - 1) as nat));
    }
}

/// `levels(size)` is the one `m` with `capacity(m - 1) < size <= capacity(m)`.
proof fn lemma_levels(size: nat, m: nat)
    requires
        m >= 1,
        capacity((m - 1) as nat) < size <= capacity(m),
    ensures
        levels(size) == m,
{
    let l = levels(size);
    assert(l >= 1 && capacity((l - 1) as nat) < size <= capacity(l));
    if l < m {
        lemma_capacity_monotone(l, (m - 1) as nat);
    } else if l > m {
        lemma_capacity_monotone(m, (l - 1) as nat);
    }
}

/// The number of values in the first `b` buckets of `bucket_plan(size)`.
spec fn plan_prefix(size: nat, b: int) -> int {
    let m = levels(size);
    if b <= m - 1 {
        side_sum(b as nat) as int
    } else {
        size - side_sum((2 * m - 1 - b) as nat)
    }
}

/// Walking up from `k`, some number of pairs holds `size` values.
proof fn lemma_levels_exist(size: nat, k: nat) -> (m: nat)
    requires
        k >= 1,
        capacity((k - 1) as nat) < size,
    ensures
        m >= 1,
        capacity((m - 1) as nat) < size <= capacity(m),
        levels(size) == m,
    decreases size - k,
{
    if capacity(k) >= size {
        lemma_levels(size, k);
        k
    } else {
        lemma_capacity_at_least(k);
        lemma_levels_exist(size, k + 1)
    }
}

/// Facts on `bucket_plan(size)` for `size > 0`: it has `2 * levels(size) - 1`
/// positive entries.
proof fn lemma_plan_shape(size: nat)
    requires
        size > 0,
    ensures
        levels(size) >= 1,
        capacity((levels(size) - 1) as nat) < size <= capacity(levels(size)),
        2 * side_sum((levels(size) - 1) as nat) < size,
        bucket_plan(size).len() == 2 * levels(size) - 1,
        forall|i: int| 0 <= i < bucket_plan(size).len() ==> #[trigger] bucket_plan(size)[i] > 0,
{
    let k = lemma_levels_exist(size, 1);
    lemma_sides_below_capacity((k - 1) as nat);
    assert forall|i: int| 0 <= i < bucket_plan(size).len() implies #[trigger] bucket_plan(size)[i] > 0 by {
        if i < k - 1 {
            lemma_pow4_positive((i + 1) as nat);
        } else if i > k - 1 {
            lemma_pow4_positive((2 * k - 1 - i) as nat);
        }
    }
}

/// The first `b + 1` buckets hold the values of the first `b` and bucket `b`;
/// all buckets together hold `size` values.
proof fn lemma_plan_prefix(size: nat, b: int)
    requires
        size > 0,
        0 <= b < bucket_plan(size).len(),
    ensures
        plan_prefix(size, 0) == 0,
        plan_prefix(size, b + 1) == plan_prefix(size, b) + bucket_plan(size)[b],
        plan_prefix(size, bucket_plan(size).len() as int) == size,
        0 <= plan_prefix(size, b),
        plan_prefix(size, b + 1) <= size,
{
    lemma_plan_shape(size);
    let m = levels(size);
    if b < m - 1 {
        assert(side_sum((b + 1) as nat) == side_sum(b as nat) + pow4((b + 1) as nat));
        lemma_side_sum_monotone((b + 1) as nat, (m - 1) as nat);
    } else if b > m - 1 {
        let k = (2 * m - 1 - b) as nat;
        assert(side_sum(k) == side_sum((k - 1) as nat) + pow4(k));
        lemma_side_sum_monotone(k, (m - 1) as nat);
    }
}

/// The sum of the integers `s`.
pub open spec fn seq_sum(s: Seq<int>) -> int
    decreases s.len(),
{
    if s.len() == 0 {
        0
    } else {
        seq_sum(s.drop_last()) + s.last()
    }
}

/// The plan's first `b` buckets hold `plan_prefix(size, b)` values.
proof fn lemma_plan_prefix_sum(size: nat, b: int)
    requires
        size > 0,
        0 <= b <= bucket_plan(size).len(),
    ensures
        seq_sum(bucket_plan(size).take(b)) == plan_prefix(size, b),
    decreases b,
{
    lemma_plan_shape(size);
    lemma_plan_prefix(size, 0);
    if b == 0 {
        assert(bucket_plan(size).take(0) =~= Seq::<int>::empty());
    } else {
        lemma_plan_prefix_sum(size, b - 1);
        lemma_plan_prefix(size, b - 1);
        assert(bucket_plan(size).take(b).drop_last() =~= bucket_plan(size).take(b - 1));
    }
}

/// The bucket plan of `size > 0` values: an odd number of buckets, each
/// holding at least one value, all of them together exactly `size`; the
/// sizes mirror around the middle bucket, and from either end they are
/// `4, 16, 64, ...`.
pub proof fn lemma_bucket_plan(size: nat)
    requires
        size > 0,
    ensures
        bucket_plan(size).len() % 2 == 1,
        forall|i: int| 0 <= i < bucket_plan(size).len() ==> #[trigger] bucket_plan(size)[i] > 0,
        seq_sum(bucket_plan(size)) == size,
        forall|i: int|
            0 <= i < bucket_plan(size).len() ==> #[trigger] bucket_plan(size)[i]
                == bucket_plan(size)[bucket_plan(size).len() - 1 - i],
        forall|i: int|
            0 <= i < bucket_plan(size).len() / 2 ==> #[trigger] bucket_plan(size)[i] == pow4(
                (i + 1) as nat,
            ),
{
    lemma_plan_shape(size);
    let plan = bucket_plan(size);
    lemma_plan_prefix(size, 0);
    lemma_plan_prefix_sum(size, plan.len() as int);
    assert(plan.take(plan.len() as int) =~= plan);
}

/// One more pair of buckets, `4^(i + 1)` values each, still fits.
proof fn lemma_pair_step(i: nat, m: nat, size: nat)
    requires
        i < m - 1,
        2 * side_sum((m - 1) as nat) < size,
    ensures
        pow4(i + 1) == 4 * pow4(i),
        side_sum(i + 1) == side_sum(i) + pow4(i + 1),
        2 * side_sum(i + 1) < size,
        8 * pow4(i) <= 2 * size,
{
    lemma_side_sum_monotone(i + 1, (m - 1) as nat);
    assert(pow4(i + 1) == 4 * pow4(i));
    assert(side_sum(i + 1) == side_sum(i) + pow4(i + 1));
}

impl FlList {
    /// The list without values: it has no buckets.
    pub fn empty() -> (res: FlList)
        ensures
            res@ == Seq::<Value>::empty(),
            res.layout() == Seq::<int>::empty(),
    {
        let res = FlList { buckets: Arc::new(Vec::new()) };
        assert(res.layout() =~= Seq::<int>::empty());
        res
    }

    /// The list holding just `value`, in one bucket.
    pub fn from_value(value: Value) -> (res: FlList)
        ensures
            res@ == seq![value],
            res.layout() == seq![1int],
    {
        let mut values: Vec<Value> = Vec::with_capacity(1);
        values.push(value);
        let bucket = Bucket { values: Arc::new(values) };
        let mut buckets: Vec<Bucket> = Vec::with_capacity(1);
        buckets.push(bucket);
        proof {
            reveal_with_fuel(flatten, 2);
            assert(buckets@.drop_last() =~= Seq::<Bucket>::empty());
            assert(flatten(buckets@) =~= seq![value]);
        }
        let res = FlList { buckets: Arc::new(buckets) };
        assert(res.layout() =~= seq![1int]);
        res
    }

    /// The list holding `left` then `right`, in one bucket.
    pub fn from_pair(left: Value, right: Value) -> (res: FlList)
        ensures
            res@ == seq![left, right],
            res.layout() == seq![2int],
    {
        let mut values: Vec<Value> = Vec::with_capacity(2);
        values.push(left);
        values.push(right);
        let bucket = Bucket { values: Arc::new(values) };
        let mut buckets: Vec<Bucket> = Vec::with_capacity(1);
        buckets.push(bucket);
        proof {
            reveal_with_fuel(flatten, 2);
            assert(buckets@.drop_last() =~= Seq::<Bucket>::empty());
            assert(flatten(buckets@) =~= seq![left, right]);
        }
        let res = FlList { buckets: Arc::new(buckets) };
        assert(res.layout() =~= seq![2int]);
        res
    }

    /// The list of the given values, in order. A non-empty list is laid out
    /// as `bucket_plan` says.
    pub fn from_values(elements: Vec<Value>) -> (res: FlList)
        ensures
            res@ == elements@,
            elements@.len() > 0 ==> res.layout() == bucket_plan(elements@.len()),
            elements@.len() == 0 ==> res.layout() == Seq::<int>::empty(),
    {
        if elements.len() == 0 {
            Self::empty()
        } else {
            let n = elements.len();
            let bucket_sizes = Self::compute_bucket_sizes(n);
            proof {
                lemma_plan_shape(n as nat);
                lemma_plan_prefix(n as nat, 0);
            }
            let ghost plan = bucket_plan(n as nat);
            let mut buckets: Vec<Bucket> = Vec::with_capacity(bucket_sizes.len());
            let mut src_idx: usize = 0;
            let mut bucket_idx: usize = 0;
            while bucket_idx < bucket_sizes.len()
                invariant
                    n == elements@.len(),
                    n > 0,
                    plan == bucket_plan(n as nat),
                    bucket_sizes@.len() == plan.len(),
                    forall|i: int|
                        0 <= i < bucket_sizes@.len() ==> bucket_sizes@[i] as int == #[trigger] plan[i],
                    forall|i: int| 0 <= i < plan.len() ==> #[trigger] plan[i] > 0,
                    0 <= bucket_idx <= bucket_sizes@.len(),
                    buckets@.len() == bucket_idx,
                    src_idx == plan_prefix(n as nat, bucket_idx as int),
                    flatten(buckets@) == elements@.take(src_idx as int),
                    forall|i: int|
                        0 <= i < bucket_idx ==> (#[trigger] buckets@[i]).values@.len() == plan[i],
                decreases bucket_sizes@.len() - bucket_idx,
            {
                proof {
                    lemma_plan_prefix(n as nat, bucket_idx as int);
                }
                let size = bucket_sizes[bucket_idx];
                let mut values: Vec<Value> = Vec::with_capacity(size);
                let ghost start = src_idx;
                let mut filled: usize = 0;
                while filled < size
                    invariant
                        n == elements@.len(),
                        start + size <= n,
                        src_idx == start + filled,
                        filled <= size,
                        values@ == elements@.subrange(start as int, src_idx as int),
                    decreases size - filled,
                {
                    values.push(elements[src_idx].clone());
                    src_idx = src_idx + 1;
                    filled = filled + 1;
                    assert(values@ =~= elements@.subrange(start as int, src_idx as int));
                }
                let ghost old_buckets = buckets@;
                buckets.push(Bucket { values: Arc::new(values) });
                proof {
                    assert(buckets@.drop_last() =~= old_buckets);
                    assert(elements@.take(src_idx as int) =~= elements@.take(start as int)
                        + elements@.subrange(start as int, src_idx as int));
                }
                bucket_idx = bucket_idx + 1;
            }
            proof {
                assert(elements@.take(n as int) =~= elements@);
                assert(buckets_nonempty(buckets@));
            }
            let res = FlList { buckets: Arc::new(buckets) };
            assert(res.layout() =~= plan);
            res
        }
    }

    /// `len` nil values.
    pub fn nil_values(len: usize) -> (res: Arc<Vec<Value>>)
        ensures
            res@ == Seq::new(len as nat, |i: int| Value::Nil),
    {
        let mut values: Vec<Value> = Vec::with_capacity(len);
        let mut i: usize = 0;
        while i < len
            invariant
                i <= len,
                values@ == Seq::new(i as nat, |k: int| Value::Nil),
            decreases len - i,
        {
            values.push(Value::Nil);
            i = i + 1;
            assert(values@ =~= Seq::new(i as nat, |k: int| Value::Nil));
        }
        Arc::new(values)
    }

    /// The sizes of the buckets for a list of `size` values (see
    /// `bucket_plan`): they are positive and add up to `size`.
    pub fn compute_bucket_sizes(size: usize) -> (bucket_sizes: Vec<usize>)
        requires
            size > 0,
        ensures
            bucket_sizes@.len() == bucket_plan(size as nat).len(),
            forall|i: int|
                0 <= i < bucket_sizes@.len() ==> bucket_sizes@[i] as int == #[trigger] bucket_plan(
                    size as nat,
                )[i],
    {
        // Find the number of pairs of buckets that can hold `size` values.
        let mut num_buckets: usize = 2;
        let mut bucket_size: u128 = (3 * BASE_SIZE / 4) as u128;
        let mut size_in_buckets: u128 = 2 * bucket_size;
        let ghost mut k: nat = 1;
        proof {
            reveal_with_fuel(capacity, 2);
            reveal_with_fuel(pow4, 2);
        }
        while size_in_buckets < size as u128
            invariant
                k >= 1,
                num_buckets == 2 * k,
                bucket_size == 6 * pow4((k - 1) as nat),
                size_in_buckets == capacity(k),
                capacity((k - 1) as nat) < size,
                size <= usize::MAX,
            decreases size - k,
        {
            proof {
                lemma_pow4_positive((k - 1) as nat);
                lemma_pow4_positive(k);
                assert(capacity(k + 1) == capacity(k) + 12 * pow4(k));
                assert(pow4(k) == 4 * pow4((k - 1) as nat));
                assert(capacity(k) == capacity((k - 1) as nat) + 12 * pow4((k - 1) as nat));
                assert(bucket_size < size);
                assert(capacity(k + 1) > capacity(k));
                assert(FACTOR as u128 == 4);
                assert(bucket_size * 4 <= u128::MAX);
                lemma_capacity_at_least(k);
            }
            bucket_size = bucket_size * (FACTOR as u128);
            size_in_buckets = size_in_buckets + 2 * bucket_size;
            num_buckets = num_buckets + 2;
            proof {
                k = k + 1;
            }
        }
        let ghost m = k;
        proof {
            lemma_levels(size as nat, m);
        }
        num_buckets = num_buckets - 1;
        let mut bucket_sizes = vec![0usize; num_buckets];
        let mut bucket_size: u128 = BASE_SIZE as u128;
        let mut rest: usize = size;
        let mut i: usize = 0;
        let mut j: usize = num_buckets - 1;
        proof {
            lemma_sides_below_capacity((m - 1) as nat);
        }
        while i < j
            invariant
                num_buckets == 2 * m - 1,
                bucket_sizes@.len() == num_buckets,
                i + j == num_buckets - 1,
                i <= m - 1,
                bucket_size == 8 * pow4(i as nat),
                rest == size - 2 * side_sum(i as nat),
                2 * side_sum((m - 1) as nat) < size,
                forall|t: int| 0 <= t < i ==> #[trigger] bucket_sizes@[t] == pow4((t + 1) as nat),
                forall|t: int|
                    j < t < num_buckets ==> #[trigger] bucket_sizes@[t] == pow4(
                        (2 * m - 1 - t) as nat,
                    ),
            decreases j - i,
        {
            proof {
                lemma_pair_step(i as nat, m, size as nat);
                assert(FACTOR as u128 == 4);
            }
            let half = (bucket_size / 2) as usize;
            bucket_sizes.set(i, half);
            bucket_sizes.set(j, half);
            rest = rest - (bucket_sizes[i] + bucket_sizes[j]);
            bucket_size = bucket_size * (FACTOR as u128);
            i = i + 1;
            j = j - 1;
        }
        bucket_sizes.set(i, rest);
        proof {
            assert(i == m - 1);
            assert forall|t: int| 0 <= t < bucket_sizes@.len() implies bucket_sizes@[t] as int
                == #[trigger] bucket_plan(size as nat)[t] by {
            }
        }
        bucket_sizes
    }
}

} // verus!
