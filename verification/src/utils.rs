use vstd::prelude::*;
use vstd::multiset::Multiset;

verus! {

broadcast use {
    vstd::seq_lib::group_to_multiset_ensures,
    vstd::seq_lib::lemma_multiset_commutative,
    vstd::multiset::group_multiset_axioms,
};

/// `after` agrees with `before` outside the index range `[lo, hi)` and holds, inside it, the same
/// items with the same multiplicities.
pub open spec fn permutes_within<T>(before: Seq<T>, after: Seq<T>, lo: int, hi: int) -> bool {
    &&& 0 <= lo <= hi <= before.len()
    &&& after.len() == before.len()
    &&& forall|i: int| 0 <= i < before.len() && !(lo <= i < hi) ==> #[trigger] after[i] == before[i]
    &&& after.subrange(lo, hi).to_multiset() == before.subrange(lo, hi).to_multiset()
}

/// No call of `predicate` on an item of `s` at an index in `[lo, hi)` returns `answer`.
pub open spec fn never_answers<T, F: Fn(&T) -> bool>(
    predicate: F,
    s: Seq<T>,
    lo: int,
    hi: int,
    answer: bool,
) -> bool {
    forall|i: int| #![trigger s[i]] lo <= i < hi ==> !call_ensures(predicate, (&s[i],), answer)
}

/// `s[lo..hi]` is already partitioned by `predicate`: up to some index no call on its items
/// returns false, and from there on none returns true.
pub open spec fn is_partitioned<T, F: Fn(&T) -> bool>(predicate: F, s: Seq<T>, lo: int, hi: int) -> bool {
    exists|k: int|
        lo <= k <= hi && #[trigger] never_answers(predicate, s, lo, k, false) && never_answers(
            predicate,
            s,
            k,
            hi,
            true,
        )
}

/// Each item of `s` at an index in `[lo, hi)` is one on which some call of `predicate` returned
/// `answer`.
pub open spec fn answered<T, F: Fn(&T) -> bool>(
    predicate: F,
    s: Seq<T>,
    lo: int,
    hi: int,
    answer: bool,
) -> bool {
    forall|i: int| #![trigger s[i]] lo <= i < hi ==> call_ensures(predicate, (&s[i],), answer)
}

/// Swapping two positions inside `[lo, hi)` permutes within `[lo, hi)`.
pub proof fn lemma_swap_permutes<T>(s: Seq<T>, lo: int, hi: int, a: int, b: int)
    requires
        0 <= lo <= a < hi <= s.len(),
        lo <= b < hi,
    ensures
        permutes_within(s, s.update(a, s[b]).update(b, s[a]), lo, hi),
{
    let t = s.update(a, s[b]).update(b, s[a]);
    let sub = s.subrange(lo, hi);
    let mid = sub.update(a - lo, s[b]);
    assert(t.subrange(lo, hi) =~= mid.update(b - lo, s[a]));
    assert(mid.to_multiset() == sub.to_multiset().insert(s[b]).remove(s[a]));
    assert(t.subrange(lo, hi).to_multiset() == mid.to_multiset().insert(s[a]).remove(mid[b - lo]));
    assert(sub.to_multiset().insert(s[b]).remove(s[a]).insert(s[a]).remove(s[b])
        =~= sub.to_multiset()) by {
        assert(sub.to_multiset().count(s[a]) > 0) by {
            assert(sub[a - lo] == s[a]);
            assert(sub.contains(s[a]));
        }
    }
}

/// A permutation of a sub-range `[lo2, hi2)` of `[lo, hi)` also permutes within `[lo, hi)`.
pub proof fn lemma_permutes_widen<T>(s1: Seq<T>, s2: Seq<T>, lo2: int, hi2: int, lo: int, hi: int)
    requires
        permutes_within(s1, s2, lo2, hi2),
        0 <= lo <= lo2,
        hi2 <= hi <= s1.len(),
    ensures
        permutes_within(s1, s2, lo, hi),
{
    assert(s1.subrange(lo, hi) =~= s1.subrange(lo, lo2) + s1.subrange(lo2, hi2) + s1.subrange(hi2, hi));
    assert(s2.subrange(lo, hi) =~= s2.subrange(lo, lo2) + s2.subrange(lo2, hi2) + s2.subrange(hi2, hi));
    assert(s1.subrange(lo, lo2) =~= s2.subrange(lo, lo2));
    assert(s1.subrange(hi2, hi) =~= s2.subrange(hi2, hi));
}

/// Permuting within a range, twice, permutes within it.
pub proof fn lemma_permutes_trans<T>(s1: Seq<T>, s2: Seq<T>, s3: Seq<T>, lo: int, hi: int)
    requires
        permutes_within(s1, s2, lo, hi),
        permutes_within(s2, s3, lo, hi),
    ensures
        permutes_within(s1, s3, lo, hi),
{
}

/// A property of every item in `[plo, phi)` survives a permutation within a range that lies
/// inside `[plo, phi)` or outside it.
pub proof fn lemma_permutes_keeps<T>(
    s1: Seq<T>,
    s2: Seq<T>,
    lo: int,
    hi: int,
    plo: int,
    phi: int,
    p: spec_fn(T) -> bool,
)
    requires
        permutes_within(s1, s2, lo, hi),
        (plo <= lo && hi <= phi) || hi <= plo || phi <= lo || lo == hi,
        forall|i: int| plo <= i < phi ==> #[trigger] p(s1[i]),
        0 <= plo,
        phi <= s1.len(),
    ensures
        forall|i: int| plo <= i < phi ==> #[trigger] p(s2[i]),
{
    assert forall|i: int| plo <= i < phi implies #[trigger] p(s2[i]) by {
        if lo <= i < hi {
            let x = s2[i];
            assert(s2.subrange(lo, hi)[i - lo] == x);
            assert(s2.subrange(lo, hi).contains(x));
            assert(s2.subrange(lo, hi).to_multiset().count(x) > 0);
            assert(s1.subrange(lo, hi).contains(x));
            let j = choose|j: int| 0 <= j < hi - lo && s1.subrange(lo, hi)[j] == x;
            assert(s1[lo + j] == x);
            assert(p(s1[lo + j]));
        }
    }
}

/// Exchanges the items at `a` and `b`, through `<[T]>::swap`, which swaps two elements of a
/// slice and leaves it unchanged when `a == b`.
#[verifier::external_body]
fn swap_items<T>(data: &mut [T], a: usize, b: usize)
    requires
        a < old(data)@.len(),
        b < old(data)@.len(),
    ensures
        final(data)@ == old(data)@.update(a as int, old(data)@[b as int]).update(
            b as int,
            old(data)@[a as int],
        ),
{
    data.swap(a, b);
}

/// Partitions `data[start..end]` so that the items on which `predicate` holds come first, and
/// returns the index of the first item on which it does not.
pub(crate) fn partition_range<T, F: Fn(&T) -> bool>(
    data: &mut [T],
    start: usize,
    end: usize,
    predicate: F,
) -> (split: usize)
    requires
        start <= end <= old(data)@.len(),
        forall|x: &T| #[trigger] predicate.requires((x,)),
    ensures
        start <= split <= end,
        permutes_within(old(data)@, final(data)@, start as int, end as int),
        answered(predicate, final(data)@, start as int, split as int, true),
        answered(predicate, final(data)@, split as int, end as int, false),
        is_partitioned(predicate, old(data)@, start as int, end as int) ==> final(data)@ == old(
            data,
        )@,
{
    let ghost initial = data@;
    assert(initial == old(data)@);
    let ghost sorted = is_partitioned(predicate, initial, start as int, end as int);
    let ghost k: int = choose|k: int|
        start <= k <= end && #[trigger] never_answers(predicate, initial, start as int, k, false)
            && never_answers(predicate, initial, k, end as int, true);
    if start == end {
        assert(data@.subrange(start as int, end as int) =~= initial.subrange(start as int, end as int));
        return start;
    }
    let mut left = start;
    let mut right = end - 1;
    assert(data@.subrange(start as int, end as int) =~= initial.subrange(start as int, end as int));
    loop
        invariant
            start <= left <= right + 1,
            start <= right < end,
            end <= data@.len(),
            initial == old(data)@,
            forall|x: &T| #[trigger] predicate.requires((x,)),
            permutes_within(initial, data@, start as int, end as int),
            answered(predicate, data@, start as int, left as int, true),
            answered(predicate, data@, right + 1, end as int, false),
            sorted ==> data@ == initial && left == start && right + 1 == end,
            sorted == is_partitioned(predicate, initial, start as int, end as int),
            sorted ==> start <= k <= end && never_answers(predicate, initial, start as int, k, false)
                && never_answers(predicate, initial, k, end as int, true),
        decreases right + 1 - left,
    {
        let ghost left_entry = left;
        let ghost right_entry = right;
        while left < end && predicate(&data[left])
            invariant
                left_entry <= left <= end,
                start <= left_entry,
                permutes_within(initial, data@, start as int, end as int),
                end <= data@.len(),
                forall|x: &T| #[trigger] predicate.requires((x,)),
                answered(predicate, data@, start as int, left as int, true),
                sorted ==> data@ == initial && left <= k,
                    sorted ==> start <= k <= end && never_answers(predicate, initial, start as int, k, false)
                    && never_answers(predicate, initial, k, end as int, true),
            decreases end - left,
        {
            proof {
                if sorted && left >= k {
                    assert(!call_ensures(predicate, (&initial[left as int],), true));
                }
            }
            left = left + 1;
        }
        while !predicate(&data[right]) && right > start
            invariant
                start <= right <= right_entry < end,
                permutes_within(initial, data@, start as int, end as int),
                end <= data@.len(),
                forall|x: &T| #[trigger] predicate.requires((x,)),
                answered(predicate, data@, right + 1, end as int, false),
                sorted ==> data@ == initial && right + 1 >= k,
                    sorted ==> start <= k <= end && never_answers(predicate, initial, start as int, k, false)
                    && never_answers(predicate, initial, k, end as int, true),
            decreases right,
        {
            proof {
                if sorted && right < k {
                    assert(!call_ensures(predicate, (&initial[right as int],), false));
                }
            }
            right = right - 1;
        }
        proof {
            if sorted {
                if left < end && left < k {
                    assert(!call_ensures(predicate, (&initial[left as int],), false));
                }
                if right >= k {
                    assert(!call_ensures(predicate, (&initial[right as int],), true));
                }
            }
        }
        if left >= right {
            return left;
        }
        let ghost before = data@;
        swap_items(data, left, right);
        proof {
            lemma_swap_permutes(before, start as int, end as int, left as int, right as int);
            lemma_permutes_trans(initial, before, data@, start as int, end as int);
        }
        left = left + 1;
        right = right - 1;
    }
}

/// Partitions a slice based on a predicate.
///
/// Places all elements for which `predicate` is true before all elements for which it is false,
/// then returns the index of the first element for which it is false. A slice that is already
/// partitioned is left as it is.
pub fn partition<T, F: Fn(&T) -> bool>(data: &mut [T], predicate: F) -> (split: usize)
    requires
        forall|x: &T| #[trigger] predicate.requires((x,)),
    ensures
        split <= final(data)@.len(),
        final(data)@.len() == old(data)@.len(),
        final(data)@.to_multiset() == old(data)@.to_multiset(),
        answered(predicate, final(data)@, 0, split as int, true),
        answered(predicate, final(data)@, split as int, final(data)@.len() as int, false),
        is_partitioned(predicate, old(data)@, 0, old(data)@.len() as int) ==> final(data)@ == old(
            data,
        )@,
{
    let len = data.len();
    let split = partition_range(data, 0, len, predicate);
    proof {
        assert(old(data)@.subrange(0, len as int) =~= old(data)@);
        assert(data@.subrange(0, len as int) =~= data@);
    }
    split
}

} // verus!
