//! The number of shifts an insertion sort makes, which is the number of
//! inversions of its input, counted by a merge sort.

use vstd::multiset::Multiset;
use vstd::prelude::*;
use vstd::seq_lib::{to_multiset_build, to_multiset_contains, to_multiset_len, to_multiset_remove};

verus! {

/// Number of elements of `s` greater than `x`.
pub open spec fn greater_in(s: Seq<i32>, x: i32) -> nat
    decreases s.len(),
{
    if s.len() == 0 {
        0
    } else {
        greater_in(s.drop_last(), x) + if s.last() > x {
            1nat
        } else {
            0nat
        }
    }
}

/// Number of pairs of positions `i < j` with `s[i] > s[j]`.
pub open spec fn inversions(s: Seq<i32>) -> nat
    decreases s.len(),
{
    if s.len() == 0 {
        0
    } else {
        inversions(s.drop_last()) + greater_in(s.drop_last(), s.last())
    }
}

/// Number of pairs of an element of `a` and a smaller element of `b`.
pub open spec fn cross(a: Seq<i32>, b: Seq<i32>) -> nat
    decreases b.len(),
{
    if b.len() == 0 {
        0
    } else {
        cross(a, b.drop_last()) + greater_in(a, b.last())
    }
}

/// In non-decreasing order.
pub open spec fn sorted(s: Seq<i32>) -> bool {
    forall|i: int, j: int| 0 <= i <= j < s.len() ==> s[i] <= s[j]
}

pub proof fn lemma_greater_concat(a: Seq<i32>, b: Seq<i32>, x: i32)
    ensures
        greater_in(a + b, x) == greater_in(a, x) + greater_in(b, x),
    decreases b.len(),
{
    if b.len() == 0 {
        assert(a + b =~= a);
    } else {
        lemma_greater_concat(a, b.drop_last(), x);
        assert((a + b).drop_last() =~= a + b.drop_last());
    }
}

pub proof fn lemma_greater_remove(s: Seq<i32>, j: int, x: i32)
    requires
        0 <= j < s.len(),
    ensures
        greater_in(s, x) == greater_in(s.remove(j), x) + if s[j] > x {
            1nat
        } else {
            0nat
        },
{
    let front = s.take(j);
    let back = s.skip(j + 1);
    assert(s =~= front.push(s[j]) + back);
    assert(s.remove(j) =~= front + back);
    lemma_greater_concat(front.push(s[j]), back, x);
    lemma_greater_concat(front, back, x);
    assert(front.push(s[j]).drop_last() =~= front);
}

/// Rearranging a sequence does not change how many of its elements are
/// greater than `x`.
pub proof fn lemma_greater_rearranged(a: Seq<i32>, b: Seq<i32>, x: i32)
    requires
        a.to_multiset() == b.to_multiset(),
    ensures
        greater_in(a, x) == greater_in(b, x),
    decreases a.len(),
{
    to_multiset_len(a);
    to_multiset_len(b);
    if a.len() > 0 {
        let v = a.last();
        let rest = a.drop_last();
        assert(a =~= rest.push(v));
        to_multiset_build(rest, v);
        to_multiset_contains(b, v);
        assert(b.to_multiset().count(v) > 0);
        let j = choose|j: int| 0 <= j < b.len() && b[j] == v;
        to_multiset_remove(b, j);
        assert(b.remove(j).to_multiset() =~= rest.to_multiset());
        lemma_greater_rearranged(rest, b.remove(j), x);
        lemma_greater_remove(b, j, x);
    }
}

pub proof fn lemma_cross_concat(a: Seq<i32>, b: Seq<i32>, c: Seq<i32>)
    ensures
        cross(a, b + c) == cross(a, b) + cross(a, c),
    decreases c.len(),
{
    if c.len() == 0 {
        assert(b + c =~= b);
    } else {
        lemma_cross_concat(a, b, c.drop_last());
        assert((b + c).drop_last() =~= b + c.drop_last());
    }
}

/// The pairs across to a part of `b` are among those across to all of `b`.
pub proof fn lemma_cross_prefix(a: Seq<i32>, b: Seq<i32>, r: int)
    requires
        0 <= r <= b.len(),
    ensures
        cross(a, b.take(r)) <= cross(a, b),
    decreases b.len() - r,
{
    if r < b.len() {
        lemma_cross_prefix(a, b, r + 1);
        assert(b.take(r + 1).drop_last() =~= b.take(r));
    } else {
        assert(b.take(r) =~= b);
    }
}

pub proof fn lemma_cross_remove(a: Seq<i32>, b: Seq<i32>, j: int)
    requires
        0 <= j < b.len(),
    ensures
        cross(a, b) == cross(a, b.remove(j)) + greater_in(a, b[j]),
{
    let front = b.take(j);
    let back = b.skip(j + 1);
    assert(b =~= front.push(b[j]) + back);
    assert(b.remove(j) =~= front + back);
    lemma_cross_concat(a, front.push(b[j]), back);
    lemma_cross_concat(a, front, back);
    assert(front.push(b[j]).drop_last() =~= front);
}

/// Rearranging either sequence does not change the pairs across them.
pub proof fn lemma_cross_rearranged(a: Seq<i32>, b: Seq<i32>, c: Seq<i32>, d: Seq<i32>)
    requires
        a.to_multiset() == c.to_multiset(),
        b.to_multiset() == d.to_multiset(),
    ensures
        cross(a, b) == cross(c, d),
    decreases b.len(),
{
    to_multiset_len(b);
    to_multiset_len(d);
    if b.len() > 0 {
        let v = b.last();
        let rest = b.drop_last();
        assert(b =~= rest.push(v));
        to_multiset_build(rest, v);
        to_multiset_contains(d, v);
        assert(d.to_multiset().count(v) > 0);
        let j = choose|j: int| 0 <= j < d.len() && d[j] == v;
        to_multiset_remove(d, j);
        assert(d.remove(j).to_multiset() =~= rest.to_multiset());
        lemma_cross_rearranged(a, rest, c, d.remove(j));
        lemma_cross_remove(c, d, j);
        lemma_greater_rearranged(a, c, v);
    }
}

/// The inversions of a sequence in two parts: those within each part, and
/// the pairs across the parts.
pub proof fn lemma_inversions_concat(a: Seq<i32>, b: Seq<i32>)
    ensures
        inversions(a + b) == inversions(a) + inversions(b) + cross(a, b),
    decreases b.len(),
{
    if b.len() == 0 {
        assert(a + b =~= a);
    } else {
        lemma_inversions_concat(a, b.drop_last());
        assert((a + b).drop_last() =~= a + b.drop_last());
        lemma_greater_concat(a, b.drop_last(), b.last());
    }
}

pub proof fn lemma_greater_bounded(s: Seq<i32>, x: i32)
    ensures
        greater_in(s, x) <= s.len(),
    decreases s.len(),
{
    if s.len() > 0 {
        lemma_greater_bounded(s.drop_last(), x);
    }
}

/// A sequence of `n` elements has at most `n * (n - 1) / 2` inversions:
/// the count of any input of up to 2^32 elements fits in 64 bits.
pub proof fn lemma_inversions_bounded(s: Seq<i32>)
    ensures
        2 * inversions(s) <= s.len() * (s.len() - 1),
        s.len() <= 0x1_0000_0000 ==> inversions(s) <= u64::MAX,
    decreases s.len(),
{
    let n = s.len() as int;
    if n > 0 {
        lemma_inversions_bounded(s.drop_last());
        lemma_greater_bounded(s.drop_last(), s.last());
        assert((n - 1) * (n - 2) + 2 * (n - 1) == n * (n - 1)) by (nonlinear_arith);
    }
    if n <= 0x1_0000_0000 {
        assert(n * (n - 1) <= 0x1_0000_0000 * 0x1_0000_0000) by (nonlinear_arith)
            requires
                0 <= n <= 0x1_0000_0000,
        ;
    }
}

pub proof fn lemma_concat_multiset(a: Seq<i32>, b: Seq<i32>)
    ensures
        (a + b).to_multiset() == a.to_multiset().add(b.to_multiset()),
    decreases b.len(),
{
    if b.len() == 0 {
        assert(a + b =~= a);
        to_multiset_len(b);
        assert(b.to_multiset() =~= Multiset::<i32>::empty());
        assert(a.to_multiset().add(b.to_multiset()) =~= a.to_multiset());
    } else {
        let rest = b.drop_last();
        lemma_concat_multiset(a, rest);
        assert(a + b =~= (a + rest).push(b.last()));
        assert(b =~= rest.push(b.last()));
        to_multiset_build(a + rest, b.last());
        to_multiset_build(rest, b.last());
        assert((a + b).to_multiset() =~= a.to_multiset().add(b.to_multiset()));
    }
}

/// When the first `l` elements of a sorted `s` are at most `x` and the
/// others greater, `s.len() - l` elements are greater than `x`.
pub proof fn lemma_greater_split(s: Seq<i32>, l: int, x: i32)
    requires
        0 <= l <= s.len(),
        forall|i: int| 0 <= i < l ==> s[i] <= x,
        forall|i: int| l <= i < s.len() ==> s[i] > x,
    ensures
        greater_in(s, x) == s.len() - l,
    decreases s.len(),
{
    if s.len() > 0 {
        let rest = s.drop_last();
        if l == s.len() {
            lemma_greater_split(rest, l - 1, x);
            assert(s[l - 1] <= x);
            lemma_greater_none(rest, x);
        } else {
            lemma_greater_split(rest, l, x);
        }
    }
}

pub proof fn lemma_greater_none(s: Seq<i32>, x: i32)
    requires
        forall|i: int| 0 <= i < s.len() ==> s[i] <= x,
    ensures
        greater_in(s, x) == 0,
    decreases s.len(),
{
    if s.len() > 0 {
        lemma_greater_none(s.drop_last(), x);
    }
}

/// A copy of `arr[from..to]`.
fn copy_range(arr: &Vec<i32>, from: usize, to: usize) -> (part: Vec<i32>)
    requires
        from <= to <= arr@.len(),
    ensures
        part@ == arr@.subrange(from as int, to as int),
{
    let mut part: Vec<i32> = Vec::new();
    let mut i: usize = from;
    while i < to
        invariant
            from <= i <= to,
            to <= arr@.len(),
            part@ == arr@.subrange(from as int, i as int),
        decreases to - i,
    {
        part.push(arr[i]);
        proof {
            assert(part@ =~= arr@.subrange(from as int, i + 1));
        }
        i = i + 1;
    }
    part
}

/// Merges the sorted runs `arr[start..=mid]` and `arr[mid + 1..=end]` into
/// one sorted run, and counts the pairs of an element of the first run and
/// a smaller element of the second.
pub fn merge_and_count(arr: &mut Vec<i32>, start: usize, mid: usize, end: usize) -> (count: u64)
    requires
        start <= mid <= end < old(arr)@.len(),
        sorted(old(arr)@.subrange(start as int, mid + 1)),
        sorted(old(arr)@.subrange(mid + 1, end + 1)),
        cross(old(arr)@.subrange(start as int, mid + 1), old(arr)@.subrange(mid + 1, end + 1))
            <= u64::MAX,
    ensures
        final(arr)@.len() == old(arr)@.len(),
        forall|i: int|
            0 <= i < old(arr)@.len() && !(start <= i <= end) ==> final(arr)@[i] == old(arr)@[i],
        sorted(final(arr)@.subrange(start as int, end + 1)),
        final(arr)@.subrange(start as int, end + 1).to_multiset() == old(arr)@.subrange(
            start as int,
            end + 1,
        ).to_multiset(),
        count == cross(
            old(arr)@.subrange(start as int, mid + 1),
            old(arr)@.subrange(mid + 1, end + 1),
        ),
{
    let size = arr.len();
    let left = copy_range(arr, start, mid + 1);
    let right = copy_range(arr, mid + 1, end + 1);
    let ghost first = left@;
    let ghost second = right@;
    let mut l: usize = 0;
    let mut r: usize = 0;
    let mut k: usize = start;
    let mut count: u64 = 0;
    proof {
        assert(arr@.subrange(start as int, start as int) =~= Seq::<i32>::empty());
        assert(first.take(0) =~= Seq::<i32>::empty());
        assert(second.take(0) =~= Seq::<i32>::empty());
        assert(Seq::<i32>::empty().to_multiset() =~= Multiset::<i32>::empty()) by {
            to_multiset_len(Seq::<i32>::empty());
        }
        assert(Multiset::<i32>::empty().add(Multiset::<i32>::empty()) =~= Multiset::<i32>::empty());
    }
    while l < left.len() && r < right.len()
        invariant
            l <= first.len(),
            r <= second.len(),
            k == start + l + r,
            first == left@,
            second == right@,
            first.len() == mid + 1 - start,
            second.len() == end - mid,
            end < arr@.len(),
            arr@.len() == old(arr)@.len(),
            arr@.len() <= usize::MAX,
            cross(first, second) <= u64::MAX,
            sorted(first),
            sorted(second),
            forall|i: int|
                0 <= i < arr@.len() && !(start <= i <= end) ==> arr@[i] == old(arr)@[i],
            sorted(arr@.subrange(start as int, k as int)),
            forall|i: int| start <= i < k && l < first.len() ==> arr@[i] <= first[l as int],
            forall|i: int| start <= i < k && r < second.len() ==> arr@[i] <= second[r as int],
            forall|i: int| 0 <= i < l && r < second.len() ==> first[i] <= second[r as int],
            arr@.subrange(start as int, k as int).to_multiset() == first.take(
                l as int,
            ).to_multiset().add(second.take(r as int).to_multiset()),
            count == cross(first, second.take(r as int)),
        decreases first.len() - l + second.len() - r,
    {
        let ghost merged = arr@.subrange(start as int, k as int);
        if left[l] <= right[r] {
            arr[k] = left[l];
            proof {
                assert(arr@.subrange(start as int, k + 1) =~= merged.push(first[l as int]));
                assert(first.take(l + 1) =~= first.take(l as int).push(first[l as int]));
                to_multiset_build(merged, first[l as int]);
                to_multiset_build(first.take(l as int), first[l as int]);
                assert(arr@.subrange(start as int, k + 1).to_multiset() =~= first.take(
                    l + 1,
                ).to_multiset().add(second.take(r as int).to_multiset()));
            }
            l = l + 1;
        } else {
            arr[k] = right[r];
            proof {
                assert(arr@.subrange(start as int, k + 1) =~= merged.push(second[r as int]));
                assert(second.take(r + 1) =~= second.take(r as int).push(second[r as int]));
                to_multiset_build(merged, second[r as int]);
                to_multiset_build(second.take(r as int), second[r as int]);
                assert(arr@.subrange(start as int, k + 1).to_multiset() =~= first.take(
                    l as int,
                ).to_multiset().add(second.take(r + 1).to_multiset()));
                assert(second.take(r + 1).drop_last() =~= second.take(r as int));
                lemma_greater_split(first, l as int, second[r as int]);
                lemma_cross_prefix(first, second, r + 1);
            }
            count = count + (left.len() as u64 - l as u64);
            r = r + 1;
        }
        k = k + 1;
    }
    while l < left.len()
        invariant
            l <= first.len(),
            r <= second.len(),
            l < first.len() ==> r == second.len(),
            k == start + l + r,
            first == left@,
            second == right@,
            first.len() == mid + 1 - start,
            second.len() == end - mid,
            end < arr@.len(),
            arr@.len() == old(arr)@.len(),
            arr@.len() <= usize::MAX,
            cross(first, second) <= u64::MAX,
            sorted(first),
            forall|i: int|
                0 <= i < arr@.len() && !(start <= i <= end) ==> arr@[i] == old(arr)@[i],
            sorted(arr@.subrange(start as int, k as int)),
            forall|i: int| start <= i < k && l < first.len() ==> arr@[i] <= first[l as int],
            forall|i: int| start <= i < k && r < second.len() ==> arr@[i] <= second[r as int],
            forall|i: int| 0 <= i < l && r < second.len() ==> first[i] <= second[r as int],
            arr@.subrange(start as int, k as int).to_multiset() == first.take(
                l as int,
            ).to_multiset().add(second.take(r as int).to_multiset()),
            count == cross(first, second.take(r as int)),
        decreases first.len() - l,
    {
        let ghost merged = arr@.subrange(start as int, k as int);
        arr[k] = left[l];
        proof {
            assert(arr@.subrange(start as int, k + 1) =~= merged.push(first[l as int]));
            assert(first.take(l + 1) =~= first.take(l as int).push(first[l as int]));
            to_multiset_build(merged, first[l as int]);
            to_multiset_build(first.take(l as int), first[l as int]);
            assert(arr@.subrange(start as int, k + 1).to_multiset() =~= first.take(
                l + 1,
            ).to_multiset().add(second.take(r as int).to_multiset()));
        }
        l = l + 1;
        k = k + 1;
    }
    while r < right.len()
        invariant
            l == first.len(),
            r <= second.len(),
            k == start + l + r,
            first == left@,
            second == right@,
            first.len() == mid + 1 - start,
            second.len() == end - mid,
            end < arr@.len(),
            arr@.len() == old(arr)@.len(),
            arr@.len() <= usize::MAX,
            cross(first, second) <= u64::MAX,
            sorted(second),
            forall|i: int|
                0 <= i < arr@.len() && !(start <= i <= end) ==> arr@[i] == old(arr)@[i],
            sorted(arr@.subrange(start as int, k as int)),
            forall|i: int| start <= i < k && r < second.len() ==> arr@[i] <= second[r as int],
            forall|i: int| 0 <= i < l && r < second.len() ==> first[i] <= second[r as int],
            arr@.subrange(start as int, k as int).to_multiset() == first.take(
                l as int,
            ).to_multiset().add(second.take(r as int).to_multiset()),
            count == cross(first, second.take(r as int)),
        decreases second.len() - r,
    {
        let ghost merged = arr@.subrange(start as int, k as int);
        arr[k] = right[r];
        proof {
            assert(arr@.subrange(start as int, k + 1) =~= merged.push(second[r as int]));
            assert(second.take(r + 1) =~= second.take(r as int).push(second[r as int]));
            to_multiset_build(merged, second[r as int]);
            to_multiset_build(second.take(r as int), second[r as int]);
            assert(arr@.subrange(start as int, k + 1).to_multiset() =~= first.take(
                l as int,
            ).to_multiset().add(second.take(r + 1).to_multiset()));
            assert(second.take(r + 1).drop_last() =~= second.take(r as int));
            lemma_greater_none(first, second[r as int]);
        }
        r = r + 1;
        k = k + 1;
    }
    proof {
        assert(first.take(first.len() as int) =~= first);
        assert(second.take(second.len() as int) =~= second);
        lemma_concat_multiset(first, second);
        assert(old(arr)@.subrange(start as int, end + 1) =~= first + second);
    }
    count
}

/// Sorts `arr[start..=end]` and counts the inversions it had. A range of
/// fewer than two elements is left alone.
pub fn merge_sort_and_count(arr: &mut Vec<i32>, start: usize, end: usize) -> (count: u64)
    requires
        start < end ==> end < old(arr)@.len() && inversions(
            old(arr)@.subrange(start as int, end + 1),
        ) <= u64::MAX,
    ensures
        final(arr)@.len() == old(arr)@.len(),
        start >= end ==> final(arr)@ == old(arr)@ && count == 0,
        forall|i: int|
            0 <= i < old(arr)@.len() && !(start <= i <= end) ==> final(arr)@[i] == old(arr)@[i],
        start < end ==> sorted(final(arr)@.subrange(start as int, end + 1)),
        start < end ==> final(arr)@.subrange(start as int, end + 1).to_multiset() == old(
            arr,
        )@.subrange(start as int, end + 1).to_multiset(),
        start < end ==> count == inversions(old(arr)@.subrange(start as int, end + 1)),
    decreases end - start,
{
    if start >= end {
        return 0;
    }
    let mid = start + (end - start) / 2;
    let ghost whole = arr@.subrange(start as int, end + 1);
    let ghost first = arr@.subrange(start as int, mid + 1);
    let ghost second = arr@.subrange(mid + 1, end + 1);
    let mut count: u64 = 0;
    proof {
        assert(whole =~= first + second);
        lemma_inversions_concat(first, second);
    }
    let lower = merge_sort_and_count(arr, start, mid);
    let ghost half_sorted = arr@;
    proof {
        assert(half_sorted.subrange(mid + 1, end + 1) =~= second);
        if start >= mid {
            assert(first.len() == 1);
            assert(inversions(first) == 0) by {
                reveal_with_fuel(inversions, 2);
                reveal_with_fuel(greater_in, 2);
                assert(first.drop_last() =~= Seq::<i32>::empty());
            }
        }
        assert(lower == inversions(first));
    }
    let upper = merge_sort_and_count(arr, mid + 1, end);
    let ghost both_sorted = arr@;
    proof {
        assert(both_sorted.subrange(start as int, mid + 1) =~= half_sorted.subrange(
            start as int,
            mid + 1,
        ));
        if mid + 1 >= end {
            assert(second.len() == 1);
            assert(inversions(second) == 0) by {
                reveal_with_fuel(inversions, 2);
                reveal_with_fuel(greater_in, 2);
                assert(second.drop_last() =~= Seq::<i32>::empty());
            }
        }
        assert(upper == inversions(second));
    }
    let sorted_first = Ghost(both_sorted.subrange(start as int, mid + 1));
    let sorted_second = Ghost(both_sorted.subrange(mid + 1, end + 1));
    proof {
        if start >= mid {
            assert(sorted(sorted_first@));
        }
        if mid + 1 >= end {
            assert(sorted(sorted_second@));
        }
        lemma_cross_rearranged(first, second, sorted_first@, sorted_second@);
    }
    let across = merge_and_count(arr, start, mid, end);
    proof {
        lemma_concat_multiset(first, second);
        lemma_concat_multiset(sorted_first@, sorted_second@);
        assert(both_sorted.subrange(start as int, end + 1) =~= sorted_first@ + sorted_second@);
    }
    count = count + lower;
    count = count + upper;
    count = count + across;
    count
}

/// The number of shifts an insertion sort of `arr` makes: its inversions.
pub fn insertion_sort(arr: &[i32]) -> (shifts: u64)
    requires
        inversions(arr@) <= u64::MAX,
    ensures
        shifts == inversions(arr@),
{
    if arr.len() <= 1 {
        proof {
            reveal_with_fuel(inversions, 2);
            reveal_with_fuel(greater_in, 2);
            if arr@.len() == 1 {
                assert(arr@.drop_last() =~= Seq::<i32>::empty());
            }
        }
        return 0;
    }
    let mut arr_: Vec<i32> = Vec::new();
    let mut i: usize = 0;
    while i < arr.len()
        invariant
            i <= arr@.len(),
            arr_@ == arr@.take(i as int),
        decreases arr@.len() - i,
    {
        arr_.push(arr[i]);
        proof {
            assert(arr_@ =~= arr@.take(i + 1));
        }
        i = i + 1;
    }
    proof {
        assert(arr@.take(arr@.len() as int) =~= arr@);
        assert(arr@.subrange(0, arr@.len() as int) =~= arr@);
    }
    merge_sort_and_count(&mut arr_, 0, arr.len() - 1)
}

} // verus!
