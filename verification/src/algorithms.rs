use vstd::prelude::*;

use crate::order::KeyOrd;
use crate::perm::{lemma_perm_preserves_forall, lemma_swap_subrange_multiset};

verus! {

/// The sequence carries an element with key `k`.
pub open spec fn has_key<T: KeyOrd>(s: Seq<T>, k: int) -> bool {
    exists|i: int| 0 <= i < s.len() && (#[trigger] s[i]).key() == k
}

/// Keys never decrease from left to right.
pub open spec fn sorted_asc<T: KeyOrd>(s: Seq<T>) -> bool {
    forall|i: int, j: int| 0 <= i < j < s.len() ==> s[i].key() <= s[j].key()
}

/// Keys never increase from left to right.
pub open spec fn sorted_desc<T: KeyOrd>(s: Seq<T>) -> bool {
    forall|i: int, j: int| 0 <= i < j < s.len() ==> s[i].key() >= s[j].key()
}

/// Scans the whole list; reports whether some element carries the key of
/// `element`.
pub fn linear_search<T: KeyOrd + Copy>(list: &Vec<T>, element: T) -> (r: bool)
    ensures
        r == has_key(list@, element.key()),
{
    let mut index: usize = 0;
    while index < list.len()
        invariant
            index <= list@.len(),
            forall|i: int| 0 <= i < index ==> (#[trigger] list@[i]).key() != element.key(),
        decreases list@.len() - index,
    {
        if list[index].key_eq(&element) {
            return true;
        }
        index += 1;
    }
    return false;
}

/// Halves an ascending list until the key of `element` is found or ruled
/// out. The list must be sorted in ascending key order.
pub fn binary_search<T: KeyOrd + Copy>(list: &Vec<T>, element: T) -> (r: bool)
    requires
        sorted_asc(list@),
    ensures
        r == has_key(list@, element.key()),
{
    let mut lo: usize = 0;
    let mut hi: usize = list.len();
    let mut middle: usize;

    while lo < hi
        invariant
            lo <= hi <= list@.len(),
            sorted_asc(list@),
            forall|i: int| 0 <= i < lo ==> (#[trigger] list@[i]).key() < element.key(),
            forall|i: int| hi <= i < list@.len() ==> (#[trigger] list@[i]).key() > element.key(),
        decreases hi - lo,
    {
        middle = lo + (hi - lo) / 2;
        if list[middle].key_eq(&element) {
            return true;
        } else if list[middle].lt(&element) {
            lo = middle + 1;
        } else {
            hi = middle;
        }
    }
    return false;
}

/// Swaps the elements at `i` and `j`.
fn swap_at<T: Copy>(list: &mut Vec<T>, i: usize, j: usize)
    requires
        i < old(list)@.len(),
        j < old(list)@.len(),
    ensures
        final(list)@ == old(list)@.update(i as int, old(list)@[j as int]).update(
            j as int,
            old(list)@[i as int],
        ),
{
    let a = list[i];
    let b = list[j];
    list.set(i, b);
    list.set(j, a);
}

/// Sorts in place by repeatedly bubbling the extreme element to the end:
/// ascending key order when `ascending` holds, descending otherwise. The
/// result is a rearrangement of the input.
pub fn bubble_sort<T: KeyOrd + Copy>(list: &mut Vec<T>, ascending: bool)
    ensures
        final(list)@.len() == old(list)@.len(),
        final(list)@.to_multiset() == old(list)@.to_multiset(),
        ascending ==> sorted_asc(final(list)@),
        !ascending ==> sorted_desc(final(list)@),
{
    let ghost len = old(list)@.len() as int;
    let mut i: usize = 0;
    while i < list.len()
        invariant
            list@.len() == len,
            i <= len,
            list@.to_multiset() == old(list)@.to_multiset(),
            ascending ==> forall|p: int, q: int|
                0 <= p <= q < len && q >= len - i ==> list@[p].key() <= list@[q].key(),
            !ascending ==> forall|p: int, q: int|
                0 <= p <= q < len && q >= len - i ==> list@[p].key() >= list@[q].key(),
        decreases len - i,
    {
        let ghost outer = list@;
        let mut j: usize = 0;
        while j < list.len() - i - 1
            invariant
                list@.len() == len,
                i < len,
                j <= len - i - 1,
                list@.to_multiset() == old(list)@.to_multiset(),
                ascending ==> forall|p: int, q: int|
                    0 <= p <= q < len && q >= len - i ==> list@[p].key() <= list@[q].key(),
                !ascending ==> forall|p: int, q: int|
                    0 <= p <= q < len && q >= len - i ==> list@[p].key() >= list@[q].key(),
                ascending ==> forall|p: int|
                    0 <= p <= j ==> (#[trigger] list@[p]).key() <= list@[j as int].key(),
                !ascending ==> forall|p: int|
                    0 <= p <= j ==> (#[trigger] list@[p]).key() >= list@[j as int].key(),
            decreases len - i - 1 - j,
        {
            let do_swap = if ascending {
                list[j + 1].lt(&list[j])
            } else {
                list[j].lt(&list[j + 1])
            };
            if do_swap {
                proof {
                    let s = list@;
                    let jj = j as int;
                    lemma_swap_subrange_multiset(s, 0, len, jj, jj + 1);
                    assert(s.subrange(0, len) =~= s);
                    assert(s.update(jj, s[jj + 1]).update(jj + 1, s[jj]).subrange(0, len) =~= s
                        .update(jj, s[jj + 1]).update(jj + 1, s[jj]));
                }
                swap_at(list, j, j + 1);
            }
            j += 1;
        }
        i += 1;
    }
}

/// Sorts in place into ascending key order; the result is a rearrangement
/// of the input.
pub fn quick_sort<T: KeyOrd + Copy>(list: &mut Vec<T>)
    ensures
        final(list)@.len() == old(list)@.len(),
        final(list)@.to_multiset() == old(list)@.to_multiset(),
        sorted_asc(final(list)@),
{
    let len = list.len();
    qs(list, 0, len);
    proof {
        assert(old(list)@.subrange(0, old(list)@.len() as int) =~= old(list)@);
        assert(list@.subrange(0, list@.len() as int) =~= list@);
    }
}

/// Recursively sorts the window `[lo, hi)` in place, leaving the rest of
/// the list untouched.
fn qs<T: KeyOrd + Copy>(list: &mut Vec<T>, lo: usize, hi: usize)
    requires
        lo <= hi,
        hi <= old(list)@.len(),
    ensures
        final(list)@.len() == old(list)@.len(),
        forall|k: int|
            0 <= k < old(list)@.len() && !(lo <= k < hi) ==> final(list)@[k] == old(list)@[k],
        final(list)@.subrange(lo as int, hi as int).to_multiset() == old(list)@.subrange(
            lo as int,
            hi as int,
        ).to_multiset(),
        forall|i: int, j: int|
            lo <= i < j < hi ==> final(list)@[i].key() <= final(list)@[j].key(),
    decreases hi - lo,
{
    if lo >= hi {
        return ;
    }
    let ghost s0 = list@;
    let pivot_pos = qs_partition(list, lo, hi);
    let ghost s1 = list@;
    let ghost pv = s1[pivot_pos as int];
    qs(list, lo, pivot_pos);
    let ghost s2 = list@;
    proof {
        // the left recursion touched only [lo, pivot_pos)
        assert(s2[pivot_pos as int] == pv);
        assert forall|k: int| pivot_pos < k < hi implies (#[trigger] s2[k]).key() > pv.key() by {
            assert(s2[k] == s1[k]);
        }
        // keys at or below the pivot stay that way across the rearrangement
        lemma_perm_preserves_forall(
            s1.subrange(lo as int, pivot_pos as int),
            s2.subrange(lo as int, pivot_pos as int),
            |x: T| x.key() <= pv.key(),
        );
        assert forall|k: int| lo <= k < pivot_pos implies (#[trigger] s2[k]).key() <= pv.key() by {
            assert(s2.subrange(lo as int, pivot_pos as int)[k - lo] == s2[k]);
        }
    }
    qs(list, pivot_pos + 1, hi);
    let ghost s3 = list@;
    proof {
        assert(s3[pivot_pos as int] == pv);
        assert forall|k: int| lo <= k < pivot_pos implies (#[trigger] s3[k]).key() <= pv.key()
            && s3[k] == s2[k] by {
            assert(s3[k] == s2[k]);
        }
        lemma_perm_preserves_forall(
            s2.subrange(pivot_pos + 1, hi as int),
            s3.subrange(pivot_pos + 1, hi as int),
            |x: T| x.key() > pv.key(),
        );
        assert forall|k: int| pivot_pos < k < hi implies (#[trigger] s3[k]).key() > pv.key() by {
            if k > pivot_pos {
                assert(s3.subrange(pivot_pos + 1, hi as int)[k - (pivot_pos + 1)] == s3[k]);
                assert(s2.subrange(pivot_pos + 1, hi as int).to_multiset() == s3.subrange(
                    pivot_pos + 1,
                    hi as int,
                ).to_multiset());
            }
        }
        // the window multiset is preserved end to end
        lemma_three_way_split(s0, s1, s2, s3, lo as int, pivot_pos as int, hi as int);
        // sortedness of the whole window
        assert forall|i: int, j: int| lo <= i < j < hi implies s3[i].key() <= s3[j].key() by {
            if j < pivot_pos {
            } else if i > pivot_pos {
            } else if i == pivot_pos {
                assert(s3[j].key() > pv.key());
            } else if j == pivot_pos {
                assert(s3[i].key() <= pv.key());
            } else {
                assert(s3[i].key() <= pv.key());
                assert(s3[j].key() > pv.key());
            }
        }
    }
}

/// The window multiset survives a partition followed by the two
/// sub-window sorts.
proof fn lemma_three_way_split<T>(
    s0: Seq<T>,
    s1: Seq<T>,
    s2: Seq<T>,
    s3: Seq<T>,
    lo: int,
    p: int,
    hi: int,
)
    requires
        0 <= lo <= p < hi <= s0.len(),
        s0.len() == s1.len() && s1.len() == s2.len() && s2.len() == s3.len(),
        s1.subrange(lo, hi).to_multiset() == s0.subrange(lo, hi).to_multiset(),
        s2.subrange(lo, p).to_multiset() == s1.subrange(lo, p).to_multiset(),
        forall|k: int| 0 <= k < s1.len() && !(lo <= k < p) ==> s2[k] == s1[k],
        s3.subrange(p + 1, hi).to_multiset() == s2.subrange(p + 1, hi).to_multiset(),
        forall|k: int| 0 <= k < s2.len() && !(p + 1 <= k < hi) ==> s3[k] == s2[k],
    ensures
        s3.subrange(lo, hi).to_multiset() == s0.subrange(lo, hi).to_multiset(),
{
    broadcast use vstd::seq_lib::group_to_multiset_ensures;

    assert(s1.subrange(lo, hi) =~= s1.subrange(lo, p) + s1.subrange(p, p + 1) + s1.subrange(
        p + 1,
        hi,
    ));
    assert(s2.subrange(lo, hi) =~= s2.subrange(lo, p) + s2.subrange(p, p + 1) + s2.subrange(
        p + 1,
        hi,
    ));
    assert(s3.subrange(lo, hi) =~= s3.subrange(lo, p) + s3.subrange(p, p + 1) + s3.subrange(
        p + 1,
        hi,
    ));
    assert(s2.subrange(p, p + 1) =~= s1.subrange(p, p + 1));
    assert(s2.subrange(p + 1, hi) =~= s1.subrange(p + 1, hi));
    assert(s3.subrange(lo, p) =~= s2.subrange(lo, p));
    assert(s3.subrange(p, p + 1) =~= s2.subrange(p, p + 1));
    lemma_concat_multiset(s1.subrange(lo, p), s1.subrange(p, p + 1), s1.subrange(p + 1, hi));
    lemma_concat_multiset(s2.subrange(lo, p), s2.subrange(p, p + 1), s2.subrange(p + 1, hi));
    lemma_concat_multiset(s3.subrange(lo, p), s3.subrange(p, p + 1), s3.subrange(p + 1, hi));
}

/// The multiset of a three-part concatenation is the sum of the parts.
proof fn lemma_concat_multiset<T>(a: Seq<T>, b: Seq<T>, c: Seq<T>)
    ensures
        (a + b + c).to_multiset() == a.to_multiset().add(b.to_multiset()).add(c.to_multiset()),
{
    vstd::seq_lib::lemma_multiset_commutative(a, b);
    vstd::seq_lib::lemma_multiset_commutative(a + b, c);
}

/// Lomuto partition of the window `[lo, hi)` around its last element:
/// after the call the pivot stands at the returned position, with only
/// keys at or below it on the left and strictly greater keys on the right.
fn qs_partition<T: KeyOrd + Copy>(list: &mut Vec<T>, lo: usize, hi: usize) -> (p: usize)
    requires
        lo < hi,
        hi <= old(list)@.len(),
    ensures
        lo <= p < hi,
        final(list)@.len() == old(list)@.len(),
        forall|k: int|
            0 <= k < old(list)@.len() && !(lo <= k < hi) ==> final(list)@[k] == old(list)@[k],
        final(list)@.subrange(lo as int, hi as int).to_multiset() == old(list)@.subrange(
            lo as int,
            hi as int,
        ).to_multiset(),
        forall|k: int| lo <= k < p ==> (#[trigger] final(list)@[k]).key() <= final(list)@[
            p as int
        ].key(),
        forall|k: int| p < k < hi ==> (#[trigger] final(list)@[k]).key() > final(list)@[
            p as int
        ].key(),
{
    let pivot: T = list[hi - 1];
    let mut idx: usize = lo;
    let mut i: usize = lo;
    while i < hi - 1
        invariant
            lo <= idx <= i <= hi - 1 < list@.len(),
            list@.len() == old(list)@.len(),
            pivot == list@[hi - 1],
            forall|k: int| 0 <= k < list@.len() && !(lo <= k < hi) ==> list@[k] == old(list)@[k],
            list@.subrange(lo as int, hi as int).to_multiset() == old(list)@.subrange(
                lo as int,
                hi as int,
            ).to_multiset(),
            forall|k: int| lo <= k < idx ==> (#[trigger] list@[k]).key() <= pivot.key(),
            forall|k: int| idx <= k < i ==> (#[trigger] list@[k]).key() > pivot.key(),
        decreases hi - 1 - i,
    {
        if list[i].le(&pivot) {
            proof {
                lemma_swap_subrange_multiset(list@, lo as int, hi as int, i as int, idx as int);
            }
            swap_at(list, i, idx);
            idx += 1;
        }
        i += 1;
    }
    proof {
        lemma_swap_subrange_multiset(list@, lo as int, hi as int, hi - 1, idx as int);
    }
    swap_at(list, hi - 1, idx);
    idx
}

} // verus!
