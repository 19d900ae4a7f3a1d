use vstd::prelude::*;

verus! {

/// Overwriting one position exchanges exactly that element in the multiset
/// of the sequence.
pub proof fn lemma_update_multiset<T>(s: Seq<T>, i: int, a: T)
    requires
        0 <= i < s.len(),
    ensures
        s.update(i, a).to_multiset() == s.to_multiset().remove(s[i]).insert(a),
{
    broadcast use vstd::seq_lib::group_to_multiset_ensures;

    assert(s.update(i, a) =~= s.remove(i).insert(i, a));
    assert(s.remove(i).insert(i, a).to_multiset() == s.to_multiset().remove(
        s[i],
    ).insert(a));
}

/// Swapping two positions leaves the multiset of the sequence unchanged.
pub proof fn lemma_swap_multiset<T>(s: Seq<T>, i: int, j: int)
    requires
        0 <= i < s.len(),
        0 <= j < s.len(),
    ensures
        s.update(i, s[j]).update(j, s[i]).to_multiset() == s.to_multiset(),
{
    if i == j {
        assert(s.update(i, s[j]).update(j, s[i]) =~= s);
    } else {
        let s1 = s.update(i, s[j]);
        lemma_update_multiset(s, i, s[j]);
        lemma_update_multiset(s1, j, s[i]);
        assert(s1[j] == s[j]);
        assert(s.to_multiset().remove(s[i]).insert(s[j]).remove(s[j]).insert(s[i])
            =~= s.to_multiset()) by {
            broadcast use vstd::seq_lib::group_to_multiset_ensures;

            assert(s.to_multiset().contains(s[i]));
        }
    }
}

/// Swapping two positions inside a window leaves the multiset of that
/// window unchanged.
pub proof fn lemma_swap_subrange_multiset<T>(s: Seq<T>, lo: int, hi: int, i: int, j: int)
    requires
        0 <= lo <= i < hi <= s.len(),
        lo <= j < hi,
    ensures
        s.update(i, s[j]).update(j, s[i]).subrange(lo, hi).to_multiset() == s.subrange(
            lo,
            hi,
        ).to_multiset(),
{
    let w = s.subrange(lo, hi);
    assert(s.update(i, s[j]).update(j, s[i]).subrange(lo, hi) =~= w.update(i - lo, w[j - lo]).update(
        j - lo,
        w[i - lo],
    ));
    lemma_swap_multiset(w, i - lo, j - lo);
}

/// A property that holds of every element of a sequence holds of every
/// element of any rearrangement of it.
pub proof fn lemma_perm_preserves_forall<T>(s: Seq<T>, t: Seq<T>, p: spec_fn(T) -> bool)
    requires
        s.to_multiset() == t.to_multiset(),
        forall|i: int| 0 <= i < s.len() ==> p(#[trigger] s[i]),
    ensures
        forall|i: int| 0 <= i < t.len() ==> p(#[trigger] t[i]),
{
    broadcast use vstd::seq_lib::group_to_multiset_ensures;

    assert forall|i: int| 0 <= i < t.len() implies p(#[trigger] t[i]) by {
        lemma_seq_elem_in_multiset(t, i);
        assert(s.to_multiset().count(t[i]) > 0);
        lemma_multiset_elem_in_seq(s, t[i]);
        let w = choose|w: int| 0 <= w < s.len() && s[w] == t[i];
        assert(p(s[w]));
    }
}

/// An element of a multiset that came from a sequence stands somewhere in
/// the sequence.
pub proof fn lemma_multiset_elem_in_seq<T>(s: Seq<T>, x: T)
    requires
        s.to_multiset().count(x) > 0,
    ensures
        exists|i: int| 0 <= i < s.len() && s[i] == x,
{
    broadcast use vstd::seq_lib::group_to_multiset_ensures;

    assert(s.contains(x));
}

/// The converse: every sequence element is counted by the multiset.
pub proof fn lemma_seq_elem_in_multiset<T>(s: Seq<T>, i: int)
    requires
        0 <= i < s.len(),
    ensures
        s.to_multiset().count(s[i]) > 0,
{
    broadcast use vstd::seq_lib::group_to_multiset_ensures;

    assert(s.contains(s[i]));
}

} // verus!
