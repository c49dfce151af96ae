//! Facts about sequences that the stores' proofs share.
use vstd::prelude::*;

verus! {

/// Filtering a prefix one element longer adds that element when it passes.
pub proof fn lemma_filter_take_succ<A>(s: Seq<A>, pred: spec_fn(A) -> bool, i: int)
    requires
        0 <= i < s.len(),
    ensures
        s.take(i + 1).filter(pred) == (if pred(s[i]) {
            s.take(i).filter(pred).push(s[i])
        } else {
            s.take(i).filter(pred)
        }),
{
    assert(s.take(i + 1) =~= s.take(i).push(s[i]));
    s.take(i).lemma_filter_push(s[i], pred);
}

/// A filtered prefix is never longer than the filtered whole.
pub proof fn lemma_filter_take_len_le<A>(s: Seq<A>, pred: spec_fn(A) -> bool, i: int)
    requires
        0 <= i <= s.len(),
    ensures
        s.take(i).filter(pred).len() <= s.filter(pred).len(),
{
    s.lemma_filter_take_len(pred, i);
}


/// Filtering splits around any position.
pub proof fn lemma_filter_split<A>(s: Seq<A>, pred: spec_fn(A) -> bool, i: int)
    requires
        0 <= i < s.len(),
    ensures
        s.filter(pred) == s.take(i).filter(pred) + seq![s[i]].filter(pred) + s.skip(i + 1).filter(pred),
        seq![s[i]].filter(pred) == (if pred(s[i]) {
            seq![s[i]]
        } else {
            Seq::<A>::empty()
        }),
{
    broadcast use vstd::seq_lib::group_seq_properties;

    assert(s =~= s.take(i) + seq![s[i]] + s.skip(i + 1));
    Seq::filter_distributes_over_add(s.take(i) + seq![s[i]], s.skip(i + 1), pred);
    Seq::filter_distributes_over_add(s.take(i), seq![s[i]], pred);
    assert(seq![s[i]] =~= Seq::<A>::empty().push(s[i]));
    Seq::<A>::empty().lemma_filter_push(s[i], pred);
    assert(Seq::<A>::empty().filter(pred) =~= Seq::<A>::empty()) by {
        reveal(Seq::filter);
    }
    assert(Seq::<A>::empty().push(s[i]) =~= seq![s[i]]);
}

/// Replacing an element by one that the filter treats alike replaces it in the
/// filtered sequence, at the position that counts the passing elements before
/// it.
pub proof fn lemma_filter_update<A>(s: Seq<A>, pred: spec_fn(A) -> bool, i: int, x: A)
    requires
        0 <= i < s.len(),
        pred(x) == pred(s[i]),
    ensures
        s.update(i, x).filter(pred) == (if pred(x) {
            s.filter(pred).update(s.take(i).filter(pred).len() as int, x)
        } else {
            s.filter(pred)
        }),
{
    let t = s.update(i, x);
    lemma_filter_split(s, pred, i);
    lemma_filter_split(t, pred, i);
    assert(t.take(i) =~= s.take(i));
    assert(t.skip(i + 1) =~= s.skip(i + 1));
    if pred(x) {
        assert(t.filter(pred) =~= s.filter(pred).update(s.take(i).filter(pred).len() as int, x));
    } else {
        assert(t.filter(pred) =~= s.filter(pred));
    }
}

/// Removing an element removes it from the filtered sequence, at the position
/// that counts the passing elements before it.
pub proof fn lemma_filter_remove<A>(s: Seq<A>, pred: spec_fn(A) -> bool, i: int)
    requires
        0 <= i < s.len(),
    ensures
        s.remove(i).filter(pred) == (if pred(s[i]) {
            s.filter(pred).remove(s.take(i).filter(pred).len() as int)
        } else {
            s.filter(pred)
        }),
{
    broadcast use vstd::seq_lib::group_seq_properties;

    let t = s.remove(i);
    lemma_filter_split(s, pred, i);
    assert(t =~= s.take(i) + s.skip(i + 1));
    Seq::filter_distributes_over_add(s.take(i), s.skip(i + 1), pred);
    if pred(s[i]) {
        assert(t.filter(pred) =~= s.filter(pred).remove(s.take(i).filter(pred).len() as int));
    } else {
        assert(t.filter(pred) =~= s.filter(pred));
    }
}

/// The element at a passing position sits in the filtered sequence at the
/// position that counts the passing elements before it.
pub proof fn lemma_filter_index<A>(s: Seq<A>, pred: spec_fn(A) -> bool, i: int)
    requires
        0 <= i < s.len(),
        pred(s[i]),
    ensures
        s.take(i).filter(pred).len() < s.filter(pred).len(),
        s.filter(pred)[s.take(i).filter(pred).len() as int] == s[i],
        s.filter(pred).take(s.take(i).filter(pred).len() as int) == s.take(i).filter(pred),
{
    lemma_filter_split(s, pred, i);
    let n = s.take(i).filter(pred).len() as int;
    assert(s.filter(pred).take(n) =~= s.take(i).filter(pred));
}

} // verus!
