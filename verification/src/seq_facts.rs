//! Facts about sequences used by the loops that filter them.

use vstd::prelude::*;

verus! {

/// Filtering one more element of a prefix.
pub proof fn lemma_filter_step<A>(s: Seq<A>, pred: spec_fn(A) -> bool, i: int)
    requires
        0 <= i < s.len(),
    ensures
        s.take(i + 1).filter(pred) == (if pred(s[i]) {
            s.take(i).filter(pred).push(s[i])
        } else {
            s.take(i).filter(pred)
        }),
{
    reveal(Seq::filter);
    assert(s.take(i + 1).drop_last() =~= s.take(i));
    assert(s.take(i + 1).last() == s[i]);
}

/// Filtering the empty prefix.
pub proof fn lemma_filter_empty<A>(s: Seq<A>, pred: spec_fn(A) -> bool)
    ensures
        s.take(0).filter(pred) == Seq::<A>::empty(),
{
    reveal(Seq::filter);
    assert(s.take(0) =~= Seq::<A>::empty());
}

/// The whole sequence is its own longest prefix.
pub proof fn lemma_take_all<A>(s: Seq<A>)
    ensures
        s.take(s.len() as int) == s,
{
    assert(s.take(s.len() as int) =~= s);
}

/// Elements of a filtered sequence satisfy the predicate and come from the
/// sequence; elements of the sequence that satisfy it are kept.
pub proof fn lemma_filter_members<A>(s: Seq<A>, pred: spec_fn(A) -> bool)
    ensures
        forall|x: A| #[trigger] s.filter(pred).contains(x) <==> (s.contains(x) && pred(x)),
    decreases s.len(),
{
    reveal(Seq::filter);
    if s.len() > 0 {
        lemma_filter_members(s.drop_last(), pred);
        let t = s.drop_last();
        assert forall|x: A| #[trigger] s.contains(x) <==> (t.contains(x) || x == s.last()) by {
            if s.contains(x) {
                let i = choose|i: int| 0 <= i < s.len() && s[i] == x;
                if i < t.len() { assert(t[i] == x); }
            }
            if t.contains(x) {
                let i = choose|i: int| 0 <= i < t.len() && t[i] == x;
                assert(s[i] == x);
            }
            if x == s.last() { assert(s[s.len() - 1] == x); }
        }
        if pred(s.last()) {
            let f = t.filter(pred);
            assert forall|x: A| #[trigger] f.push(s.last()).contains(x) <==> (f.contains(x) || x == s.last()) by {
                if f.push(s.last()).contains(x) {
                    let i = choose|i: int| 0 <= i < f.len() + 1 && f.push(s.last())[i] == x;
                    if i < f.len() { assert(f[i] == x); }
                }
                if f.contains(x) {
                    let i = choose|i: int| 0 <= i < f.len() && f[i] == x;
                    assert(f.push(s.last())[i] == x);
                }
                if x == s.last() { assert(f.push(s.last())[f.len() as int] == x); }
            }
        }
    }
}


/// The elements of `s` at the positions where `keep` is true, in order.
pub open spec fn select<A>(s: Seq<A>, keep: Seq<bool>) -> Seq<A>
    decreases s.len(),
{
    if s.len() == 0 || keep.len() == 0 {
        Seq::empty()
    } else {
        let t = select(s.drop_last(), keep.drop_last());
        if keep.last() {
            t.push(s.last())
        } else {
            t
        }
    }
}

pub proof fn lemma_select_step<A>(s: Seq<A>, keep: Seq<bool>, i: int, b: bool)
    requires
        0 <= i < s.len(),
        keep.len() == i,
    ensures
        select(s.take(i + 1), keep.push(b)) == (if b {
            select(s.take(i), keep).push(s[i])
        } else {
            select(s.take(i), keep)
        }),
{
    assert(s.take(i + 1).drop_last() =~= s.take(i));
    assert(keep.push(b).drop_last() =~= keep);
}

/// Every selected element comes from the sequence.
pub proof fn lemma_select_members<A>(s: Seq<A>, keep: Seq<bool>)
    ensures
        forall|x: A| #[trigger] select(s, keep).contains(x) ==> s.contains(x),
    decreases s.len(),
{
    if s.len() > 0 && keep.len() > 0 {
        lemma_select_members(s.drop_last(), keep.drop_last());
        let t = select(s.drop_last(), keep.drop_last());
        assert forall|x: A| #[trigger] select(s, keep).contains(x) implies s.contains(x) by {
            if t.contains(x) {
                assert(s.drop_last().contains(x));
                let i = choose|i: int| 0 <= i < s.drop_last().len() && s.drop_last()[i] == x;
                assert(s[i] == x);
            } else if keep.last() {
                let i = choose|i: int| 0 <= i < t.push(s.last()).len() && t.push(s.last())[i] == x;
                if i < t.len() {
                    assert(t[i] == x);
                } else {
                    assert(s[s.len() - 1] == x);
                }
            }
        }
    }
}

} // verus!
