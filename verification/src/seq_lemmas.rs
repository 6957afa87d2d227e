//! Facts about sequences that several modules rest on.
use vstd::prelude::*;

verus! {

/// What is in a sequence once `a` is put at its end.
pub(crate) proof fn lemma_push_member<A>(s: Seq<A>, a: A, b: A)
    ensures
        s.push(a).contains(b) <==> s.contains(b) || a == b,
{
    let more = s.push(a);
    if s.contains(b) {
        let i = choose|i: int| 0 <= i < s.len() && s[i] == b;
        assert(more[i] == b);
    }
    if a == b {
        assert(more[s.len() as int] == b);
    }
    if more.contains(b) && a != b {
        let i = choose|i: int| 0 <= i < more.len() && more[i] == b;
        assert(s[i] == b);
    }
}

/// What is in two sequences put together.
pub(crate) proof fn lemma_add_member<A>(s: Seq<A>, t: Seq<A>, a: A)
    ensures
        (s + t).contains(a) <==> s.contains(a) || t.contains(a),
{
    let all = s + t;
    if s.contains(a) {
        let i = choose|i: int| 0 <= i < s.len() && s[i] == a;
        assert(all[i] == a);
    }
    if t.contains(a) {
        let i = choose|i: int| 0 <= i < t.len() && t[i] == a;
        assert(all[s.len() + i] == a);
    }
    if all.contains(a) {
        let i = choose|i: int| 0 <= i < all.len() && all[i] == a;
        if i < s.len() {
            assert(s[i] == a);
        } else {
            assert(t[i - s.len()] == a);
        }
    }
}

/// What a filter keeps of a sequence once `a` is put at its end.
pub(crate) proof fn lemma_filter_push<A>(s: Seq<A>, keep: spec_fn(A) -> bool, a: A)
    ensures
        s.push(a).filter(keep) == if keep(a) {
            s.filter(keep).push(a)
        } else {
            s.filter(keep)
        },
{
    reveal(Seq::filter);
    assert(s.push(a).drop_last() =~= s);
}

/// What a filter keeps of a sequence.
pub(crate) proof fn lemma_filter_member<A>(s: Seq<A>, keep: spec_fn(A) -> bool, a: A)
    ensures
        s.filter(keep).contains(a) <==> s.contains(a) && keep(a),
    decreases s.len(),
{
    reveal(Seq::filter);
    if s.len() > 0 {
        let rest = s.drop_last();
        lemma_filter_member(rest, keep, a);
        lemma_filter_push(rest, keep, s.last());
        lemma_push_member(rest, s.last(), a);
        lemma_push_member(rest.filter(keep), s.last(), a);
        assert(rest.push(s.last()) =~= s);
    }
}

} // verus!
