//! Facts about what a test leaves of a sequence.
use vstd::prelude::*;

verus! {

/// Whether `x` stands at the place `k` of `s`.
pub open spec fn stands_at<A>(s: Seq<A>, x: A, k: int) -> bool {
    0 <= k < s.len() && s[k] == x
}

/// Whether `x` stands at the place `k` of `s`, and `y` at the later place `l`.
pub open spec fn stand_at<A>(s: Seq<A>, x: A, y: A, k: int, l: int) -> bool {
    0 <= k < l < s.len() && s[k] == x && s[l] == y
}

/// Whether `x` stands in `s`.
pub open spec fn occurs<A>(s: Seq<A>, x: A) -> bool {
    exists|k: int| stands_at(s, x, k)
}

/// Whether `x` stands in `s` and `y` at a later place.
pub open spec fn in_order<A>(s: Seq<A>, x: A, y: A) -> bool {
    exists|k: int, l: int| stand_at(s, x, y, k, l)
}

/// What a test leaves of a sequence: each element that is left stands in
/// the sequence and passes the test; of two that are left, the first stands
/// first in the sequence too; and every element that passes is left.
pub proof fn lemma_filter_places<A>(s: Seq<A>, pred: spec_fn(A) -> bool)
    ensures
        forall|i: int|
            0 <= i < s.filter(pred).len() ==> pred(#[trigger] s.filter(pred)[i]) && occurs(s, s.filter(pred)[i]),
        forall|i: int, j: int|
            0 <= i < j < s.filter(pred).len() ==> in_order(
                s,
                #[trigger] s.filter(pred)[i],
                #[trigger] s.filter(pred)[j],
            ),
        forall|k: int| 0 <= k < s.len() && pred(s[k]) ==> s.filter(pred).contains(#[trigger] s[k]),
    decreases s.len(),
{
    reveal(Seq::filter);
    let f = s.filter(pred);
    if s.len() > 0 {
        let t = s.drop_last();
        let g = t.filter(pred);
        lemma_filter_places(t, pred);
        assert forall|i: int| 0 <= i < f.len() implies pred(#[trigger] f[i]) && occurs(s, f[i]) by {
            if i < g.len() {
                assert(f[i] == g[i]);
                let k = choose|k: int| stands_at(t, g[i], k);
                assert(stands_at(s, f[i], k));
            } else {
                assert(stands_at(s, f[i], s.len() - 1));
            }
        }
        assert forall|i: int, j: int| 0 <= i < j < f.len() implies in_order(s, #[trigger] f[i], #[trigger] f[j]) by {
            assert(f[i] == g[i]);
            if j < g.len() {
                assert(f[j] == g[j]);
                let (k, l) = choose|k: int, l: int| stand_at(t, g[i], g[j], k, l);
                assert(stand_at(s, f[i], f[j], k, l));
            } else {
                let k = choose|k: int| stands_at(t, g[i], k);
                assert(stand_at(s, f[i], f[j], k, s.len() - 1));
            }
        }
        assert forall|k: int| 0 <= k < s.len() && pred(s[k]) implies f.contains(#[trigger] s[k]) by {
            if k < t.len() {
                assert(t[k] == s[k]);
                assert(g.contains(t[k]));
                let i = choose|i: int| 0 <= i < g.len() && g[i] == t[k];
                assert(f[i] == s[k]);
            } else {
                assert(f[f.len() - 1] == s[k]);
            }
        }
    }
}

/// A test that every element passes leaves the sequence as it is.
pub proof fn lemma_filter_all<A>(s: Seq<A>, pred: spec_fn(A) -> bool)
    requires
        forall|i: int| 0 <= i < s.len() ==> pred(#[trigger] s[i]),
    ensures
        s.filter(pred) == s,
    decreases s.len(),
{
    reveal(Seq::filter);
    if s.len() > 0 {
        lemma_filter_all(s.drop_last(), pred);
        assert(s.drop_last().push(s.last()) =~= s);
    }
}

/// A test that no element passes leaves nothing.
pub proof fn lemma_filter_none<A>(s: Seq<A>, pred: spec_fn(A) -> bool)
    requires
        forall|i: int| 0 <= i < s.len() ==> !pred(#[trigger] s[i]),
    ensures
        s.filter(pred) == Seq::<A>::empty(),
    decreases s.len(),
{
    reveal(Seq::filter);
    if s.len() > 0 {
        lemma_filter_none(s.drop_last(), pred);
    }
}

/// A test that leaves the length of a sequence as it is passes every
/// element.
pub proof fn lemma_filter_len_all<A>(s: Seq<A>, pred: spec_fn(A) -> bool)
    requires
        s.filter(pred).len() == s.len(),
    ensures
        forall|i: int| 0 <= i < s.len() ==> pred(#[trigger] s[i]),
    decreases s.len(),
{
    reveal(Seq::filter);
    if s.len() > 0 {
        s.drop_last().lemma_filter_len(pred);
        if pred(s.last()) {
            lemma_filter_len_all(s.drop_last(), pred);
            assert forall|i: int| 0 <= i < s.len() implies pred(#[trigger] s[i]) by {
                if i < s.len() - 1 {
                    assert(s.drop_last()[i] == s[i]);
                }
            }
        }
    }
}

/// What a test leaves of what a weaker test has left is what it leaves of
/// the whole.
pub proof fn lemma_filter_filter<A>(s: Seq<A>, p: spec_fn(A) -> bool, q: spec_fn(A) -> bool)
    requires
        forall|x: A| #[trigger] q(x) ==> p(x),
    ensures
        s.filter(p).filter(q) == s.filter(q),
    decreases s.len(),
{
    reveal(Seq::filter);
    if s.len() > 0 {
        lemma_filter_filter(s.drop_last(), p, q);
        if p(s.last()) {
            s.drop_last().filter(p).lemma_filter_push(s.last(), q);
        }
    }
}

} // verus!
