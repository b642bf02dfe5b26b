//! A stable sort of values that are ranked by a text.
use vstd::prelude::*;
use crate::text::{
    lemma_text_le_transitive, lemma_text_less_irreflexive, lemma_text_less_total,
    lemma_text_less_transitive, text_le, text_less,
};

verus! {

/// A value that is put in order by a text, its rank.
pub trait Ranked {
    /// The text by which the value is ordered.
    spec fn rank(&self) -> Seq<char>;

    /// Whether `self` ranks strictly before `other`.
    fn ranks_before(&self, other: &Self) -> (r: bool)
        ensures
            r == text_less(self.rank(), other.rank()),
    ;
}

/// The key function that takes a ranked value to its rank.
pub open spec fn rank_key<T: Ranked>() -> spec_fn(T) -> Seq<char> {
    |x: T| x.rank()
}

/// No element's key is strictly before the key of an earlier element.
pub open spec fn sorted_by<T>(s: Seq<T>, key: spec_fn(T) -> Seq<char>) -> bool {
    forall|i: int, j: int| 0 <= i < j < s.len() ==> text_le(#[trigger] key(s[i]), #[trigger] key(s[j]))
}

/// The test that a value's key is `k`.
pub open spec fn key_is<T>(key: spec_fn(T) -> Seq<char>, k: Seq<char>) -> spec_fn(T) -> bool {
    |x: T| key(x) == k
}

/// The elements of `s` whose key is `k`, in the order in which they stand in `s`.
pub open spec fn of_key<T>(s: Seq<T>, key: spec_fn(T) -> Seq<char>, k: Seq<char>) -> Seq<T> {
    s.filter(key_is(key, k))
}

/// `out` holds the elements of `inp` ordered by key, elements of equal key
/// in the order they had in `inp`. For a given `inp` there is one such `out`.
pub open spec fn stably_sorted_by<T>(out: Seq<T>, inp: Seq<T>, key: spec_fn(T) -> Seq<char>) -> bool {
    &&& sorted_by(out, key)
    &&& forall|k: Seq<char>| #[trigger] of_key(out, key, k) == of_key(inp, key, k)
}

proof fn lemma_of_key_none<T>(s: Seq<T>, key: spec_fn(T) -> Seq<char>, k: Seq<char>)
    requires
        forall|i: int| 0 <= i < s.len() ==> key(#[trigger] s[i]) != k,
    ensures
        of_key(s, key, k) == Seq::<T>::empty(),
{
    let pred = key_is(key, k);
    assert(s.all(|x: T| !pred(x)));
    s.lemma_all_neg_filter_empty(pred);
    assert(of_key(s, key, k) =~= Seq::<T>::empty());
}

/// Putting `x` into a sequence in front of elements that all come strictly
/// after it keeps every class of equal key in order.
proof fn lemma_insert_keeps_classes<T>(p: Seq<T>, j: int, x: T, key: spec_fn(T) -> Seq<char>, k: Seq<char>)
    requires
        0 <= j <= p.len(),
        forall|m: int| j <= m < p.len() ==> text_less(key(x), key(#[trigger] p[m])),
    ensures
        of_key(p.insert(j, x), key, k) == of_key(p.push(x), key, k),
{
    let pred = key_is(key, k);
    let a = p.take(j);
    let b = p.skip(j);
    assert(p =~= a + b);
    assert(p.insert(j, x) =~= a.push(x) + b);
    Seq::filter_distributes_over_add(a, b, pred);
    Seq::filter_distributes_over_add(a.push(x), b, pred);
    a.lemma_filter_push(x, pred);
    p.lemma_filter_push(x, pred);
    if key(x) == k {
        assert forall|i: int| 0 <= i < b.len() implies key(#[trigger] b[i]) != k by {
            assert(b[i] == p[j + i]);
            lemma_text_less_irreflexive(k);
        }
        lemma_of_key_none(b, key, k);
        assert(a.push(x).filter(pred) + b.filter(pred) =~= a.filter(pred).push(x));
        assert(a.filter(pred) + b.filter(pred) =~= a.filter(pred));
    }
}

/// An element occurs in a sequence as often as in its class of equal key.
proof fn lemma_count_in_class<T>(s: Seq<T>, key: spec_fn(T) -> Seq<char>, x: T)
    ensures
        s.to_multiset().count(x) == of_key(s, key, key(x)).to_multiset().count(x),
    decreases s.len(),
{
    broadcast use vstd::seq_lib::to_multiset_build;
    let pred = key_is(key, key(x));
    if s.len() == 0 {
        assert(of_key(s, key, key(x)) =~= s) by {
            reveal(Seq::filter);
        }
    } else {
        let t = s.drop_last();
        assert(s =~= t.push(s.last()));
        lemma_count_in_class(t, key, x);
        t.lemma_filter_push(s.last(), pred);
    }
}

/// A stable sort rearranges: every element occurs as often as before.
pub proof fn lemma_stably_sorted_is_permutation<T>(out: Seq<T>, inp: Seq<T>, key: spec_fn(T) -> Seq<char>)
    requires
        stably_sorted_by(out, inp, key),
    ensures
        out.to_multiset() == inp.to_multiset(),
        out.len() == inp.len(),
{
    assert forall|x: T| out.to_multiset().count(x) == inp.to_multiset().count(x) by {
        lemma_count_in_class(out, key, x);
        lemma_count_in_class(inp, key, x);
        assert(of_key(out, key, key(x)) == of_key(inp, key, key(x)));
    }
    assert(out.to_multiset() =~= inp.to_multiset());
    out.to_multiset_ensures();
    inp.to_multiset_ensures();
}

/// Two sequences that are ordered by key and have the same classes of equal
/// key are the same sequence.
pub proof fn lemma_sorted_classes_unique<T>(a: Seq<T>, b: Seq<T>, key: spec_fn(T) -> Seq<char>)
    requires
        sorted_by(a, key),
        sorted_by(b, key),
        a.len() == b.len(),
        forall|k: Seq<char>| #[trigger] of_key(a, key, k) == of_key(b, key, k),
    ensures
        a == b,
    decreases a.len(),
{
    if a.len() == 0 {
        assert(a =~= b);
    } else {
        let ka = key(a.last());
        let kb = key(b.last());
        let a0 = a.drop_last();
        let b0 = b.drop_last();
        assert(a =~= a0.push(a.last()));
        assert(b =~= b0.push(b.last()));
        a0.lemma_filter_push(a.last(), key_is(key, ka));
        b0.lemma_filter_push(b.last(), key_is(key, kb));
        a0.lemma_filter_push(a.last(), key_is(key, kb));
        b0.lemma_filter_push(b.last(), key_is(key, ka));
        assert(of_key(a, key, ka).last() == a.last());
        assert(of_key(b, key, kb).last() == b.last());
        assert(of_key(a, key, kb) == of_key(b, key, kb));
        assert(of_key(b, key, ka) == of_key(a, key, ka));
        // An element of `a` has the key of the last of `b`, and the other way round.
        crate::seqs::lemma_filter_places(a, key_is(key, kb));
        crate::seqs::lemma_filter_places(b, key_is(key, ka));
        let xa = of_key(a, key, kb).last();
        assert(key_is(key, kb)(xa) && crate::seqs::occurs(a, xa));
        let ia = choose|i: int| crate::seqs::stands_at(a, xa, i);
        assert(text_le(kb, ka)) by {
            if ia < a.len() - 1 {
                assert(text_le(key(a[ia]), key(a[a.len() - 1])));
            } else {
                lemma_text_less_irreflexive(ka);
            }
        }
        let xb = of_key(b, key, ka).last();
        assert(key_is(key, ka)(xb) && crate::seqs::occurs(b, xb));
        let ib = choose|i: int| crate::seqs::stands_at(b, xb, i);
        assert(text_le(ka, kb)) by {
            if ib < b.len() - 1 {
                assert(text_le(key(b[ib]), key(b[b.len() - 1])));
            } else {
                lemma_text_less_irreflexive(kb);
            }
        }
        lemma_text_less_total(ka, kb);
        assert(ka == kb);
        assert(a.last() == b.last());
        assert forall|i: int, j: int| 0 <= i < j < a0.len() implies text_le(#[trigger] key(a0[i]), #[trigger] key(a0[j])) by {
            assert(text_le(key(a[i]), key(a[j])));
        }
        assert forall|i: int, j: int| 0 <= i < j < b0.len() implies text_le(#[trigger] key(b0[i]), #[trigger] key(b0[j])) by {
            assert(text_le(key(b[i]), key(b[j])));
        }
        assert forall|k: Seq<char>| #[trigger] of_key(a0, key, k) == of_key(b0, key, k) by {
            a0.lemma_filter_push(a.last(), key_is(key, k));
            b0.lemma_filter_push(b.last(), key_is(key, k));
            assert(of_key(a, key, k) == of_key(b, key, k));
            if k == ka {
                assert(of_key(a0, key, k) =~= of_key(a, key, k).drop_last());
                assert(of_key(b0, key, k) =~= of_key(b, key, k).drop_last());
            }
        }
        lemma_sorted_classes_unique(a0, b0, key);
    }
}

/// What a sequence is stably sorted into is one sequence only; a sequence
/// that is ordered already is stably sorted into itself.
pub proof fn lemma_stable_sort_unique<T>(a: Seq<T>, b: Seq<T>, inp: Seq<T>, key: spec_fn(T) -> Seq<char>)
    requires
        stably_sorted_by(a, inp, key),
        stably_sorted_by(b, inp, key),
    ensures
        a == b,
        sorted_by(inp, key) ==> a == inp,
{
    lemma_stably_sorted_is_permutation(a, inp, key);
    lemma_stably_sorted_is_permutation(b, inp, key);
    assert forall|k: Seq<char>| #[trigger] of_key(a, key, k) == of_key(b, key, k) by {
        assert(of_key(a, key, k) == of_key(inp, key, k));
        assert(of_key(b, key, k) == of_key(inp, key, k));
    }
    lemma_sorted_classes_unique(a, b, key);
    if sorted_by(inp, key) {
        lemma_sorted_classes_unique(a, inp, key);
    }
}

proof fn lemma_of_key_map<T, U>(s: Seq<T>, key: spec_fn(T) -> Seq<char>, f: spec_fn(T) -> U, key2: spec_fn(U) -> Seq<char>, k: Seq<char>)
    requires
        forall|x: T| #[trigger] key2(f(x)) == key(x),
    ensures
        of_key(s.map_values(f), key2, k) == of_key(s, key, k).map_values(f),
    decreases s.len(),
{
    if s.len() == 0 {
        reveal(Seq::filter);
        assert(s.map_values(f) =~= Seq::<U>::empty());
        assert(of_key(s, key, k).map_values(f) =~= Seq::<U>::empty());
        assert(of_key(s.map_values(f), key2, k) =~= Seq::<U>::empty());
    } else {
        let t = s.drop_last();
        let x = s.last();
        assert(s =~= t.push(x));
        lemma_of_key_map(t, key, f, key2, k);
        assert(s.map_values(f) =~= t.map_values(f).push(f(x)));
        t.lemma_filter_push(x, key_is(key, k));
        t.map_values(f).lemma_filter_push(f(x), key_is(key2, k));
        if key(x) == k {
            assert(of_key(t, key, k).push(x).map_values(f) =~= of_key(t, key, k).map_values(f).push(f(x)));
        }
    }
}

/// A stable sort stays one under a mapping that keeps the keys.
pub proof fn lemma_stably_sorted_map<T, U>(out: Seq<T>, inp: Seq<T>, key: spec_fn(T) -> Seq<char>, f: spec_fn(T) -> U, key2: spec_fn(U) -> Seq<char>)
    requires
        stably_sorted_by(out, inp, key),
        forall|x: T| #[trigger] key2(f(x)) == key(x),
    ensures
        stably_sorted_by(out.map_values(f), inp.map_values(f), key2),
{
    let mo = out.map_values(f);
    assert forall|i: int, j: int| 0 <= i < j < mo.len() implies text_le(#[trigger] key2(mo[i]), #[trigger] key2(mo[j])) by {
        assert(text_le(key(out[i]), key(out[j])));
    }
    assert forall|k: Seq<char>| #[trigger] of_key(mo, key2, k) == of_key(inp.map_values(f), key2, k) by {
        lemma_of_key_map(out, key, f, key2, k);
        lemma_of_key_map(inp, key, f, key2, k);
        assert(of_key(out, key, k) == of_key(inp, key, k));
    }
}

/// Sorts `v` by rank; elements of equal rank keep their order.
pub fn stable_sort<T: Ranked>(v: &mut Vec<T>)
    ensures
        stably_sorted_by(final(v)@, old(v)@, rank_key::<T>()),
        final(v)@.to_multiset() == old(v)@.to_multiset(),
{
    let n = v.len();
    let ghost orig = v@;
    let ghost key = rank_key::<T>();
    let mut i: usize = 0;
    assert(orig.take(0) =~= Seq::<T>::empty());
    while i < n
        invariant
            i <= n,
            n == orig.len(),
            v@.len() == n,
            sorted_by(v@.take(i as int), key),
            key == rank_key::<T>(),
            v@.skip(i as int) == orig.skip(i as int),
            v@.to_multiset() == orig.to_multiset(),
            forall|k: Seq<char>| #[trigger] of_key(v@.take(i as int), key, k) == of_key(orig.take(i as int), key, k),
        decreases n - i,
    {
        let ghost before = v@;
        assert(before[i as int] == before.skip(i as int)[0]);
        assert(orig[i as int] == orig.skip(i as int)[0]);
        let x = v.remove(i);
        let ghost rest = v@;
        let ghost p = before.take(i as int);
        assert(rest.take(i as int) =~= p);
        let mut j: usize = i;
        while j > 0 && x.ranks_before(&v[j - 1])
            invariant
                j <= i < n,
                v@ == rest,
                rest.len() == n - 1,
                forall|m: int| j <= m < i ==> text_less(x.rank(), (#[trigger] rest[m]).rank()),
            decreases j,
        {
            j -= 1;
        }
        v.insert(j, x);
        proof {
            broadcast use {vstd::seq_lib::to_multiset_remove, vstd::seq_lib::to_multiset_insert};
            let next = v@.take(i + 1);
            assert(next =~= p.insert(j as int, x));
            assert(v@.skip(i + 1) =~= orig.skip(i + 1)) by {
                assert(rest.skip(i as int) =~= before.skip(i + 1));
                assert(before.skip(i + 1) =~= before.skip(i as int).skip(1));
                assert(orig.skip(i + 1) =~= orig.skip(i as int).skip(1));
            }
            assert(v@.to_multiset() =~= orig.to_multiset()) by {
                assert(rest.to_multiset() == before.to_multiset().remove(x));
                assert(v@.to_multiset() == rest.to_multiset().insert(x));
                assert(before.to_multiset().count(x) > 0) by {
                    before.to_multiset_ensures();
                    assert(before.contains(x));
                }
            }
            assert(sorted_by(next, key)) by {
                assert forall|a: int, b: int| 0 <= a < b < next.len() implies text_le(
                    #[trigger] key(next[a]),
                    #[trigger] key(next[b]),
                ) by {
                    assert(sorted_by(p, key));
                    if b < j {
                        assert(next[a] == p[a] && next[b] == p[b]);
                        assert(text_le(key(p[a]), key(p[b])));
                    } else if b == j {
                        assert(next[a] == p[a]);
                        if j > 0 {
                            assert(text_le(p[j - 1].rank(), x.rank()));
                            if a < j - 1 {
                                assert(text_le(key(p[a]), key(p[j - 1])));
                                lemma_text_le_transitive(p[a].rank(), p[j - 1].rank(), x.rank());
                            }
                        }
                    } else if a == j {
                        assert(next[b] == p[b - 1]);
                        assert(text_less(x.rank(), p[b - 1].rank()));
                        lemma_text_less_irreflexive(x.rank());
                        if text_less(p[b - 1].rank(), x.rank()) {
                            lemma_text_less_transitive(x.rank(), p[b - 1].rank(), x.rank());
                        }
                    } else if a < j {
                        assert(next[a] == p[a] && next[b] == p[b - 1]);
                        assert(text_le(key(p[a]), key(p[b - 1])));
                    } else {
                        assert(next[a] == p[a - 1] && next[b] == p[b - 1]);
                        assert(text_le(key(p[a - 1]), key(p[b - 1])));
                    }
                }
            }
            assert forall|k: Seq<char>| #[trigger]
                of_key(next, key, k) == of_key(orig.take(i + 1), key, k) by {
                lemma_insert_keeps_classes(p, j as int, x, key, k);
                assert(orig.take(i + 1) =~= orig.take(i as int).push(x));
                let pred = key_is(key, k);
                p.lemma_filter_push(x, pred);
                orig.take(i as int).lemma_filter_push(x, pred);
                assert(of_key(p, key, k) == of_key(orig.take(i as int), key, k));
            }
        }
        i += 1;
    }
    assert(v@.take(n as int) =~= v@);
    assert(orig.take(n as int) =~= orig);
}

} // verus!
