//! A canonical stable sort: insertion into a sorted prefix, always after
//! equal elements. The operator algebra and ingestion order rows with it.

use vstd::multiset::Multiset;
use vstd::prelude::*;

verus! {

broadcast use vstd::seq_lib::group_to_multiset_ensures;

/// The order `leq` relates every pair, one way or the other.
pub open spec fn leq_total<A>(leq: spec_fn(A, A) -> bool) -> bool {
    forall|a: A, b: A| #[trigger] leq(a, b) || #[trigger] leq(b, a)
}

/// The order `leq` is transitive.
pub open spec fn leq_trans<A>(leq: spec_fn(A, A) -> bool) -> bool {
    forall|a: A, b: A, c: A| #[trigger] leq(a, b) && #[trigger] leq(b, c) ==> leq(a, c)
}

/// Every pair of positions is ordered.
pub open spec fn sorted_by_leq<A>(s: Seq<A>, leq: spec_fn(A, A) -> bool) -> bool {
    forall|i: int, j: int| 0 <= i < j < s.len() ==> leq(#[trigger] s[i], #[trigger] s[j])
}

/// Insert `x` behind every element that is `leq` it, so that elements that
/// compare equal keep their arrival order.
pub open spec fn insert_sorted<A>(x: A, s: Seq<A>, leq: spec_fn(A, A) -> bool) -> Seq<A>
    decreases s.len(),
{
    if s.len() > 0 && leq(s[0], x) {
        seq![s[0]] + insert_sorted(x, s.skip(1), leq)
    } else {
        seq![x] + s
    }
}

/// The stable sort of `s` under `leq`: fold the elements, in order, into a
/// sorted sequence.
pub open spec fn isort<A>(s: Seq<A>, leq: spec_fn(A, A) -> bool) -> Seq<A>
    decreases s.len(),
{
    if s.len() == 0 {
        s
    } else {
        insert_sorted(s.last(), isort(s.drop_last(), leq), leq)
    }
}

pub proof fn lemma_insert_sorted_multiset<A>(x: A, s: Seq<A>, leq: spec_fn(A, A) -> bool)
    ensures
        insert_sorted(x, s, leq).to_multiset() == s.to_multiset().insert(x),
        insert_sorted(x, s, leq).len() == s.len() + 1,
    decreases s.len(),
{
    if s.len() > 0 && leq(s[0], x) {
        lemma_insert_sorted_multiset(x, s.skip(1), leq);
        let t = insert_sorted(x, s.skip(1), leq);
        assert((seq![s[0]] + t).to_multiset() =~= t.to_multiset().insert(s[0])) by {
            vstd::seq_lib::lemma_multiset_commutative(seq![s[0]], t);
            assert(seq![s[0]].to_multiset() =~= Multiset::<A>::empty().insert(s[0]));
        }
        assert(s =~= seq![s[0]] + s.skip(1));
        vstd::seq_lib::lemma_multiset_commutative(seq![s[0]], s.skip(1));
        assert(seq![s[0]].to_multiset() =~= Multiset::<A>::empty().insert(s[0]));
        assert(insert_sorted(x, s, leq).to_multiset() =~= s.to_multiset().insert(x));
    } else {
        vstd::seq_lib::lemma_multiset_commutative(seq![x], s);
        assert(seq![x].to_multiset() =~= Multiset::<A>::empty().insert(x));
        assert(insert_sorted(x, s, leq).to_multiset() =~= s.to_multiset().insert(x));
    }
}

pub proof fn lemma_insert_sorted_sorted<A>(x: A, s: Seq<A>, leq: spec_fn(A, A) -> bool)
    requires
        leq_total(leq),
        leq_trans(leq),
        sorted_by_leq(s, leq),
    ensures
        sorted_by_leq(insert_sorted(x, s, leq), leq),
    decreases s.len(),
{
    if s.len() > 0 && leq(s[0], x) {
        assert(sorted_by_leq(s.skip(1), leq)) by {
            assert(forall|i: int, j: int|
                0 <= i < j < s.skip(1).len() ==> leq(
                    #[trigger] s.skip(1)[i],
                    #[trigger] s.skip(1)[j],
                ));
        }
        lemma_insert_sorted_sorted(x, s.skip(1), leq);
        lemma_insert_sorted_multiset(x, s.skip(1), leq);
        let t = insert_sorted(x, s.skip(1), leq);
        let r = seq![s[0]] + t;
        assert forall|i: int, j: int| 0 <= i < j < r.len() implies leq(r[i], r[j]) by {
            if i == 0 {
                // r[j] is an element of t, so it is x or an element of s.skip(1)
                assert(t.to_multiset().contains(t[j - 1]));
                assert(t.to_multiset() == s.skip(1).to_multiset().insert(x));
                if t[j - 1] == x {
                } else {
                    assert(s.skip(1).to_multiset().contains(t[j - 1]));
                    assert(s.skip(1).contains(t[j - 1]));
                    let k = choose|k: int|
                        0 <= k < s.skip(1).len() && s.skip(1)[k] == t[j - 1];
                    assert(s[k + 1] == t[j - 1]);
                    assert(leq(s[0], s[k + 1]));
                }
            } else {
                assert(leq(t[i - 1], t[j - 1]));
            }
        }
    } else {
        let r = seq![x] + s;
        assert forall|i: int, j: int| 0 <= i < j < r.len() implies leq(r[i], r[j]) by {
            if i == 0 {
                if s.len() > 0 {
                    // !leq(s[0], x), so leq(x, s[0]) by totality, then transitivity
                    assert(leq(x, s[0]));
                    if j > 1 {
                        assert(leq(s[0], s[j - 1]));
                    }
                }
            } else {
                assert(leq(s[i - 1], s[j - 1]));
            }
        }
    }
}

pub proof fn lemma_isort_ensures<A>(s: Seq<A>, leq: spec_fn(A, A) -> bool)
    requires
        leq_total(leq),
        leq_trans(leq),
    ensures
        sorted_by_leq(isort(s, leq), leq),
        isort(s, leq).to_multiset() == s.to_multiset(),
        isort(s, leq).len() == s.len(),
    decreases s.len(),
{
    if s.len() > 0 {
        lemma_isort_ensures(s.drop_last(), leq);
        lemma_insert_sorted_sorted(s.last(), isort(s.drop_last(), leq), leq);
        lemma_insert_sorted_multiset(s.last(), isort(s.drop_last(), leq), leq);
        assert(s.drop_last().push(s.last()) =~= s);
        vstd::seq_lib::lemma_multiset_commutative(s.drop_last(), seq![s.last()]);
        assert(s.drop_last() + seq![s.last()] =~= s);
        assert(seq![s.last()].to_multiset() =~= Multiset::<A>::empty().insert(s.last()));
        assert(isort(s, leq).to_multiset() =~= s.to_multiset());
    }
}

/// Inserting an element that every element of `s` precedes appends it.
pub proof fn lemma_insert_sorted_at_end<A>(x: A, s: Seq<A>, leq: spec_fn(A, A) -> bool)
    requires
        forall|i: int| 0 <= i < s.len() ==> leq(#[trigger] s[i], x),
    ensures
        insert_sorted(x, s, leq) == s.push(x),
    decreases s.len(),
{
    if s.len() > 0 && leq(s[0], x) {
        lemma_insert_sorted_at_end(x, s.skip(1), leq);
        assert(insert_sorted(x, s, leq) =~= s.push(x));
    } else {
        assert(insert_sorted(x, s, leq) =~= s.push(x));
    }
}

/// Sorting an already sorted sequence gives it back unchanged.
pub proof fn lemma_isort_of_sorted<A>(s: Seq<A>, leq: spec_fn(A, A) -> bool)
    requires
        sorted_by_leq(s, leq),
    ensures
        isort(s, leq) == s,
    decreases s.len(),
{
    if s.len() > 0 {
        assert(sorted_by_leq(s.drop_last(), leq)) by {
            assert(forall|i: int, j: int|
                0 <= i < j < s.drop_last().len() ==> leq(
                    #[trigger] s.drop_last()[i],
                    #[trigger] s.drop_last()[j],
                ));
        }
        lemma_isort_of_sorted(s.drop_last(), leq);
        assert(forall|i: int| 0 <= i < s.drop_last().len() ==> leq(#[trigger] s.drop_last()[i], s.last()));
        lemma_insert_sorted_at_end(s.last(), s.drop_last(), leq);
        assert(s.drop_last().push(s.last()) =~= s);
    }
}

/// Sorting is idempotent.
pub proof fn lemma_isort_idempotent<A>(s: Seq<A>, leq: spec_fn(A, A) -> bool)
    requires
        leq_total(leq),
        leq_trans(leq),
    ensures
        isort(isort(s, leq), leq) == isort(s, leq),
{
    lemma_isort_ensures(s, leq);
    lemma_isort_of_sorted(isort(s, leq), leq);
}

/// Where the scan of an insertion stops, the inserted element stands.
pub proof fn lemma_insert_sorted_at_pos<A>(x: A, s: Seq<A>, leq: spec_fn(A, A) -> bool, p: int)
    requires
        0 <= p <= s.len(),
        forall|k: int| 0 <= k < p ==> leq(#[trigger] s[k], x),
        p < s.len() ==> !leq(s[p], x),
    ensures
        insert_sorted(x, s, leq) == s.insert(p, x),
    decreases p,
{
    if p > 0 {
        lemma_insert_sorted_at_pos(x, s.skip(1), leq, p - 1);
        assert(insert_sorted(x, s, leq) =~= s.insert(p, x));
    } else {
        assert(insert_sorted(x, s, leq) =~= s.insert(p, x));
    }
}

} // verus!

verus! {

/// Two elements the order cannot tell apart.
pub open spec fn tied<A>(leq: spec_fn(A, A) -> bool, a: A, b: A) -> bool {
    leq(a, b) && leq(b, a)
}

proof fn lemma_insert_tied<A>(x: A, s: Seq<A>, leq: spec_fn(A, A) -> bool, y: A)
    requires
        leq_total(leq),
        leq_trans(leq),
        sorted_by_leq(s, leq),
        tied(leq, x, y),
    ensures
        insert_sorted(x, s, leq).filter(|e: A| tied(leq, e, y)) == s.filter(
            |e: A| tied(leq, e, y),
        ).push(x),
    decreases s.len(),
{
    reveal(Seq::filter);
    let p = |e: A| tied(leq, e, y);
    if s.len() > 0 && leq(s[0], x) {
        assert(sorted_by_leq(s.skip(1), leq)) by {
            assert(forall|i: int, j: int|
                0 <= i < j < s.skip(1).len() ==> leq(
                    #[trigger] s.skip(1)[i],
                    #[trigger] s.skip(1)[j],
                ));
        }
        lemma_insert_tied(x, s.skip(1), leq, y);
        let t = insert_sorted(x, s.skip(1), leq);
        assert((seq![s[0]] + t).filter(p) == seq![s[0]].filter(p) + t.filter(p)) by {
            Seq::<A>::filter_distributes_over_add(seq![s[0]], t, p);
        }
        assert((seq![s[0]] + s.skip(1)).filter(p) == seq![s[0]].filter(p) + s.skip(1).filter(p))
            by {
            Seq::<A>::filter_distributes_over_add(seq![s[0]], s.skip(1), p);
        }
        assert(s =~= seq![s[0]] + s.skip(1));
        assert(seq![s[0]].filter(p) + s.skip(1).filter(p).push(x) =~= (seq![s[0]].filter(p)
            + s.skip(1).filter(p)).push(x));
    } else {
        // Every element of `s` tied to `y` would precede `x`, yet none may:
        // the head does not, and the rest are at least the head.
        assert forall|i: int| 0 <= i < s.len() implies !p(s[i]) by {
            if p(s[i]) {
                assert(leq(s[i], y) && leq(y, x));
                assert(leq(s[i], x));
                if i > 0 {
                    assert(leq(s[0], s[i]));
                    assert(leq(s[0], x));
                } else {
                    assert(leq(s[0], x));
                }
            }
        }
        s.lemma_all_neg_filter_empty(p);
        assert((seq![x] + s).filter(p) == seq![x].filter(p) + s.filter(p)) by {
            Seq::<A>::filter_distributes_over_add(seq![x], s, p);
        }
        assert(seq![x].drop_last() =~= Seq::<A>::empty());
        assert(seq![x].filter(p) =~= Seq::<A>::empty().push(x));
        assert(Seq::<A>::empty().push(x) + Seq::<A>::empty() =~= s.filter(p).push(x));
    }
}

proof fn lemma_insert_untied<A>(x: A, s: Seq<A>, leq: spec_fn(A, A) -> bool, y: A)
    requires
        !tied(leq, x, y),
    ensures
        insert_sorted(x, s, leq).filter(|e: A| tied(leq, e, y)) == s.filter(
            |e: A| tied(leq, e, y),
        ),
    decreases s.len(),
{
    reveal(Seq::filter);
    let p = |e: A| tied(leq, e, y);
    if s.len() > 0 && leq(s[0], x) {
        lemma_insert_untied(x, s.skip(1), leq, y);
        let t = insert_sorted(x, s.skip(1), leq);
        assert((seq![s[0]] + t).filter(p) == seq![s[0]].filter(p) + t.filter(p)) by {
            Seq::<A>::filter_distributes_over_add(seq![s[0]], t, p);
        }
        assert((seq![s[0]] + s.skip(1)).filter(p) == seq![s[0]].filter(p) + s.skip(1).filter(p))
            by {
            Seq::<A>::filter_distributes_over_add(seq![s[0]], s.skip(1), p);
        }
        assert(s =~= seq![s[0]] + s.skip(1));
    } else {
        assert((seq![x] + s).filter(p) == seq![x].filter(p) + s.filter(p)) by {
            Seq::<A>::filter_distributes_over_add(seq![x], s, p);
        }
        assert(seq![x].drop_last() =~= Seq::<A>::empty());
        assert(Seq::<A>::empty().filter(p) =~= Seq::<A>::empty());
        assert(seq![x].filter(p) =~= Seq::<A>::empty());
        assert(Seq::<A>::empty() + s.filter(p) =~= s.filter(p));
    }
}

/// The sort is stable: the elements tied with any pivot come out as the same
/// subsequence, in their arrival order.
pub proof fn lemma_isort_stable<A>(s: Seq<A>, leq: spec_fn(A, A) -> bool, y: A)
    requires
        leq_total(leq),
        leq_trans(leq),
    ensures
        isort(s, leq).filter(|e: A| tied(leq, e, y)) == s.filter(|e: A| tied(leq, e, y)),
    decreases s.len(),
{
    reveal(Seq::filter);
    let p = |e: A| tied(leq, e, y);
    if s.len() > 0 {
        lemma_isort_stable(s.drop_last(), leq, y);
        lemma_isort_ensures(s.drop_last(), leq);
        let rest = isort(s.drop_last(), leq);
        if tied(leq, s.last(), y) {
            lemma_insert_tied(s.last(), rest, leq, y);
            assert(s.drop_last().filter(p).push(s.last()) == s.filter(p));
        } else {
            lemma_insert_untied(s.last(), rest, leq, y);
            assert(s.drop_last().filter(p) == s.filter(p));
        }
    }
}

} // verus!
