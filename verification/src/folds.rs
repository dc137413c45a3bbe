//! Small general lemmas about filtered sequences, used by the loop
//! proofs throughout the library.

use vstd::prelude::*;

verus! {

/// Extending a prefix by one element extends its filtered image by that
/// element exactly when the element satisfies the predicate.
pub proof fn lemma_filter_take_step<A>(s: Seq<A>, pred: spec_fn(A) -> bool, i: int)
    requires
        0 <= i < s.len(),
    ensures
        s.take(i + 1).filter(pred) == if pred(s[i]) {
            s.take(i).filter(pred).push(s[i])
        } else {
            s.take(i).filter(pred)
        },
{
    let t = s.take(i + 1);
    assert(t.drop_last() =~= s.take(i));
    assert(t.last() == s[i]);
    reveal_with_fuel(Seq::filter, 2);
    if pred(s[i]) {
        assert(t.filter(pred) == t.drop_last().filter(pred).push(t.last()));
    } else {
        assert(t.filter(pred) == t.drop_last().filter(pred));
    }
}

/// Filtering a sequence of pairwise-distinct elements yields
/// pairwise-distinct elements.
pub proof fn lemma_filter_distinct<A>(s: Seq<A>, pred: spec_fn(A) -> bool)
    requires
        forall|i: int, j: int| 0 <= i < j < s.len() ==> #[trigger] s[i] != #[trigger] s[j],
    ensures
        forall|i: int, j: int|
            0 <= i < j < s.filter(pred).len() ==> #[trigger] s.filter(pred)[i] != #[trigger] s.filter(
                pred,
            )[j],
    decreases s.len(),
{
    reveal_with_fuel(Seq::filter, 2);
    if s.len() == 0 {
    } else {
        let t = s.drop_last();
        assert(forall|i: int, j: int| 0 <= i < j < t.len() ==> #[trigger] t[i] != #[trigger] t[j]);
        lemma_filter_distinct(t, pred);
        let ft = t.filter(pred);
        let fs = s.filter(pred);
        assert forall|i: int, j: int| 0 <= i < j < fs.len() implies #[trigger] fs[i]
            != #[trigger] fs[j] by {
            if pred(s.last()) {
                assert(fs == ft.push(s.last()));
                if j < fs.len() - 1 {
                    assert(fs[i] == ft[i] && fs[j] == ft[j]);
                } else {
                    assert(fs[j] == s.last());
                    assert(fs[i] == ft[i]);
                    lemma_filter_sub(t, pred, i);
                    let w = choose|w: int| 0 <= w < t.len() && t[w] == ft[i];
                    assert(s[w] == t[w]);
                    assert(s[w] != s.last());
                }
            } else {
                assert(fs == ft);
            }
        }
    }
}

/// Every element of a filtered sequence occurs in the sequence it was
/// filtered from, and satisfies the predicate.
pub proof fn lemma_filter_sub<A>(s: Seq<A>, pred: spec_fn(A) -> bool, i: int)
    requires
        0 <= i < s.filter(pred).len(),
    ensures
        s.contains(s.filter(pred)[i]),
        pred(s.filter(pred)[i]),
    decreases s.len(),
{
    reveal_with_fuel(Seq::filter, 2);
    if s.len() == 0 {
    } else {
        let f = s.filter(pred);
        let t = s.drop_last();
        if pred(s.last()) {
            if i < f.len() - 1 {
                lemma_filter_sub(t, pred, i);
                assert(f[i] == t.filter(pred)[i]);
                let w = choose|w: int| 0 <= w < t.len() && t[w] == f[i];
                assert(s[w] == f[i]);
            } else {
                assert(f[i] == s.last());
                assert(s[s.len() - 1] == s.last());
            }
        } else {
            lemma_filter_sub(t, pred, i);
            let w = choose|w: int| 0 <= w < t.len() && t[w] == f[i];
            assert(s[w] == f[i]);
        }
    }
}

/// Predicates that agree on every element of a sequence filter it to
/// the same result.
pub proof fn lemma_filter_congruent<A>(s: Seq<A>, p1: spec_fn(A) -> bool, p2: spec_fn(A) -> bool)
    requires
        forall|i: int| 0 <= i < s.len() ==> p1(#[trigger] s[i]) == p2(s[i]),
    ensures
        s.filter(p1) == s.filter(p2),
    decreases s.len(),
{
    reveal_with_fuel(Seq::filter, 2);
    if s.len() == 0 {
    } else {
        let t = s.drop_last();
        assert(forall|i: int| 0 <= i < t.len() ==> p1(#[trigger] t[i]) == p2(t[i]));
        lemma_filter_congruent(t, p1, p2);
        assert(p1(s.last()) == p2(s.last()));
    }
}

/// A predicate that implies another keeps at most as many elements,
/// and strictly fewer as soon as the sequence holds an element that
/// only the weaker predicate accepts.
pub proof fn lemma_filter_monotone<A>(s: Seq<A>, p1: spec_fn(A) -> bool, p2: spec_fn(A) -> bool)
    requires
        forall|i: int| 0 <= i < s.len() ==> (p2(#[trigger] s[i]) ==> p1(s[i])),
    ensures
        s.filter(p2).len() <= s.filter(p1).len(),
        forall|i: int|
            0 <= i < s.len() && p1(#[trigger] s[i]) && !p2(s[i]) ==> s.filter(p2).len() < s.filter(
                p1,
            ).len(),
    decreases s.len(),
{
    reveal_with_fuel(Seq::filter, 2);
    if s.len() == 0 {
    } else {
        let t = s.drop_last();
        assert(forall|i: int| 0 <= i < t.len() ==> (p2(#[trigger] t[i]) ==> p1(t[i])));
        lemma_filter_monotone(t, p1, p2);
        assert forall|i: int|
            0 <= i < s.len() && p1(#[trigger] s[i]) && !p2(s[i]) implies s.filter(p2).len()
            < s.filter(p1).len() by {
            if i < t.len() {
                assert(t[i] == s[i]);
                assert(t.filter(p2).len() < t.filter(p1).len());
            } else {
                assert(s[i] == s.last());
            }
        }
    }
}

/// A full take is the sequence itself; convenient at loop exit.
pub proof fn lemma_take_full<A>(s: Seq<A>)
    ensures
        s.take(s.len() as int) == s,
{
    assert(s.take(s.len() as int) =~= s);
}

} // verus!
