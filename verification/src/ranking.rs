//! Ordering search results by score, keeping equal scores in the order they came in.

use vstd::prelude::*;
use crate::emoji::{ResultView, SearchResult, result_views};

verus! {

/// Scores never decrease along `s`.
pub open spec fn sorted_by_score(s: Seq<ResultView>) -> bool {
    forall|i: int, j: int| 0 <= i <= j < s.len() ==> (#[trigger] s[i]).score <= (#[trigger] s[j]).score
}

/// The results of `s` that have score `k`, in their order in `s`.
pub open spec fn with_score(s: Seq<ResultView>, k: u32) -> Seq<ResultView>
    decreases s.len(),
{
    if s.len() == 0 {
        seq![]
    } else if s.last().score == k {
        with_score(s.drop_last(), k).push(s.last())
    } else {
        with_score(s.drop_last(), k)
    }
}

/// `sorted` is `s` ordered by score, results of equal score kept in the order of `s`.
pub open spec fn is_stable_sort_of(sorted: Seq<ResultView>, s: Seq<ResultView>) -> bool {
    &&& sorted_by_score(sorted)
    &&& forall|k: u32| #[trigger] with_score(sorted, k) == with_score(s, k)
}

/// Picking results of one score commutes with concatenation.
pub proof fn lemma_with_score_add(a: Seq<ResultView>, b: Seq<ResultView>, k: u32)
    ensures
        with_score(a + b, k) == with_score(a, k) + with_score(b, k),
    decreases b.len(),
{
    if b.len() == 0 {
        assert(a + b == a);
        assert(with_score(a, k) + with_score(b, k) == with_score(a, k));
    } else {
        assert((a + b).drop_last() == a + b.drop_last());
        lemma_with_score_add(a, b.drop_last(), k);
        if b.last().score == k {
            assert(with_score(a, k) + with_score(b.drop_last(), k).push(b.last()) == (with_score(
                a,
                k,
            ) + with_score(b.drop_last(), k)).push(b.last()));
        }
    }
}

/// No result of `s` has score `k`, so none is picked.
pub proof fn lemma_with_score_none(s: Seq<ResultView>, k: u32)
    requires
        forall|i: int| 0 <= i < s.len() ==> (#[trigger] s[i]).score != k,
    ensures
        with_score(s, k) == Seq::<ResultView>::empty(),
    decreases s.len(),
{
    if s.len() > 0 {
        lemma_with_score_none(s.drop_last(), k);
    }
}

/// A single result is picked exactly for its own score.
pub proof fn lemma_with_score_single(x: ResultView, k: u32)
    ensures
        with_score(seq![x], k) == if x.score == k { seq![x] } else { Seq::<ResultView>::empty() },
{
    assert(seq![x].drop_last() == Seq::<ResultView>::empty());
    assert(with_score(Seq::<ResultView>::empty(), k) == Seq::<ResultView>::empty());
    assert(Seq::<ResultView>::empty().push(x) == seq![x]);
}

/// Results with score `k` are picked exactly when one occurs.
pub proof fn lemma_with_score_nonempty(s: Seq<ResultView>, k: u32)
    ensures
        with_score(s, k).len() > 0 <==> exists|i: int| 0 <= i < s.len() && (#[trigger] s[i]).score == k,
    decreases s.len(),
{
    if s.len() > 0 {
        lemma_with_score_nonempty(s.drop_last(), k);
        if exists|i: int| 0 <= i < s.len() && (#[trigger] s[i]).score == k {
            let i = choose|i: int| 0 <= i < s.len() && (#[trigger] s[i]).score == k;
            if i < s.len() - 1 {
                assert(s.drop_last()[i] == s[i]);
            }
        }
        if with_score(s.drop_last(), k).len() > 0 {
            let i = choose|i: int| 0 <= i < s.drop_last().len() && (#[trigger] s.drop_last()[i]).score == k;
            assert(s[i] == s.drop_last()[i]);
        }
    }
}

/// Two lists ordered by score that pick the same results for every score are equal.
proof fn lemma_sorted_same_picks_equal(a: Seq<ResultView>, b: Seq<ResultView>)
    requires
        sorted_by_score(a),
        sorted_by_score(b),
        forall|k: u32| #[trigger] with_score(a, k) == with_score(b, k),
    ensures
        a == b,
    decreases a.len() + b.len(),
{
    if a.len() == 0 || b.len() == 0 {
        if b.len() > 0 {
            let k = b.last().score;
            lemma_with_score_nonempty(b, k);
            lemma_with_score_nonempty(a, k);
            assert(b[b.len() - 1].score == k);
            assert(with_score(a, k) == with_score(b, k));
        }
        if a.len() > 0 {
            let k = a.last().score;
            lemma_with_score_nonempty(a, k);
            lemma_with_score_nonempty(b, k);
            assert(a[a.len() - 1].score == k);
            assert(with_score(a, k) == with_score(b, k));
        }
        assert(a =~= b);
    } else {
        let ka = a.last().score;
        let kb = b.last().score;
        lemma_with_score_nonempty(a, ka);
        lemma_with_score_nonempty(b, ka);
        lemma_with_score_nonempty(a, kb);
        lemma_with_score_nonempty(b, kb);
        assert(a[a.len() - 1].score == ka);
        assert(b[b.len() - 1].score == kb);
        assert(with_score(a, ka) == with_score(b, ka));
        assert(with_score(a, kb) == with_score(b, kb));
        let j = choose|j: int| 0 <= j < b.len() && (#[trigger] b[j]).score == ka;
        assert(b[j].score <= b[b.len() - 1].score);
        let m = choose|m: int| 0 <= m < a.len() && (#[trigger] a[m]).score == kb;
        assert(a[m].score <= a[a.len() - 1].score);
        assert(ka == kb);
        let pa = with_score(a.drop_last(), ka);
        let pb = with_score(b.drop_last(), ka);
        assert(pa.push(a.last()) == pb.push(b.last()));
        assert(pa == pa.push(a.last()).drop_last());
        assert(pb == pb.push(b.last()).drop_last());
        assert(a.last() == pa.push(a.last()).last());
        assert(b.last() == pb.push(b.last()).last());
        assert forall|k: u32| #[trigger] with_score(a.drop_last(), k) == with_score(b.drop_last(), k) by {
            assert(with_score(a, k) == with_score(b, k));
        }
        assert forall|x: int, y: int| 0 <= x <= y < a.drop_last().len() implies (
        #[trigger] a.drop_last()[x]).score <= (#[trigger] a.drop_last()[y]).score by {
            assert(a[x].score <= a[y].score);
        }
        assert forall|x: int, y: int| 0 <= x <= y < b.drop_last().len() implies (
        #[trigger] b.drop_last()[x]).score <= (#[trigger] b.drop_last()[y]).score by {
            assert(b[x].score <= b[y].score);
        }
        lemma_sorted_same_picks_equal(a.drop_last(), b.drop_last());
        assert(a == a.drop_last().push(a.last()));
        assert(b == b.drop_last().push(b.last()));
    }
}

/// Ordering by score while keeping equal scores in order has exactly one outcome.
pub proof fn law_stable_sort_unique(a: Seq<ResultView>, b: Seq<ResultView>, s: Seq<ResultView>)
    requires
        is_stable_sort_of(a, s),
        is_stable_sort_of(b, s),
    ensures
        a == b,
{
    assert forall|k: u32| #[trigger] with_score(a, k) == with_score(b, k) by {
        assert(with_score(a, k) == with_score(s, k));
        assert(with_score(b, k) == with_score(s, k));
    }
    lemma_sorted_same_picks_equal(a, b);
}

/// Sorts results by score, keeping results of equal score in their order.
pub fn sort_by_score(items: Vec<SearchResult>) -> (out: Vec<SearchResult>)
    ensures
        is_stable_sort_of(result_views(out@), result_views(items@)),
        out@.len() == items@.len(),
{
    let ghost all = result_views(items@);
    let mut rest = items;
    let mut out: Vec<SearchResult> = Vec::new();
    while rest.len() > 0
        invariant
            rest@.len() <= all.len(),
            result_views(rest@) == all.take(rest@.len() as int),
            all.len() == items@.len(),
            all == result_views(items@),
            out@.len() + rest@.len() == all.len(),
            sorted_by_score(result_views(out@)),
            forall|k: u32| #[trigger] with_score(result_views(out@), k) == with_score(all.skip(rest@.len() as int), k),
        decreases rest@.len(),
    {
        let ghost before = result_views(out@);
        let ghost i = rest@.len() - 1;
        let ghost old_rest = rest@;
        let x = rest.pop().unwrap();
        assert(all.take(old_rest.len() as int)[i] == result_views(old_rest)[i]);
        assert(x@ == all[i]);
        assert(result_views(rest@) == all.take(i));
        // first position whose score is not below the new result's
        let mut p: usize = 0;
        while p < out.len() && out[p].score < x.score
            invariant
                p <= out@.len(),
                forall|j: int| 0 <= j < p ==> (#[trigger] out@[j]).score < x.score,
            decreases out@.len() - p,
        {
            p = p + 1;
        }
        proof {
            assert forall|j: int| 0 <= j < p implies (#[trigger] before[j]).score < x.score by {
                assert(before[j] == out@[j]@);
            }
        }
        out.insert(p, x);
        proof {
            let after = result_views(out@);
            assert(after == before.take(p as int) + seq![x@] + before.skip(p as int));
            assert(before == before.take(p as int) + before.skip(p as int));
            assert(all.skip(i) == seq![x@] + all.skip(i + 1));
            assert forall|a: int, b: int| 0 <= a <= b < after.len() implies (#[trigger] after[a]).score
                <= (#[trigger] after[b]).score by {
                if a < p && b > p {
                    assert(before[b - 1].score >= before[p as int].score);
                }
                if a == p && b > p {
                    assert(before[b - 1].score >= before[p as int].score);
                }
                if a > p {
                    assert(before[a - 1].score <= before[b - 1].score);
                }
                if a < p && b < p {
                    assert(before[a].score <= before[b].score);
                }
            }
            assert forall|k: u32| #[trigger] with_score(after, k) == with_score(all.skip(i), k) by {
                lemma_with_score_add(before.take(p as int) + seq![x@], before.skip(p as int), k);
                lemma_with_score_add(before.take(p as int), seq![x@], k);
                lemma_with_score_add(before.take(p as int), before.skip(p as int), k);
                lemma_with_score_add(seq![x@], all.skip(i + 1), k);
                lemma_with_score_single(x@, k);
                if k == x.score {
                    assert forall|j: int| 0 <= j < before.take(p as int).len() implies (
                    #[trigger] before.take(p as int)[j]).score != k by {
                        assert(before.take(p as int)[j] == before[j]);
                    }
                    lemma_with_score_none(before.take(p as int), k);
                    assert(with_score(before.take(p as int), k) + seq![x@] + with_score(
                        before.skip(p as int),
                        k,
                    ) == seq![x@] + (with_score(before.take(p as int), k) + with_score(
                        before.skip(p as int),
                        k,
                    )));
                } else {
                    assert(with_score(before.take(p as int), k) + Seq::<ResultView>::empty()
                        == with_score(before.take(p as int), k));
                    assert(Seq::<ResultView>::empty() + with_score(all.skip(i + 1), k) == with_score(
                        all.skip(i + 1),
                        k,
                    ));
                }
            }
        }
    }
    assert(all.skip(0) == all);
    out
}

} // verus!
