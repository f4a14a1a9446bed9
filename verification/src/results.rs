//! Search results and the relevancy filter.

use vstd::prelude::*;
use crate::bits::at_most;
use crate::bits::is_nan;
use crate::distance::{lemma_relevancy_monotone, Distance, RELEVANCY_DISABLED};
use crate::metadata::{Metadata, MetadataView};

verus! {

/// A search result as a mathematical value.
pub struct ResultView {
    pub id: u32,
    pub distance: u32,
    pub data: MetadataView,
}

/// The collection nearest neighbor search result.
#[derive(Debug)]
pub struct SearchResult {
    /// Vector ID.
    pub id: u32,
    /// Distance between the query and the collection vector, as the kernel
    /// gave it.
    pub distance: u32,
    /// Data associated with the vector.
    pub data: Metadata,
}

impl View for SearchResult {
    type V = ResultView;

    open spec fn view(&self) -> ResultView {
        ResultView { id: self.id, distance: self.distance, data: self.data@ }
    }
}

/// The results of a list as mathematical values.
pub open spec fn result_views(s: Seq<SearchResult>) -> Seq<ResultView> {
    Seq::new(s.len(), |i: int| s[i]@)
}

/// Of the first `n` results, those whose distance passes the relevancy
/// threshold, in their order.
pub open spec fn relevant_prefix(
    kind: Distance,
    relevancy: u32,
    results: Seq<ResultView>,
    n: nat,
) -> Seq<ResultView>
    decreases n,
{
    if n == 0 {
        Seq::empty()
    } else if kind.spec_is_relevant(results[n - 1].distance, relevancy) {
        relevant_prefix(kind, relevancy, results, (n - 1) as nat).push(results[n - 1])
    } else {
        relevant_prefix(kind, relevancy, results, (n - 1) as nat)
    }
}

/// The results whose distance passes the relevancy threshold, in their
/// order.
pub open spec fn relevant(kind: Distance, relevancy: u32, results: Seq<ResultView>) -> Seq<ResultView> {
    relevant_prefix(kind, relevancy, results, results.len())
}

/// The filter keeps results of the list, in their order, and each of them
/// passes the threshold.
pub proof fn lemma_relevant_prefix(kind: Distance, relevancy: u32, results: Seq<ResultView>, n: nat)
    requires
        n <= results.len(),
    ensures
        relevant_prefix(kind, relevancy, results, n).len() <= n,
        forall|i: int|
            0 <= i < relevant_prefix(kind, relevancy, results, n).len() ==> kind.spec_is_relevant(
                (#[trigger] relevant_prefix(kind, relevancy, results, n)[i]).distance,
                relevancy,
            ),
        forall|i: int|
            0 <= i < relevant_prefix(kind, relevancy, results, n).len() ==> exists|j: int|
                i <= j < n && results[j] == #[trigger] relevant_prefix(kind, relevancy, results, n)[i],
        forall|a: int, b: int|
            0 <= a < b < relevant_prefix(kind, relevancy, results, n).len() ==> exists|j: int, k: int|
                0 <= j < k < n && results[j] == #[trigger] relevant_prefix(kind, relevancy, results, n)[a]
                    && results[k] == #[trigger] relevant_prefix(kind, relevancy, results, n)[b],
    decreases n,
{
    if n > 0 {
        lemma_relevant_prefix(kind, relevancy, results, (n - 1) as nat);
        let shorter = relevant_prefix(kind, relevancy, results, (n - 1) as nat);
        let longer = relevant_prefix(kind, relevancy, results, n);
        assert forall|i: int| 0 <= i < longer.len() implies exists|j: int|
            i <= j < n && results[j] == #[trigger] longer[i] by {
            if i < shorter.len() {
                let j = choose|j: int| i <= j < n - 1 && results[j] == shorter[i];
                assert(results[j] == longer[i]);
            } else {
                assert(results[n - 1] == longer[i]);
            }
        }
        assert forall|a: int, b: int| 0 <= a < b < longer.len() implies exists|j: int, k: int|
            0 <= j < k < n && results[j] == #[trigger] longer[a] && results[k] == #[trigger] longer[b] by {
            if b < shorter.len() {
                let (j, k) = choose|j: int, k: int|
                    0 <= j < k < n - 1 && results[j] == shorter[a] && results[k] == shorter[b];
                assert(results[j] == longer[a] && results[k] == longer[b]);
            } else {
                let j = choose|j: int| a <= j < n - 1 && results[j] == shorter[a];
                assert(results[j] == longer[a] && results[n - 1] == longer[b]);
            }
        }
    }
}

/// With the filter switched off every result is kept.
pub proof fn lemma_relevant_disabled(kind: Distance, results: Seq<ResultView>, n: nat)
    requires
        n <= results.len(),
    ensures
        relevant_prefix(kind, RELEVANCY_DISABLED, results, n) == results.take(n as int),
    decreases n,
{
    if n > 0 {
        lemma_relevant_disabled(kind, results, (n - 1) as nat);
        assert(results.take(n as int) =~= results.take(n - 1).push(results[n - 1]));
    } else {
        assert(results.take(0) =~= Seq::<ResultView>::empty());
    }
}

/// The filter goes by the first `n` results only.
pub proof fn lemma_relevant_prefix_of_push(
    kind: Distance,
    relevancy: u32,
    results: Seq<ResultView>,
    last: ResultView,
    n: nat,
)
    requires
        n <= results.len(),
    ensures
        relevant_prefix(kind, relevancy, results.push(last), n) == relevant_prefix(
            kind,
            relevancy,
            results,
            n,
        ),
    decreases n,
{
    if n > 0 {
        lemma_relevant_prefix_of_push(kind, relevancy, results, last, (n - 1) as nat);
        assert(results.push(last)[n - 1] == results[n - 1]);
    }
}

/// Raising the bar never adds a result: what passes a stricter threshold
/// is what passes it among the results that pass a looser one. For a
/// kernel where lower is nearer the stricter threshold is the lower one,
/// otherwise the higher one; the stricter threshold must not be the value
/// that switches the filter off.
pub proof fn lemma_relevant_monotone(
    kind: Distance,
    strict: u32,
    loose: u32,
    results: Seq<ResultView>,
    n: nat,
)
    requires
        n <= results.len(),
        strict != RELEVANCY_DISABLED,
        loose == RELEVANCY_DISABLED || if kind.spec_lower_is_better() {
            at_most(strict, loose)
        } else {
            at_most(loose, strict)
        },
    ensures
        relevant_prefix(kind, strict, results, n) == relevant(
            kind,
            strict,
            relevant_prefix(kind, loose, results, n),
        ),
        relevant_prefix(kind, strict, results, n).len() <= relevant_prefix(kind, loose, results, n).len(),
    decreases n,
{
    if n > 0 {
        let m = (n - 1) as nat;
        lemma_relevant_monotone(kind, strict, loose, results, m);
        let last = results[n - 1];
        let loose_before = relevant_prefix(kind, loose, results, m);
        if kind.spec_is_relevant(last.distance, strict) {
            lemma_relevancy_monotone(kind, strict, loose, last.distance);
        }
        if kind.spec_is_relevant(last.distance, loose) {
            let loose_after = loose_before.push(last);
            lemma_relevant_prefix_of_push(kind, strict, loose_before, last, loose_before.len());
            assert(loose_after[loose_after.len() - 1] == last);
        }
    }
    lemma_relevant_prefix(kind, strict, relevant_prefix(kind, loose, results, n), relevant_prefix(kind, loose, results, n).len());
}

/// The order of results: by the rank of the distance in the kernel's
/// order, then by identifier.
pub open spec fn result_precedes(kind: Distance, a: ResultView, b: ResultView) -> bool {
    kind.spec_rank(a.distance) < kind.spec_rank(b.distance) || (kind.spec_rank(a.distance)
        == kind.spec_rank(b.distance) && a.id < b.id)
}

/// No result precedes an earlier one: the results come nearest first, and
/// among equal distances the smaller identifier first.
pub open spec fn results_ordered(kind: Distance, s: Seq<ResultView>) -> bool {
    forall|i: int, j: int|
        0 <= i < j < s.len() ==> !result_precedes(kind, #[trigger] s[j], #[trigger] s[i])
}

/// No identifier occurs twice among the results.
pub open spec fn results_distinct(s: Seq<ResultView>) -> bool {
    forall|i: int, j: int| 0 <= i < j < s.len() ==> (#[trigger] s[i]).id != (#[trigger] s[j]).id
}

/// The results that a query gets of what was found: those that pass the
/// relevancy threshold, and of them the first `n`.
pub open spec fn selected(kind: Distance, relevancy: u32, found: Seq<ResultView>, n: nat) -> Seq<
    ResultView,
> {
    let kept = relevant(kind, relevancy, found);
    if n < kept.len() {
        kept.take(n as int)
    } else {
        kept
    }
}

/// The filter keeps the order of the results and repeats none.
pub proof fn lemma_relevant_keeps_order(kind: Distance, relevancy: u32, found: Seq<ResultView>)
    requires
        results_ordered(kind, found),
        results_distinct(found),
    ensures
        results_ordered(kind, relevant(kind, relevancy, found)),
        results_distinct(relevant(kind, relevancy, found)),
{
    let kept = relevant(kind, relevancy, found);
    lemma_relevant_prefix(kind, relevancy, found, found.len());
    assert forall|a: int, b: int| 0 <= a < b < kept.len() implies !result_precedes(
        kind,
        #[trigger] kept[b],
        #[trigger] kept[a],
    ) && kept[a].id != kept[b].id by {
        let (j, k) = choose|j: int, k: int|
            0 <= j < k < found.len() && found[j] == kept[a] && found[k] == kept[b];
        assert(!result_precedes(kind, found[k], found[j]));
        assert(found[j].id != found[k].id);
    }
}

/// What a query gets is ordered, repeats no record, passes the threshold,
/// is among what was found and has at most `n` results.
pub proof fn lemma_selected(kind: Distance, relevancy: u32, found: Seq<ResultView>, n: nat)
    requires
        results_ordered(kind, found),
        results_distinct(found),
    ensures
        results_ordered(kind, selected(kind, relevancy, found, n)),
        results_distinct(selected(kind, relevancy, found, n)),
        selected(kind, relevancy, found, n).len() <= n,
        selected(kind, relevancy, found, n).len() <= found.len(),
        forall|i: int|
            0 <= i < selected(kind, relevancy, found, n).len() ==> kind.spec_is_relevant(
                (#[trigger] selected(kind, relevancy, found, n)[i]).distance,
                relevancy,
            ) && found.contains(selected(kind, relevancy, found, n)[i]),
{
    let kept = relevant(kind, relevancy, found);
    let out = selected(kind, relevancy, found, n);
    lemma_relevant_keeps_order(kind, relevancy, found);
    lemma_relevant_prefix(kind, relevancy, found, found.len());
    assert forall|i: int| 0 <= i < out.len() implies kind.spec_is_relevant(
        (#[trigger] out[i]).distance,
        relevancy,
    ) && found.contains(out[i]) by {
        assert(out[i] == kept[i]);
        let j = choose|j: int| i <= j < found.len() && found[j] == kept[i];
        assert(found[j] == out[i]);
    }
    assert forall|a: int, b: int| 0 <= a < b < out.len() implies !result_precedes(
        kind,
        #[trigger] out[b],
        #[trigger] out[a],
    ) && out[a].id != out[b].id by {
        assert(out[a] == kept[a] && out[b] == kept[b]);
    }
}

/// In a list that is ordered, a result before one that passes the
/// threshold passes it too.
pub proof fn lemma_relevant_before(kind: Distance, relevancy: u32, a: ResultView, b: ResultView)
    requires
        !result_precedes(kind, b, a),
        kind.spec_is_relevant(b.distance, relevancy),
        relevancy != RELEVANCY_DISABLED,
    ensures
        kind.spec_is_relevant(a.distance, relevancy),
{
    assert(!is_nan(b.distance));
    assert(kind.spec_rank(a.distance) <= kind.spec_rank(b.distance));
}

/// Of an ordered list the filter keeps a beginning: the results that pass
/// the threshold are the first ones, and none behind them passes.
pub proof fn lemma_relevant_is_prefix(kind: Distance, relevancy: u32, found: Seq<ResultView>, n: nat)
    requires
        n <= found.len(),
        results_ordered(kind, found),
        relevancy != RELEVANCY_DISABLED,
    ensures
        relevant_prefix(kind, relevancy, found, n).len() <= n,
        relevant_prefix(kind, relevancy, found, n) == found.take(
            relevant_prefix(kind, relevancy, found, n).len() as int,
        ),
        forall|i: int|
            relevant_prefix(kind, relevancy, found, n).len() <= i < n ==> !kind.spec_is_relevant(
                (#[trigger] found[i]).distance,
                relevancy,
            ),
    decreases n,
{
    if n == 0 {
        assert(found.take(0) =~= Seq::<ResultView>::empty());
    } else {
        let m = (n - 1) as nat;
        lemma_relevant_is_prefix(kind, relevancy, found, m);
        let before = relevant_prefix(kind, relevancy, found, m);
        if kind.spec_is_relevant(found[n - 1].distance, relevancy) {
            if before.len() < m {
                let i = before.len() as int;
                assert(!result_precedes(kind, found[n - 1], found[i]));
                lemma_relevant_before(kind, relevancy, found[i], found[n - 1]);
                assert(false);
            }
            assert(found.take(n as int) =~= found.take(m as int).push(found[n - 1]));
        }
    }
}

/// Raising the bar leaves a beginning of the answer: what a query gets of
/// an ordered list under a stricter threshold is the beginning of what it
/// gets under a looser one. For a kernel where lower is nearer the stricter
/// threshold is the lower one, otherwise the higher one; the stricter
/// threshold must not be the value that switches the filter off.
pub proof fn lemma_selected_prefix(
    kind: Distance,
    strict: u32,
    loose: u32,
    found: Seq<ResultView>,
    n: nat,
)
    requires
        results_ordered(kind, found),
        strict != RELEVANCY_DISABLED,
        loose == RELEVANCY_DISABLED || if kind.spec_lower_is_better() {
            at_most(strict, loose)
        } else {
            at_most(loose, strict)
        },
    ensures
        selected(kind, strict, found, n).len() <= selected(kind, loose, found, n).len(),
        selected(kind, strict, found, n) == selected(kind, loose, found, n).take(
            selected(kind, strict, found, n).len() as int,
        ),
{
    let all = found.len();
    lemma_relevant_is_prefix(kind, strict, found, all);
    lemma_relevant_monotone(kind, strict, loose, found, all);
    let s = relevant(kind, strict, found);
    let l = relevant(kind, loose, found);
    if loose == RELEVANCY_DISABLED {
        lemma_relevant_disabled(kind, found, all);
        assert(found.take(all as int) =~= found);
    } else {
        lemma_relevant_is_prefix(kind, loose, found, all);
    }
    assert(l == found.take(l.len() as int));
    assert(s == found.take(s.len() as int));
    assert(s.len() <= l.len());
    let a = selected(kind, strict, found, n);
    let b = selected(kind, loose, found, n);
    assert(a =~= b.take(a.len() as int));
}

/// Keeps the results whose distance passes the relevancy threshold.
pub fn filter_relevant(kind: Distance, relevancy: u32, results: Vec<SearchResult>) -> (r: Vec<SearchResult>)
    ensures
        result_views(r@) == relevant(kind, relevancy, result_views(results@)),
{
    if relevancy == RELEVANCY_DISABLED {
        proof {
            lemma_relevant_disabled(kind, result_views(results@), results@.len());
            assert(result_views(results@).take(results@.len() as int) =~= result_views(results@));
        }
        return results;
    }
    let mut r: Vec<SearchResult> = Vec::new();
    let mut i: usize = 0;
    while i < results.len()
        invariant
            i <= results@.len(),
            result_views(r@) == relevant_prefix(kind, relevancy, result_views(results@), i as nat),
        decreases results@.len() - i,
    {
        let ghost before = result_views(r@);
        if kind.is_relevant(results[i].distance, relevancy) {
            let kept = SearchResult {
                id: results[i].id,
                distance: results[i].distance,
                data: results[i].data.clone(),
            };
            r.push(kept);
            assert(result_views(r@) =~= before.push(result_views(results@)[i as int]));
        }
        i += 1;
    }
    r
}

} // verus!
