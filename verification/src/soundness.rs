//! Soundness of discovery and reduction: what they return holds on the log.

use vstd::prelude::*;
use crate::arc::{ArcView, OCDeclareArcType};
use crate::discovery::{
    all_arcs, bookend, candidates, directed, discovered, label_arcs, labels_arcs, mined_labels,
    pair_arcs, row_arcs, search_of, stricter, with_type, OptionsView,
};
use crate::indices::lemma_count_in_monotone;
use crate::label::LabelView;
use crate::log::{events_with_activity, LogView};
use crate::perf::{
    arc_holds, event_violated, holds_within, violated_count, ThresholdView,
};
use crate::reduction::{lemma_reduction_sound, reduced};

verus! {

/// Whether every count within the bounds `inner` is within the bounds `outer`.
pub open spec fn no_stricter(
    outer: (Option<usize>, Option<usize>),
    inner: (Option<usize>, Option<usize>),
) -> bool {
    &&& outer.0 is Some ==> inner.0 is Some && outer.0->0 <= inner.0->0
    &&& outer.1 is Some ==> inner.1 is Some && inner.1->0 <= outer.1->0
}

/// Whether every arc of the list holds on the log up to the threshold.
pub open spec fn all_hold(v: LogView, arcs: Seq<ArcView>, threshold: ThresholdView) -> bool {
    forall|k: int| 0 <= k < arcs.len() ==> arc_holds(v, #[trigger] arcs[k], threshold)
}

/// A constraint that holds under count bounds holds under bounds that are no stricter.
pub proof fn lemma_looser_bounds_hold(
    v: LogView,
    from: Seq<char>,
    to: Seq<char>,
    t: OCDeclareArcType,
    outer: (Option<usize>, Option<usize>),
    inner: (Option<usize>, Option<usize>),
    l: LabelView,
    threshold: ThresholdView,
)
    requires
        no_stricter(outer, inner),
        holds_within(v, from, to, t, inner, l, threshold),
    ensures
        holds_within(v, from, to, t, outer, l, threshold),
{
    let s = events_with_activity(v, from);
    let p = |e: usize| event_violated(v, e, to, t, outer, l);
    let q = |e: usize| event_violated(v, e, to, t, inner, l);
    assert forall|i: int| 0 <= i < s.len() && p(#[trigger] s[i]) implies q(s[i]) by {}
    lemma_count_in_monotone(s, p, q);
    let a = violated_count(v, from, to, t, outer, l) as int;
    let b = violated_count(v, from, to, t, inner, l) as int;
    let d = threshold.denominator as int;
    let r = (threshold.numerator * s.len()) as int;
    assert(a * d <= r) by (nonlinear_arith)
        requires
            0 <= a <= b,
            b * d <= r,
            d >= 0,
    ;
}

proof fn lemma_stricter_hold(v: LogView, a: ArcView, threshold: ThresholdView)
    requires
        arc_holds(v, with_type(a, OCDeclareArcType::ASS), threshold),
    ensures
        all_hold(v, stricter(v, a, threshold), threshold),
{
    let f = directed(v, a, threshold, OCDeclareArcType::EF, OCDeclareArcType::DF);
    let b = directed(v, a, threshold, OCDeclareArcType::EFREV, OCDeclareArcType::DFREV);
    let s = stricter(v, a, threshold);
    assert forall|k: int| 0 <= k < s.len() implies arc_holds(v, #[trigger] s[k], threshold) by {
        if f.len() + b.len() == 0 && a.from != a.to {
        } else if k < f.len() {
            assert(s[k] == f[k]);
        } else {
            assert(s[k] == b[k - f.len()]);
        }
    }
}

proof fn lemma_labels_arcs_hold(
    v: LogView,
    o: OptionsView,
    from: Seq<char>,
    to: Seq<char>,
    ls: Seq<LabelView>,
)
    requires
        no_stricter(o.counts_for_generation, o.counts_for_filter),
    ensures
        all_hold(v, labels_arcs(v, o, from, to, ls), o.threshold),
    decreases ls.len(),
{
    if ls.len() > 0 {
        lemma_labels_arcs_hold(v, o, from, to, ls.drop_last());
        let rest = labels_arcs(v, o, from, to, ls.drop_last());
        let last = label_arcs(v, o, from, to, ls.last());
        let a = ArcView {
            from,
            to,
            arc_type: OCDeclareArcType::ASS,
            label: ls.last(),
            counts: o.counts_for_generation,
        };
        if holds_within(
            v,
            from,
            to,
            OCDeclareArcType::ASS,
            o.counts_for_filter,
            ls.last(),
            o.threshold,
        ) {
            lemma_looser_bounds_hold(
                v,
                from,
                to,
                OCDeclareArcType::ASS,
                o.counts_for_generation,
                o.counts_for_filter,
                ls.last(),
                o.threshold,
            );
            assert(with_type(a, OCDeclareArcType::ASS) == a);
            lemma_stricter_hold(v, a, o.threshold);
        }
        let s = labels_arcs(v, o, from, to, ls);
        assert forall|k: int| 0 <= k < s.len() implies arc_holds(v, #[trigger] s[k], o.threshold) by {
            if k < rest.len() {
                assert(s[k] == rest[k]);
            } else {
                assert(s[k] == last[k - rest.len()]);
            }
        }
    }
}

proof fn lemma_row_arcs_hold(v: LogView, o: OptionsView, i: int, j: nat)
    requires
        no_stricter(o.counts_for_generation, o.counts_for_filter),
    ensures
        all_hold(v, row_arcs(v, o, i, j), o.threshold),
    decreases j,
{
    if j > 0 {
        lemma_row_arcs_hold(v, o, i, (j - 1) as nat);
        let rest = row_arcs(v, o, i, (j - 1) as nat);
        let from = v.event_types[i];
        let to = v.event_types[j - 1];
        let last = if bookend(from) || bookend(to) {
            Seq::empty()
        } else {
            pair_arcs(v, o, from, to)
        };
        if !(bookend(from) || bookend(to)) {
            lemma_labels_arcs_hold(
                v,
                o,
                from,
                to,
                mined_labels(
                    search_of(v, o, from, to, false),
                    candidates(v, from, to, o.o2o_mode),
                ),
            );
        }
        let s = row_arcs(v, o, i, j);
        assert forall|k: int| 0 <= k < s.len() implies arc_holds(v, #[trigger] s[k], o.threshold) by {
            if k < rest.len() {
                assert(s[k] == rest[k]);
            } else {
                assert(s[k] == last[k - rest.len()]);
            }
        }
    }
}

proof fn lemma_all_arcs_hold(v: LogView, o: OptionsView, i: nat)
    requires
        no_stricter(o.counts_for_generation, o.counts_for_filter),
    ensures
        all_hold(v, all_arcs(v, o, i), o.threshold),
    decreases i,
{
    if i > 0 {
        lemma_all_arcs_hold(v, o, (i - 1) as nat);
        lemma_row_arcs_hold(v, o, i - 1, v.event_types.len());
        let rest = all_arcs(v, o, (i - 1) as nat);
        let last = row_arcs(v, o, i - 1, v.event_types.len());
        let s = all_arcs(v, o, i);
        assert forall|k: int| 0 <= k < s.len() implies arc_holds(v, #[trigger] s[k], o.threshold) by {
            if k < rest.len() {
                assert(s[k] == rest[k]);
            } else {
                assert(s[k] == last[k - rest.len()]);
            }
        }
    }
}

/// Every discovered arc holds on the log up to the noise threshold that it was
/// discovered under, where the generation bounds are no stricter than the filter bounds.
pub proof fn lemma_discovered_arcs_hold(v: LogView, o: OptionsView)
    requires
        no_stricter(o.counts_for_generation, o.counts_for_filter),
    ensures
        all_hold(v, discovered(v, o), o.threshold),
{
    lemma_all_arcs_hold(v, o, v.event_types.len());
}

/// Every arc that is left after reducing the discovered arcs holds on the log up to the
/// noise threshold that discovery accepted it under.
pub proof fn lemma_reduced_discovered_arcs_hold(v: LogView, o: OptionsView)
    requires
        no_stricter(o.counts_for_generation, o.counts_for_filter),
    ensures
        all_hold(v, reduced(discovered(v, o)), o.threshold),
{
    lemma_discovered_arcs_hold(v, o);
    lemma_reduction_sound(v, discovered(v, o), o.threshold);
}

} // verus!
