//! Monotonicity: asking for more can only leave fewer matching events.

use vstd::prelude::*;
use crate::arc::OCDeclareArcType;
use crate::binding::{
    assoc_objects, assoc_sets, binding_of, bindings, by_size, extend_all, filter_holds, product,
    FilterView,
};
use crate::indices::{lemma_count_in_monotone, lemma_indices_where_monotone};
use crate::label::LabelView;
use crate::log::{events_with_activity, LogView};
use crate::perf::{
    binding_holds, event_violated, observed, on_side, out_of_bounds, side_of, targets,
    violated_count, Side,
};

verus! {

/// Whether the arc type counts the targets of a binding.
pub open spec fn counts_targets(t: OCDeclareArcType) -> bool {
    t == OCDeclareArcType::ASS || t == OCDeclareArcType::EF || t == OCDeclareArcType::EFREV
}

/// Where every event that meets binding `b2` meets binding `b1`, `b2` has no more targets
/// than `b1`.
pub proof fn lemma_stricter_binding_fewer_targets(
    v: LogView,
    b1: Seq<FilterView>,
    b2: Seq<FilterView>,
    side: Side,
    src: usize,
    to: Seq<char>,
)
    requires
        forall|e: int|
            0 <= e < v.events.len() && #[trigger] binding_holds(v, e, b2) ==> binding_holds(
                v,
                e,
                b1,
            ),
    ensures
        targets(v, b2, side, src, to).len() <= targets(v, b1, side, src, to).len(),
{
    let strict = |e: usize|
        binding_holds(v, e as int, b2) && on_side(side, src, e) && v.events[e as int].activity
            == to;
    let loose = |e: usize|
        binding_holds(v, e as int, b1) && on_side(side, src, e) && v.events[e as int].activity
            == to;
    assert forall|x: usize| x < v.events.len() && #[trigger] strict(x) implies loose(x) by {
        assert(binding_holds(v, x as int, b2));
    }
    lemma_indices_where_monotone(v.events.len(), strict, loose);
}

/// The product with one more set: its length, and the choice at each position.
proof fn lemma_extend_all(prefixes: Seq<Seq<usize>>, set: Seq<usize>, k: int, j: int)
    requires
        0 <= k < prefixes.len(),
        0 <= j < set.len(),
    ensures
        extend_all(prefixes, set).len() == prefixes.len() * set.len(),
        0 <= k * set.len() + j < extend_all(prefixes, set).len(),
        extend_all(prefixes, set)[k * set.len() + j] == prefixes[k].push(set[j]),
    decreases prefixes.len(),
{
    let n = prefixes.len() as int;
    let m = set.len() as int;
    let rest = extend_all(prefixes.drop_last(), set);
    lemma_extend_all_len(prefixes.drop_last(), set);
    assert((n - 1) * m + m == n * m) by (nonlinear_arith);
    assert(rest.len() == (n - 1) * m);
    if k == n - 1 {
        assert(extend_all(prefixes, set)[k * m + j] == set.map_values(
            |x: usize| prefixes.last().push(x),
        )[j]);
    } else {
        lemma_extend_all(prefixes.drop_last(), set, k, j);
        assert(k * m + j < (n - 1) * m) by (nonlinear_arith)
            requires
                0 <= k < n - 1,
                0 <= j < m,
        ;
    }
    assert(0 <= k * m + j < n * m) by (nonlinear_arith)
        requires
            0 <= k < n,
            0 <= j < m,
    ;
}

proof fn lemma_extend_all_len(prefixes: Seq<Seq<usize>>, set: Seq<usize>)
    ensures
        extend_all(prefixes, set).len() == prefixes.len() * set.len(),
    decreases prefixes.len(),
{
    let n = prefixes.len() as int;
    let m = set.len() as int;
    if n > 0 {
        lemma_extend_all_len(prefixes.drop_last(), set);
        assert((n - 1) * m + m == n * m) by (nonlinear_arith);
    } else {
        assert(0 * m == 0) by (nonlinear_arith);
    }
}

/// Every choice of a product with one more set ends with an item of that set after a
/// choice of the product without it.
proof fn lemma_extend_all_split(prefixes: Seq<Seq<usize>>, set: Seq<usize>, k: int) -> (r: (int, int))
    requires
        0 <= k < extend_all(prefixes, set).len(),
    ensures
        0 <= r.0 < prefixes.len(),
        0 <= r.1 < set.len(),
        extend_all(prefixes, set)[k] == prefixes[r.0].push(set[r.1]),
    decreases prefixes.len(),
{
    let rest = extend_all(prefixes.drop_last(), set);
    if k < rest.len() {
        let r = lemma_extend_all_split(prefixes.drop_last(), set, k);
        r
    } else {
        (prefixes.len() - 1, k - rest.len())
    }
}

/// Every choice of a product holds one item for each set.
proof fn lemma_product_lens(sets: Seq<Seq<usize>>, k: int)
    requires
        0 <= k < product(sets).len(),
    ensures
        product(sets)[k].len() == sets.len(),
    decreases sets.len(),
{
    if sets.len() > 0 {
        let r = lemma_extend_all_split(product(sets.drop_last()), sets.last(), k);
        lemma_product_lens(sets.drop_last(), r.0);
    }
}

/// With one more set, which is not empty, put in at `p`: for every choice of the
/// product there is the choice that has the first item of that set put in at `p`.
proof fn lemma_product_gains(sets: Seq<Seq<usize>>, p: int, extra: Seq<usize>, k: int) -> (kb: int)
    requires
        0 <= p <= sets.len(),
        extra.len() > 0,
        0 <= k < product(sets).len(),
    ensures
        0 <= kb < product(sets.insert(p, extra)).len(),
        product(sets.insert(p, extra))[kb] == product(sets)[k].insert(p, extra[0]),
        product(sets)[k].len() == sets.len(),
    decreases sets.len(),
{
    lemma_product_lens(sets, k);
    let more = sets.insert(p, extra);
    if p == sets.len() {
        assert(more.drop_last() =~= sets);
        assert(more.last() == extra);
        lemma_extend_all(product(sets), extra, k, 0);
        assert(product(sets)[k].push(extra[0]) =~= product(sets)[k].insert(p, extra[0]));
        k * extra.len() + 0
    } else {
        let rest = sets.drop_last();
        let last = sets.last();
        let r = lemma_extend_all_split(product(rest), last, k);
        let ib = lemma_product_gains(rest, p, extra, r.0);
        assert(more.drop_last() =~= rest.insert(p, extra));
        assert(more.last() == last);
        lemma_extend_all(product(rest.insert(p, extra)), last, ib, r.1);
        assert(product(rest)[r.0].insert(p, extra[0]).push(last[r.1]) =~= product(rest)[r.0].push(
            last[r.1],
        ).insert(p, extra[0]));
        ib * last.len() + r.1
    }
}

/// Where label `b` differs from label `a` only in binding one more association one object
/// at a time, an event from which that association leads to an object and that breaks a
/// lower bound on the targets under `a` breaks it under `b`.
pub proof fn lemma_binding_more_is_stricter(
    v: LogView,
    a: LabelView,
    b: LabelView,
    p: int,
    src: usize,
    to: Seq<char>,
    t: OCDeclareArcType,
    min: Option<usize>,
)
    requires
        counts_targets(t),
        a.all == b.all,
        a.any == b.any,
        0 <= p < b.each.len(),
        a.each == b.each.remove(p),
        assoc_objects(v, src as int, b.each[p]).len() > 0,
    ensures
        event_violated(v, src, to, t, (min, None), a) ==> event_violated(
            v,
            src,
            to,
            t,
            (min, None),
            b,
        ),
{
    let e = src as int;
    let ba = bindings(v, e, a);
    let bb = bindings(v, e, b);
    let alls = assoc_sets(v, e, a.all);
    let anys = by_size(assoc_sets(v, e, a.any));
    let sets_a = assoc_sets(v, e, a.each);
    let sets_b = assoc_sets(v, e, b.each);
    let extra = assoc_objects(v, e, b.each[p]);
    assert(sets_b =~= sets_a.insert(p, extra));
    let pa = product(sets_a);
    let pb = product(sets_b);
    if event_violated(v, src, to, t, (min, None), a) {
        let k = choose|k: int|
            0 <= k < ba.len() && out_of_bounds(observed(v, #[trigger] ba[k], t, src, to), (min, None));
        let kb = lemma_product_gains(sets_a, p, extra, k);
        let choice = pa[k];
        let more = choice.insert(p, extra[0]);
        assert(pb[kb] == more);
        let x = ba[k];
        let y = bb[kb];
        assert(x == binding_of(alls, choice, anys));
        assert(y == binding_of(alls, more, anys));
        let mid: int = if choice.len() > 0 {
            1
        } else {
            0
        };
        assert(x.len() == alls.len() + mid + anys.len());
        assert(y.len() == alls.len() + 1 + anys.len());
        assert forall|ev: int|
            0 <= ev < v.events.len() && #[trigger] binding_holds(v, ev, y) implies binding_holds(
            v,
            ev,
            x,
        ) by {
            let s = v.events[ev].objects;
            assert forall|i: int| 0 <= i < x.len() implies filter_holds(#[trigger] x[i], s) by {
                if i < alls.len() {
                    assert(y[i] == x[i]);
                    assert(filter_holds(y[i], s));
                } else if i < alls.len() + mid {
                    let f = y[alls.len() as int];
                    assert(f == FilterView::All(more));
                    assert(filter_holds(f, s));
                    assert(x[i] == FilterView::All(choice));
                    assert forall|q: int| 0 <= q < choice.len() implies s.contains(
                        #[trigger] choice[q],
                    ) by {
                        assert(f->All_0 == more);
                        let w = if q < p {
                            q
                        } else {
                            q + 1
                        };
                        assert(more[w] == choice[q]);
                        assert(s.contains(more[w]));
                    }
                    assert(x[i]->All_0 == choice);
                } else {
                    let j = i - mid + 1;
                    assert(y[j] == x[i]);
                    assert(filter_holds(y[j], s));
                }
            }
        }
        lemma_stricter_binding_fewer_targets(v, x, y, side_of(t), src, to);
        assert(out_of_bounds(observed(v, bb[kb], t, src, to), (min, None)));
    }
}

/// Where label `b` differs from label `a` only in binding one more association one object
/// at a time, and that association leads from every event of the source activity to an
/// object, no fewer events of the source activity break a lower bound on the targets
/// under `b` than under `a`.
pub proof fn lemma_binding_more_violates_more(
    v: LogView,
    from: Seq<char>,
    to: Seq<char>,
    t: OCDeclareArcType,
    min: Option<usize>,
    a: LabelView,
    b: LabelView,
    p: int,
)
    requires
        counts_targets(t),
        a.all == b.all,
        a.any == b.any,
        0 <= p < b.each.len(),
        a.each == b.each.remove(p),
        forall|i: int|
            0 <= i < events_with_activity(v, from).len() ==> assoc_objects(
                v,
                (#[trigger] events_with_activity(v, from)[i]) as int,
                b.each[p],
            ).len() > 0,
    ensures
        violated_count(v, from, to, t, (min, None), a) <= violated_count(
            v,
            from,
            to,
            t,
            (min, None),
            b,
        ),
{
    let s = events_with_activity(v, from);
    let pa = |e: usize| event_violated(v, e, to, t, (min, None), a);
    let pb = |e: usize| event_violated(v, e, to, t, (min, None), b);
    assert forall|i: int| 0 <= i < s.len() && pa(#[trigger] s[i]) implies pb(s[i]) by {
        lemma_binding_more_is_stricter(v, a, b, p, s[i], to, t, min);
    }
    lemma_count_in_monotone(s, pa, pb);
}

/// A binding that holds every filter of another binding has no more targets than it.
pub proof fn lemma_more_filters_fewer_targets(
    v: LogView,
    b1: Seq<FilterView>,
    b2: Seq<FilterView>,
    side: Side,
    src: usize,
    to: Seq<char>,
)
    requires
        forall|k: int| 0 <= k < b1.len() ==> b2.contains(#[trigger] b1[k]),
    ensures
        targets(v, b2, side, src, to).len() <= targets(v, b1, side, src, to).len(),
{
    let strict = |e: usize|
        binding_holds(v, e as int, b2) && on_side(side, src, e) && v.events[e as int].activity
            == to;
    let loose = |e: usize|
        binding_holds(v, e as int, b1) && on_side(side, src, e) && v.events[e as int].activity
            == to;
    assert forall|x: usize| x < v.events.len() && #[trigger] strict(x) implies loose(x) by {
        assert forall|k: int| 0 <= k < b1.len() implies filter_holds(
            #[trigger] b1[k],
            v.events[x as int].objects,
        ) by {
            assert(b2.contains(b1[k]));
            let j = choose|j: int| 0 <= j < b2.len() && b2[j] == b1[k];
            assert(filter_holds(b2[j], v.events[x as int].objects));
        }
    }
    lemma_indices_where_monotone(v.events.len(), strict, loose);
}

/// Where label `b` differs from label `a` only in grouping more associations, an event
/// that breaks a lower bound on the targets under `a` breaks it under `b`.
pub proof fn lemma_grouping_more_is_stricter(
    v: LogView,
    a: LabelView,
    b: LabelView,
    src: usize,
    to: Seq<char>,
    t: OCDeclareArcType,
    min: Option<usize>,
)
    requires
        counts_targets(t),
        a.each == b.each,
        a.any == b.any,
        forall|i: int| 0 <= i < a.all.len() ==> b.all.contains(#[trigger] a.all[i]),
    ensures
        event_violated(v, src, to, t, (min, None), a) ==> event_violated(
            v,
            src,
            to,
            t,
            (min, None),
            b,
        ),
{
    let e = src as int;
    let ba = bindings(v, e, a);
    let bb = bindings(v, e, b);
    let alls_a = assoc_sets(v, e, a.all);
    let alls_b = assoc_sets(v, e, b.all);
    let anys = by_size(assoc_sets(v, e, a.any));
    let choices = product(assoc_sets(v, e, a.each));
    assert(ba.len() == bb.len());
    if event_violated(v, src, to, t, (min, None), a) {
        let k = choose|k: int|
            0 <= k < ba.len() && out_of_bounds(observed(v, #[trigger] ba[k], t, src, to), (min, None));
        let choice = choices[k];
        let x = ba[k];
        let y = bb[k];
        assert(x == binding_of(alls_a, choice, anys));
        assert(y == binding_of(alls_b, choice, anys));
        let mid: int = if choice.len() > 0 {
            1
        } else {
            0
        };
        assert(x.len() == alls_a.len() + mid + anys.len());
        assert(y.len() == alls_b.len() + mid + anys.len());
        assert forall|i: int| 0 <= i < x.len() implies y.contains(#[trigger] x[i]) by {
            if i < alls_a.len() {
                assert(b.all.contains(a.all[i]));
                let j = choose|j: int| 0 <= j < b.all.len() && b.all[j] == a.all[i];
                assert(alls_b[j] == alls_a[i]);
                assert(y[j] == x[i]);
            } else {
                let j = i - alls_a.len() + alls_b.len();
                assert(y[j] == x[i]);
            }
        }
        lemma_more_filters_fewer_targets(v, x, y, side_of(t), src, to);
        assert(out_of_bounds(observed(v, bb[k], t, src, to), (min, None)));
    }
}

/// Where label `b` differs from label `a` only in grouping more associations, no fewer
/// events of the source activity break a lower bound on the targets under `b` than
/// under `a`.
pub proof fn lemma_grouping_more_violates_more(
    v: LogView,
    from: Seq<char>,
    to: Seq<char>,
    t: OCDeclareArcType,
    min: Option<usize>,
    a: LabelView,
    b: LabelView,
)
    requires
        counts_targets(t),
        a.each == b.each,
        a.any == b.any,
        forall|i: int| 0 <= i < a.all.len() ==> b.all.contains(#[trigger] a.all[i]),
    ensures
        violated_count(v, from, to, t, (min, None), a) <= violated_count(
            v,
            from,
            to,
            t,
            (min, None),
            b,
        ),
{
    let s = events_with_activity(v, from);
    let pa = |e: usize| event_violated(v, e, to, t, (min, None), a);
    let pb = |e: usize| event_violated(v, e, to, t, (min, None), b);
    assert forall|i: int| 0 <= i < s.len() && pa(#[trigger] s[i]) implies pb(s[i]) by {
        lemma_grouping_more_is_stricter(v, a, b, s[i], to, t, min);
    }
    lemma_count_in_monotone(s, pa, pb);
}

} // verus!
