//! Diagnostics: for each binding of an event that breaks a constraint, the evidence.

use vstd::prelude::*;
use vstd::string::*;
use crate::arc::{OCDeclareArc, OCDeclareArcType, ViolationInfo};
use crate::binding::{binding_views, bindings, filter_views, FilterView, SetFilter};
use crate::indices::lemma_indices_where;
use crate::log::{events_with_activity, text_views, IndexedLog, LogView};
use crate::perf::{
    binding_holds, chain_backward, chain_forward, get_df_or_dp_event_perf, nearest,
    neighbour_events, neighbours, observed, on_side, side_of, get_evs_with_objs_perf, targets, Side,
};
use crate::text::same_str;

verus! {

/// The mathematical value of a [`ViolationInfo`].
pub enum ViolationView {
    TooMany {
        source_ev: Seq<char>,
        matching_evs: Seq<Seq<char>>,
        all_obs: Seq<Seq<char>>,
        any_obs: Seq<Seq<Seq<char>>>,
        count: usize,
    },
    TooFew {
        source_ev: Seq<char>,
        matching_evs: Seq<Seq<char>>,
        all_obs: Seq<Seq<char>>,
        any_obs: Seq<Seq<Seq<char>>>,
        count: usize,
    },
}

/// The views of a list of lists of names, in order.
pub open spec fn nested_text_views(s: Seq<Vec<String>>) -> Seq<Seq<Seq<char>>> {
    s.map_values(|l: Vec<String>| text_views(l@))
}

impl View for ViolationInfo {
    type V = ViolationView;

    open spec fn view(&self) -> ViolationView {
        match self {
            ViolationInfo::TooMany {
                source_ev,
                matching_evs,
                all_obs,
                any_obs,
                count,
            } => ViolationView::TooMany {
                source_ev: source_ev@,
                matching_evs: text_views(matching_evs@),
                all_obs: text_views(all_obs@),
                any_obs: nested_text_views(any_obs@),
                count: *count,
            },
            ViolationInfo::TooFew {
                source_ev,
                matching_evs,
                all_obs,
                any_obs,
                count,
            } => ViolationView::TooFew {
                source_ev: source_ev@,
                matching_evs: text_views(matching_evs@),
                all_obs: text_views(all_obs@),
                any_obs: nested_text_views(any_obs@),
                count: *count,
            },
        }
    }
}

/// The views of a list of violations, in order.
pub open spec fn violation_views(s: Seq<ViolationInfo>) -> Seq<ViolationView> {
    s.map_values(|x: ViolationInfo| x@)
}

/// Walking `s` from its start: the events of activity `to` before the first event of
/// activity `stop`.
pub open spec fn chain_events_forward(
    v: LogView,
    s: Seq<usize>,
    stop: Seq<char>,
    to: Seq<char>,
) -> Seq<usize>
    decreases s.len(),
{
    if s.len() == 0 {
        Seq::empty()
    } else if v.events[s.first() as int].activity == stop {
        Seq::empty()
    } else {
        (if v.events[s.first() as int].activity == to {
            seq![s.first()]
        } else {
            Seq::empty()
        }) + chain_events_forward(v, s.drop_first(), stop, to)
    }
}

/// Walking `s` from its end: the events of activity `to` before the first event of
/// activity `stop`.
pub open spec fn chain_events_backward(
    v: LogView,
    s: Seq<usize>,
    stop: Seq<char>,
    to: Seq<char>,
) -> Seq<usize>
    decreases s.len(),
{
    if s.len() == 0 {
        Seq::empty()
    } else if v.events[s.last() as int].activity == stop {
        Seq::empty()
    } else {
        (if v.events[s.last() as int].activity == to {
            seq![s.last()]
        } else {
            Seq::empty()
        }) + chain_events_backward(v, s.drop_last(), stop, to)
    }
}

/// The events that count for a binding of event `src`: the targets; or the nearest
/// neighbour if it is of activity `to`; or the events of `to` that an alternating arc
/// counts, in the order of the walk.
pub open spec fn matching(
    v: LogView,
    b: Seq<FilterView>,
    t: OCDeclareArcType,
    src: usize,
    to: Seq<char>,
) -> Seq<usize> {
    match t {
        OCDeclareArcType::ASS | OCDeclareArcType::EF | OCDeclareArcType::EFREV => targets(
            v,
            b,
            side_of(t),
            src,
            to,
        ),
        OCDeclareArcType::DF | OCDeclareArcType::DFREV => match nearest(v, b, side_of(t), src) {
            Some(e) => if v.events[e as int].activity == to {
                seq![e]
            } else {
                Seq::empty()
            },
            None => Seq::empty(),
        },
        OCDeclareArcType::ALTEF => chain_events_forward(
            v,
            neighbours(v, b, Side::After, src),
            v.events[src as int].activity,
            to,
        ),
        OCDeclareArcType::ALTEFREV => chain_events_backward(
            v,
            neighbours(v, b, Side::Before, src),
            v.events[src as int].activity,
            to,
        ),
    }
}

proof fn lemma_chain_forward_count(v: LogView, s: Seq<usize>, stop: Seq<char>, to: Seq<char>)
    ensures
        chain_events_forward(v, s, stop, to).len() == chain_forward(v, s, stop, to),
    decreases s.len(),
{
    if s.len() > 0 {
        lemma_chain_forward_count(v, s.drop_first(), stop, to);
    }
}

proof fn lemma_chain_backward_count(v: LogView, s: Seq<usize>, stop: Seq<char>, to: Seq<char>)
    ensures
        chain_events_backward(v, s, stop, to).len() == chain_backward(v, s, stop, to),
    decreases s.len(),
{
    if s.len() > 0 {
        lemma_chain_backward_count(v, s.drop_last(), stop, to);
    }
}

/// The count that a binding is judged by is the number of its matching events: the
/// diagnostic and the fast evaluation judge alike.
pub proof fn lemma_matching_count(
    v: LogView,
    b: Seq<FilterView>,
    t: OCDeclareArcType,
    src: usize,
    to: Seq<char>,
)
    ensures
        matching(v, b, t, src, to).len() == observed(v, b, t, src, to),
{
    lemma_chain_forward_count(
        v,
        neighbours(v, b, Side::After, src),
        v.events[src as int].activity,
        to,
    );
    lemma_chain_backward_count(
        v,
        neighbours(v, b, Side::Before, src),
        v.events[src as int].activity,
        to,
    );
}

/// The identifier of object `o`; empty where the log has no such object.
pub open spec fn object_id(v: LogView, o: usize) -> Seq<char> {
    if o < v.objects.len() {
        v.objects[o as int].id
    } else {
        Seq::empty()
    }
}

/// The identifiers of the objects, in order.
pub open spec fn object_ids(v: LogView, s: Seq<usize>) -> Seq<Seq<char>> {
    s.map_values(|o: usize| object_id(v, o))
}

/// The identifiers of the events, in order.
pub open spec fn event_ids(v: LogView, s: Seq<usize>) -> Seq<Seq<char>> {
    s.map_values(|e: usize| v.events[e as int].id)
}

/// The identifiers of the objects of all `All` filters of a binding, in order.
pub open spec fn all_ids(v: LogView, b: Seq<FilterView>) -> Seq<Seq<char>>
    decreases b.len(),
{
    if b.len() == 0 {
        Seq::empty()
    } else {
        all_ids(v, b.drop_last()) + (match b.last() {
            FilterView::All(items) => object_ids(v, items),
            FilterView::Any(_) => Seq::empty(),
        })
    }
}

/// For each `Any` filter of a binding, in order, the identifiers of its objects.
pub open spec fn any_ids(v: LogView, b: Seq<FilterView>) -> Seq<Seq<Seq<char>>>
    decreases b.len(),
{
    if b.len() == 0 {
        Seq::empty()
    } else {
        match b.last() {
            FilterView::Any(items) => any_ids(v, b.drop_last()).push(object_ids(v, items)),
            FilterView::All(_) => any_ids(v, b.drop_last()),
        }
    }
}

/// The evidence against a binding of event `src`, if its count is outside the bounds:
/// too few where the count is below the lower bound, else too many where it is above
/// the upper bound.
pub open spec fn violation_of(
    v: LogView,
    b: Seq<FilterView>,
    t: OCDeclareArcType,
    src: usize,
    to: Seq<char>,
    counts: (Option<usize>, Option<usize>),
) -> Option<ViolationView> {
    let m = matching(v, b, t, src, to);
    if counts.0 is Some && m.len() < counts.0->0 {
        Some(
            ViolationView::TooFew {
                source_ev: v.events[src as int].id,
                matching_evs: event_ids(v, m),
                all_obs: all_ids(v, b),
                any_obs: any_ids(v, b),
                count: m.len() as usize,
            },
        )
    } else if counts.1 is Some && m.len() > counts.1->0 {
        Some(
            ViolationView::TooMany {
                source_ev: v.events[src as int].id,
                matching_evs: event_ids(v, m),
                all_obs: all_ids(v, b),
                any_obs: any_ids(v, b),
                count: m.len() as usize,
            },
        )
    } else {
        None
    }
}

/// The evidence against the bindings `bs` of event `src` that break the constraint, in
/// order.
pub open spec fn violations(
    v: LogView,
    bs: Seq<Seq<FilterView>>,
    t: OCDeclareArcType,
    src: usize,
    to: Seq<char>,
    counts: (Option<usize>, Option<usize>),
) -> Seq<ViolationView>
    decreases bs.len(),
{
    if bs.len() == 0 {
        Seq::empty()
    } else {
        let rest = violations(v, bs.drop_last(), t, src, to, counts);
        match violation_of(v, bs.last(), t, src, to, counts) {
            Some(x) => rest.push(x),
            None => rest,
        }
    }
}

/// The events that count for the binding `objs` of event `ev_index`.
pub fn matching_events(
    objs: &Vec<SetFilter>,
    log: &IndexedLog,
    ev_index: usize,
    to_et: &str,
    arc_type: &OCDeclareArcType,
) -> (r: Vec<usize>)
    requires
        ev_index < log@.events.len(),
    ensures
        r@ == matching(log@, filter_views(objs@), *arc_type, ev_index, to_et@),
        forall|i: int| 0 <= i < r@.len() ==> r@[i] < log@.events.len(),
{
    let ghost v = log@;
    let ghost b = filter_views(objs@);
    let n: usize = log.event_count();
    match arc_type {
        OCDeclareArcType::ASS | OCDeclareArcType::EF | OCDeclareArcType::EFREV => {
            let side = match arc_type {
                OCDeclareArcType::ASS => Side::Anywhere,
                OCDeclareArcType::EF => Side::After,
                _ => Side::Before,
            };
            let r = get_evs_with_objs_perf(objs, log, side, ev_index, to_et);
            proof {
                lemma_indices_where(
                    n as nat,
                    |e: usize|
                        binding_holds(v, e as int, b) && on_side(side, ev_index, e)
                            && v.events[e as int].activity == to_et@,
                );
                assert forall|i: int| 0 <= i < r@.len() implies r@[i] < n by {
                    assert(r@.contains(r@[i]));
                }
            }
            r
        },
        OCDeclareArcType::DF | OCDeclareArcType::DFREV => {
            let following = match arc_type {
                OCDeclareArcType::DF => true,
                _ => false,
            };
            let mut r: Vec<usize> = Vec::new();
            match get_df_or_dp_event_perf(objs, log, ev_index, following) {
                Some(e) => {
                    if same_str(log.event(e).activity.as_str(), to_et) {
                        r.push(e);
                        assert(r@ =~= seq![e]);
                    }
                },
                None => {},
            }
            r
        },
        OCDeclareArcType::ALTEF => {
            let nb = neighbour_events(objs, log, Side::After, ev_index);
            let stop = log.event(ev_index).activity.as_str();
            let mut r: Vec<usize> = Vec::new();
            let mut i: usize = 0;
            assert(nb@.skip(0) =~= nb@);
            while i < nb.len()
                invariant
                    i <= nb.len(),
                    v == log@,
                    ev_index < v.events.len(),
                    stop@ == v.events[ev_index as int].activity,
                    forall|i: int| 0 <= i < nb@.len() ==> nb@[i] < v.events.len(),
                    forall|i: int| 0 <= i < r@.len() ==> r@[i] < v.events.len(),
                    r@ + chain_events_forward(v, nb@.skip(i as int), stop@, to_et@)
                        == chain_events_forward(v, nb@, stop@, to_et@),
                    nb@ == neighbours(v, b, Side::After, ev_index),
                    b == filter_views(objs@),
                    *arc_type == OCDeclareArcType::ALTEF,
                decreases nb.len() - i,
            {
                let ev = log.event(nb[i]);
                let ghost before = r@;
                proof {
                    assert(nb@.skip(i as int).first() == nb@[i as int]);
                    assert(nb@.skip(i as int).drop_first() =~= nb@.skip(i as int + 1));
                }
                if same_str(ev.activity.as_str(), stop) {
                    assert(r@ =~= chain_events_forward(v, nb@, stop@, to_et@));
                    return r;
                }
                if same_str(ev.activity.as_str(), to_et) {
                    r.push(nb[i]);
                    assert(r@ + chain_events_forward(v, nb@.skip(i as int + 1), stop@, to_et@)
                        =~= before + chain_events_forward(v, nb@.skip(i as int), stop@, to_et@));
                }
                i += 1;
            }
            assert(r@ =~= chain_events_forward(v, nb@, stop@, to_et@));
            r
        },
        OCDeclareArcType::ALTEFREV => {
            let nb = neighbour_events(objs, log, Side::Before, ev_index);
            let stop = log.event(ev_index).activity.as_str();
            let mut r: Vec<usize> = Vec::new();
            let mut i: usize = nb.len();
            assert(nb@.subrange(0, i as int) =~= nb@);
            while i > 0
                invariant
                    i <= nb.len(),
                    v == log@,
                    ev_index < v.events.len(),
                    stop@ == v.events[ev_index as int].activity,
                    forall|i: int| 0 <= i < nb@.len() ==> nb@[i] < v.events.len(),
                    forall|i: int| 0 <= i < r@.len() ==> r@[i] < v.events.len(),
                    r@ + chain_events_backward(v, nb@.subrange(0, i as int), stop@, to_et@)
                        == chain_events_backward(v, nb@, stop@, to_et@),
                    nb@ == neighbours(v, b, Side::Before, ev_index),
                    b == filter_views(objs@),
                    *arc_type == OCDeclareArcType::ALTEFREV,
                decreases i,
            {
                let ev = log.event(nb[i - 1]);
                let ghost before = r@;
                proof {
                    assert(nb@.subrange(0, i as int).last() == nb@[i as int - 1]);
                    assert(nb@.subrange(0, i as int).drop_last() =~= nb@.subrange(
                        0,
                        i as int - 1,
                    ));
                }
                if same_str(ev.activity.as_str(), stop) {
                    assert(r@ =~= chain_events_backward(v, nb@, stop@, to_et@));
                    return r;
                }
                if same_str(ev.activity.as_str(), to_et) {
                    r.push(nb[i - 1]);
                    assert(r@ + chain_events_backward(
                        v,
                        nb@.subrange(0, i as int - 1),
                        stop@,
                        to_et@,
                    ) =~= before + chain_events_backward(
                        v,
                        nb@.subrange(0, i as int),
                        stop@,
                        to_et@,
                    ));
                }
                i -= 1;
            }
            assert(r@ =~= chain_events_backward(v, nb@, stop@, to_et@));
            r
        },
    }
}

fn ids_of_events(log: &IndexedLog, evs: &Vec<usize>) -> (r: Vec<String>)
    requires
        forall|i: int| 0 <= i < evs@.len() ==> evs@[i] < log@.events.len(),
    ensures
        text_views(r@) == event_ids(log@, evs@),
{
    let mut r: Vec<String> = Vec::new();
    let mut i: usize = 0;
    while i < evs.len()
        invariant
            i <= evs.len(),
            forall|i: int| 0 <= i < evs@.len() ==> evs@[i] < log@.events.len(),
            r@.len() == i,
            forall|j: int| 0 <= j < i ==> (#[trigger] r@[j])@ == log@.events[evs@[j] as int].id,
        decreases evs.len() - i,
    {
        r.push(log.event(evs[i]).id.clone());
        i += 1;
    }
    assert(text_views(r@) =~= event_ids(log@, evs@));
    r
}

fn append_ids_of_objects(target: &mut Vec<String>, log: &IndexedLog, obs: &Vec<usize>)
    ensures
        text_views(final(target)@) == text_views(old(target)@) + object_ids(log@, obs@),
{
    let ghost base = text_views(target@);
    let m: usize = log.object_count();
    let mut i: usize = 0;
    assert(base + object_ids(log@, obs@.subrange(0, 0)) =~= base);
    while i < obs.len()
        invariant
            i <= obs.len(),
            m == log@.objects.len(),
            text_views(target@) == base + object_ids(log@, obs@.subrange(0, i as int)),
        decreases obs.len() - i,
    {
        let o: usize = obs[i];
        let ghost before = text_views(target@);
        let id = if o < m {
            log.object(o).id.clone()
        } else {
            String::new()
        };
        assert(id@ == object_id(log@, o));
        target.push(id);
        assert(text_views(target@) =~= before.push(object_id(log@, o)));
        assert(base + object_ids(log@, obs@.subrange(0, i as int + 1)) =~= before.push(
            object_id(log@, o),
        ));
        i += 1;
    }
    assert(obs@.subrange(0, i as int) =~= obs@);
}

fn ids_in_all(log: &IndexedLog, objs: &Vec<SetFilter>) -> (r: Vec<String>)
    ensures
        text_views(r@) == all_ids(log@, filter_views(objs@)),
{
    let ghost b = filter_views(objs@);
    let mut r: Vec<String> = Vec::new();
    let mut k: usize = 0;
    assert(b.subrange(0, 0) =~= Seq::empty());
    assert(text_views(r@) =~= Seq::empty());
    while k < objs.len()
        invariant
            k <= objs.len(),
            b == filter_views(objs@),
            text_views(r@) == all_ids(log@, b.subrange(0, k as int)),
        decreases objs.len() - k,
    {
        proof {
            assert(b.subrange(0, k as int + 1).drop_last() =~= b.subrange(0, k as int));
            assert(b.subrange(0, k as int + 1).last() == objs@[k as int]@);
        }
        let ghost before = text_views(r@);
        match &objs[k] {
            SetFilter::All(items) => {
                assert(objs@[k as int]@->All_0 == items@);
                append_ids_of_objects(&mut r, log, items);
            },
            SetFilter::Any(items) => {
                assert(objs@[k as int]@->Any_0 == items@);
                assert(text_views(r@) =~= before + Seq::empty());
            },
        }
        k += 1;
    }
    assert(b.subrange(0, k as int) =~= b);
    r
}

fn ids_in_any(log: &IndexedLog, objs: &Vec<SetFilter>) -> (r: Vec<Vec<String>>)
    ensures
        nested_text_views(r@) == any_ids(log@, filter_views(objs@)),
{
    let ghost b = filter_views(objs@);
    let mut r: Vec<Vec<String>> = Vec::new();
    let mut k: usize = 0;
    assert(b.subrange(0, 0) =~= Seq::empty());
    assert(nested_text_views(r@) =~= Seq::empty());
    while k < objs.len()
        invariant
            k <= objs.len(),
            b == filter_views(objs@),
            nested_text_views(r@) == any_ids(log@, b.subrange(0, k as int)),
        decreases objs.len() - k,
    {
        proof {
            assert(b.subrange(0, k as int + 1).drop_last() =~= b.subrange(0, k as int));
            assert(b.subrange(0, k as int + 1).last() == objs@[k as int]@);
        }
        let ghost before = nested_text_views(r@);
        match &objs[k] {
            SetFilter::Any(items) => {
                assert(objs@[k as int]@->Any_0 == items@);
                let mut ids: Vec<String> = Vec::new();
                assert(text_views(ids@) =~= Seq::empty());
                append_ids_of_objects(&mut ids, log, items);
                assert(text_views(ids@) =~= object_ids(log@, items@));
                r.push(ids);
                assert(nested_text_views(r@) =~= before.push(object_ids(log@, items@)));
            },
            SetFilter::All(items) => {
                assert(objs@[k as int]@->All_0 == items@);
            },
        }
        k += 1;
    }
    assert(b.subrange(0, k as int) =~= b);
    r
}

/// The evidence against the binding `objs` of event `ev_index`, if its count is outside
/// the bounds.
pub fn violation_for(
    objs: &Vec<SetFilter>,
    log: &IndexedLog,
    ev_index: usize,
    to_et: &str,
    arc_type: &OCDeclareArcType,
    counts: &(Option<usize>, Option<usize>),
) -> (r: Option<ViolationInfo>)
    requires
        ev_index < log@.events.len(),
    ensures
        match r {
            Some(x) => violation_of(
                log@,
                filter_views(objs@),
                *arc_type,
                ev_index,
                to_et@,
                *counts,
            ) == Some(x@),
            None => violation_of(log@, filter_views(objs@), *arc_type, ev_index, to_et@, *counts)
                is None,
        },
{
    let evs = matching_events(objs, log, ev_index, to_et, arc_type);
    let count: usize = evs.len();
    let too_few = match counts.0 {
        Some(min) => count < min,
        None => false,
    };
    let too_many = match counts.1 {
        Some(max) => count > max,
        None => false,
    };
    if too_few {
        Some(
            ViolationInfo::TooFew {
                source_ev: log.event(ev_index).id.clone(),
                matching_evs: ids_of_events(log, &evs),
                all_obs: ids_in_all(log, objs),
                any_obs: ids_in_any(log, objs),
                count,
            },
        )
    } else if too_many {
        Some(
            ViolationInfo::TooMany {
                source_ev: log.event(ev_index).id.clone(),
                matching_evs: ids_of_events(log, &evs),
                all_obs: ids_in_all(log, objs),
                any_obs: ids_in_any(log, objs),
                count,
            },
        )
    } else {
        None
    }
}

impl OCDeclareArc {
    /// For event `ev_index` of the source activity: the number of its bindings, and the
    /// evidence against each binding that breaks the constraint.
    pub fn get_for_ev(&self, ev_index: usize, log: &IndexedLog) -> (r: (usize, Vec<ViolationInfo>))
        requires
            ev_index < log@.events.len(),
        ensures
            r.0 == bindings(log@, ev_index as int, self@.label).len(),
            violation_views(r.1@) == violations(
                log@,
                bindings(log@, ev_index as int, self@.label),
                self@.arc_type,
                ev_index,
                self@.to,
                self@.counts,
            ),
    {
        let ghost v = log@;
        let bs = self.label.get_bindings(ev_index, log);
        let ghost all = bindings(v, ev_index as int, self@.label);
        let mut found: Vec<ViolationInfo> = Vec::new();
        let mut k: usize = 0;
        assert(all.subrange(0, 0) =~= Seq::empty());
        assert(violation_views(found@) =~= Seq::empty());
        while k < bs.len()
            invariant
                k <= bs.len(),
                v == log@,
                ev_index < v.events.len(),
                binding_views(bs@) == all,
                violation_views(found@) == violations(
                    v,
                    all.subrange(0, k as int),
                    self@.arc_type,
                    ev_index,
                    self@.to,
                    self@.counts,
                ),
            decreases bs.len() - k,
        {
            proof {
                assert(all.subrange(0, k as int + 1).drop_last() =~= all.subrange(0, k as int));
                assert(binding_views(bs@)[k as int] == filter_views(bs@[k as int]@));
                assert(all.subrange(0, k as int + 1).last() == filter_views(bs@[k as int]@));
            }
            let ghost before = violation_views(found@);
            match violation_for(
                &bs[k],
                log,
                ev_index,
                self.to.as_str(),
                &self.arc_type,
                &self.counts,
            ) {
                Some(x) => {
                    let ghost xv = x@;
                    found.push(x);
                    assert(violation_views(found@) =~= before.push(xv));
                },
                None => {},
            }
            k += 1;
        }
        assert(all.subrange(0, k as int) =~= all);
        (bs.len(), found)
    }

    /// For each event of the source activity, in order: the number of its bindings, and
    /// the evidence against each binding that breaks the constraint.
    pub fn get_for_all_evs(&self, log: &IndexedLog) -> (r: Vec<(usize, Vec<ViolationInfo>)>)
        ensures
            r@.len() == events_with_activity(log@, self@.from).len(),
            forall|i: int|
                0 <= i < r@.len() ==> {
                    let e = events_with_activity(log@, self@.from)[i];
                    &&& (#[trigger] r@[i]).0 == bindings(log@, e as int, self@.label).len()
                    &&& violation_views(r@[i].1@) == violations(
                        log@,
                        bindings(log@, e as int, self@.label),
                        self@.arc_type,
                        e,
                        self@.to,
                        self@.counts,
                    )
                },
    {
        let ghost v = log@;
        let n: usize = log.event_count();
        let evs = log.events_of(self.from.as_str());
        proof {
            lemma_indices_where(
                n as nat,
                |e: usize| v.events[e as int].activity == self@.from,
            );
            assert forall|i: int| 0 <= i < evs@.len() implies evs@[i] < n by {
                assert(evs@.contains(evs@[i]));
            }
        }
        let mut r: Vec<(usize, Vec<ViolationInfo>)> = Vec::new();
        let mut i: usize = 0;
        while i < evs.len()
            invariant
                i <= evs.len(),
                v == log@,
                n == v.events.len(),
                evs@ == events_with_activity(v, self@.from),
                forall|i: int| 0 <= i < evs@.len() ==> evs@[i] < n,
                r@.len() == i,
                forall|j: int|
                    0 <= j < i ==> {
                        let e = evs@[j];
                        &&& (#[trigger] r@[j]).0 == bindings(v, e as int, self@.label).len()
                        &&& violation_views(r@[j].1@) == violations(
                            v,
                            bindings(v, e as int, self@.label),
                            self@.arc_type,
                            e,
                            self@.to,
                            self@.counts,
                        )
                    },
            decreases evs.len() - i,
        {
            r.push(self.get_for_ev(evs[i], log));
            i += 1;
        }
        r
    }
}

} // verus!
