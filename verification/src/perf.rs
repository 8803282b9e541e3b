//! Evaluation: whether an event breaks a constraint, how many events of an activity do,
//! and whether that is within a noise threshold.

use vstd::prelude::*;
use crate::arc::{ArcView, OCDeclareArc, OCDeclareArcType};
use crate::binding::{
    binding_views, bindings, filter_holds, filter_views, FilterView, SetFilter,
};
use crate::indices::{
    ascending, count_in, indices_where, insert_ascending, lemma_count_in_bounds,
    lemma_indices_where, lemma_is_indices_where, lemma_prefix_step,
};
use crate::label::{LabelView, OCDeclareArcLabel};
use crate::log::{copy_indices, events_with_activity, well_formed, IndexedLog, LogView};
use crate::text::same_str;

verus! {

/// Where a matching event must lie relative to the source event.
#[derive(Debug, Clone, Copy, PartialEq, Eq, Structural)]
pub enum Side {
    Anywhere,
    After,
    Before,
}

/// Whether event `e` lies on `side` of event `src` in the log's total order.
pub open spec fn on_side(side: Side, src: usize, e: usize) -> bool {
    match side {
        Side::Anywhere => true,
        Side::After => e > src,
        Side::Before => e < src,
    }
}

/// The side on which an arc type looks for events.
pub open spec fn side_of(t: OCDeclareArcType) -> Side {
    match t {
        OCDeclareArcType::ASS => Side::Anywhere,
        OCDeclareArcType::EF | OCDeclareArcType::DF | OCDeclareArcType::ALTEF => Side::After,
        OCDeclareArcType::EFREV | OCDeclareArcType::DFREV | OCDeclareArcType::ALTEFREV => {
            Side::Before
        },
    }
}

/// Whether the set `s` meets every filter of the binding.
pub open spec fn set_meets(b: Seq<FilterView>, s: Seq<usize>) -> bool {
    forall|k: int| 0 <= k < b.len() ==> filter_holds(#[trigger] b[k], s)
}

/// Whether the objects of event `e` meet every filter of the binding.
pub open spec fn binding_holds(v: LogView, e: int, b: Seq<FilterView>) -> bool {
    set_meets(b, v.events[e].objects)
}

/// The events, of any activity, whose objects meet every filter of the binding, ascending.
pub open spec fn related(v: LogView, b: Seq<FilterView>) -> Seq<usize> {
    indices_where(v.events.len(), |e: usize| binding_holds(v, e as int, b))
}

/// The events on `side` of `src`, of any activity, whose objects meet the binding,
/// ascending.
pub open spec fn neighbours(v: LogView, b: Seq<FilterView>, side: Side, src: usize) -> Seq<usize> {
    indices_where(
        v.events.len(),
        |e: usize| binding_holds(v, e as int, b) && on_side(side, src, e),
    )
}

/// The events of activity `to` on `side` of `src` whose objects meet the binding, ascending.
pub open spec fn targets(
    v: LogView,
    b: Seq<FilterView>,
    side: Side,
    src: usize,
    to: Seq<char>,
) -> Seq<usize> {
    indices_where(
        v.events.len(),
        |e: usize|
            binding_holds(v, e as int, b) && on_side(side, src, e) && v.events[e as int].activity
                == to,
    )
}

/// The neighbour nearest to `src`: the first one after it, or the last one before it.
pub open spec fn nearest(v: LogView, b: Seq<FilterView>, side: Side, src: usize) -> Option<usize> {
    let s = neighbours(v, b, side, src);
    if s.len() == 0 {
        None
    } else if side == Side::Before {
        Some(s.last())
    } else {
        Some(s.first())
    }
}

/// Walking `s` from its start: the number of events of activity `to` before the first
/// event of activity `stop`.
pub open spec fn chain_forward(v: LogView, s: Seq<usize>, stop: Seq<char>, to: Seq<char>) -> nat
    decreases s.len(),
{
    if s.len() == 0 {
        0
    } else if v.events[s.first() as int].activity == stop {
        0
    } else {
        (if v.events[s.first() as int].activity == to {
            1nat
        } else {
            0nat
        }) + chain_forward(v, s.drop_first(), stop, to)
    }
}

/// Walking `s` from its end: the number of events of activity `to` before the first
/// event of activity `stop`.
pub open spec fn chain_backward(v: LogView, s: Seq<usize>, stop: Seq<char>, to: Seq<char>) -> nat
    decreases s.len(),
{
    if s.len() == 0 {
        0
    } else if v.events[s.last() as int].activity == stop {
        0
    } else {
        (if v.events[s.last() as int].activity == to {
            1nat
        } else {
            0nat
        }) + chain_backward(v, s.drop_last(), stop, to)
    }
}

/// The count that a binding of event `src` is judged by. For an association or an
/// eventually-follows arc it is the number of targets; for a directly-follows arc it is 1
/// if the nearest neighbour is of activity `to`, else 0; for an alternating arc it is the
/// number of events of `to` among the neighbours, walking away from `src`, before the
/// activity of `src` occurs again.
pub open spec fn observed(
    v: LogView,
    b: Seq<FilterView>,
    t: OCDeclareArcType,
    src: usize,
    to: Seq<char>,
) -> nat {
    match t {
        OCDeclareArcType::ASS | OCDeclareArcType::EF | OCDeclareArcType::EFREV => targets(
            v,
            b,
            side_of(t),
            src,
            to,
        ).len(),
        OCDeclareArcType::DF | OCDeclareArcType::DFREV => match nearest(v, b, side_of(t), src) {
            Some(e) => if v.events[e as int].activity == to {
                1
            } else {
                0
            },
            None => 0,
        },
        OCDeclareArcType::ALTEF => chain_forward(
            v,
            neighbours(v, b, Side::After, src),
            v.events[src as int].activity,
            to,
        ),
        OCDeclareArcType::ALTEFREV => chain_backward(
            v,
            neighbours(v, b, Side::Before, src),
            v.events[src as int].activity,
            to,
        ),
    }
}

/// Whether the count `c` lies outside the bounds.
pub open spec fn out_of_bounds(c: nat, counts: (Option<usize>, Option<usize>)) -> bool {
    (counts.0 is Some && c < counts.0->0) || (counts.1 is Some && c > counts.1->0)
}

/// Whether event `src` breaks the constraint: one of its bindings has a count outside the
/// bounds.
pub open spec fn event_violated(
    v: LogView,
    src: usize,
    to: Seq<char>,
    t: OCDeclareArcType,
    counts: (Option<usize>, Option<usize>),
    l: LabelView,
) -> bool {
    exists|k: int|
        0 <= k < bindings(v, src as int, l).len() && out_of_bounds(
            observed(v, #[trigger] bindings(v, src as int, l)[k], t, src, to),
            counts,
        )
}

/// The number of events of activity `from` that break the constraint.
pub open spec fn violated_count(
    v: LogView,
    from: Seq<char>,
    to: Seq<char>,
    t: OCDeclareArcType,
    counts: (Option<usize>, Option<usize>),
    l: LabelView,
) -> nat {
    count_in(
        events_with_activity(v, from),
        |e: usize| event_violated(v, e, to, t, counts, l),
    )
}

/// How many events of the source activity break a constraint, and how many events the
/// source activity has. With no event there is no evidence either way.
#[derive(Debug, Clone, Copy, PartialEq, Eq, Structural)]
pub struct ViolationFraction {
    pub violated: usize,
    pub total: usize,
}

/// The fraction of the events of an activity that may break a constraint: `numerator`
/// out of `denominator`, between 0 and 1.
#[derive(Debug, Clone, Copy)]
pub struct NoiseThreshold {
    numerator: u64,
    denominator: u64,
}

/// The mathematical value of a [`NoiseThreshold`].
pub struct ThresholdView {
    pub numerator: nat,
    pub denominator: nat,
}

impl View for NoiseThreshold {
    type V = ThresholdView;

    closed spec fn view(&self) -> ThresholdView {
        ThresholdView { numerator: self.numerator as nat, denominator: self.denominator as nat }
    }
}

/// Whether `violated` out of `total` is a fraction of at most the threshold.
pub open spec fn within_threshold(violated: nat, total: nat, threshold: ThresholdView) -> bool {
    violated * threshold.denominator <= threshold.numerator * total
}

/// Whether the constraint holds on the log up to the threshold.
pub open spec fn holds_within(
    v: LogView,
    from: Seq<char>,
    to: Seq<char>,
    t: OCDeclareArcType,
    counts: (Option<usize>, Option<usize>),
    l: LabelView,
    threshold: ThresholdView,
) -> bool {
    within_threshold(
        violated_count(v, from, to, t, counts, l),
        events_with_activity(v, from).len(),
        threshold,
    )
}

impl Default for NoiseThreshold {
    /// The threshold of one fifth.
    fn default() -> (r: Self)
        ensures
            r@ == (ThresholdView { numerator: 1, denominator: 5 }),
    {
        NoiseThreshold { numerator: 1, denominator: 5 }
    }
}

impl NoiseThreshold {
    #[verifier::type_invariant]
    spec fn inv(self) -> bool {
        0 < self.denominator && self.numerator <= self.denominator
    }

    /// The threshold `numerator / denominator`, if that is a fraction between 0 and 1.
    pub fn new(numerator: u64, denominator: u64) -> (r: Option<NoiseThreshold>)
        ensures
            r is Some <==> 0 < denominator && numerator <= denominator,
            r is Some ==> r->0@ == (ThresholdView {
                numerator: numerator as nat,
                denominator: denominator as nat,
            }),
    {
        if denominator == 0 || numerator > denominator {
            None
        } else {
            Some(NoiseThreshold { numerator, denominator })
        }
    }

    /// The numerator of the fraction.
    pub fn numerator(&self) -> (r: u64)
        ensures
            r == self@.numerator,
            self@.numerator <= self@.denominator,
    {
        proof {
            use_type_invariant(self);
        }
        self.numerator
    }

    /// The denominator of the fraction.
    pub fn denominator(&self) -> (r: u64)
        ensures
            r == self@.denominator,
            r > 0,
    {
        proof {
            use_type_invariant(self);
        }
        self.denominator
    }

    /// The largest number of violations out of `total` that is within the threshold.
    pub fn allowance(&self, total: usize) -> (k: usize)
        ensures
            k <= total,
            forall|c: nat| c <= k <==> #[trigger] within_threshold(c, total as nat, self@),
    {
        let num = self.numerator();
        let den = self.denominator();
        assert(total * num <= 0xFFFF_FFFF_FFFF_FFFF * 0xFFFF_FFFF_FFFF_FFFF) by (nonlinear_arith)
            requires
                0 <= total <= 0xFFFF_FFFF_FFFF_FFFF,
                0 <= num <= 0xFFFF_FFFF_FFFF_FFFF,
        ;
        let x: u128 = (total as u128) * (num as u128);
        let q: u128 = x / (den as u128);
        proof {
            let xi = x as int;
            let di = den as int;
            let qi = q as int;
            assert(qi * di <= xi < (qi + 1) * di) by (nonlinear_arith)
                requires
                    di > 0,
                    xi >= 0,
                    qi == xi / di,
            ;
            assert(qi <= total) by (nonlinear_arith)
                requires
                    qi * di <= xi,
                    xi == total * num,
                    0 <= num <= di,
                    di > 0,
                    total >= 0,
                    qi >= 0,
            ;
            assert forall|c: nat| c <= qi <==> #[trigger] within_threshold(
                c,
                total as nat,
                self@,
            ) by {
                let ci = c as int;
                assert(ci <= qi <==> ci * di <= xi) by (nonlinear_arith)
                    requires
                        qi * di <= xi < (qi + 1) * di,
                        di > 0,
                        ci >= 0,
                        qi >= 0,
                ;
                assert(num * total == total * num) by (nonlinear_arith);
            }
        }
        q as usize
    }
}

/// Whether some anchor among the first `q` is in the set `s`.
pub open spec fn touches(s: Seq<usize>, anchors: Seq<usize>, q: int) -> bool {
    exists|i: int| 0 <= i < q && s.contains(#[trigger] anchors[i])
}

/// Whether a filter names an object that every event meeting it must have one of.
pub open spec fn anchored(f: FilterView) -> bool {
    match f {
        FilterView::Any(_) => true,
        FilterView::All(items) => items.len() > 0,
    }
}

/// Objects of which every event that meets the filter has one.
pub open spec fn anchor_list(f: FilterView) -> Seq<usize> {
    match f {
        FilterView::Any(items) => items,
        FilterView::All(items) => seq![items[0]],
    }
}

proof fn lemma_touches_step(s: Seq<usize>, anchors: Seq<usize>, q: int)
    requires
        0 <= q < anchors.len(),
    ensures
        touches(s, anchors, q + 1) <==> touches(s, anchors, q) || s.contains(anchors[q]),
{
    if touches(s, anchors, q + 1) {
        let i = choose|i: int| 0 <= i < q + 1 && s.contains(#[trigger] anchors[i]);
        if i < q {
            assert(touches(s, anchors, q));
        }
    }
    if touches(s, anchors, q) {
        let i = choose|i: int| 0 <= i < q && s.contains(#[trigger] anchors[i]);
        assert(touches(s, anchors, q + 1));
    }
}

proof fn lemma_anchor(f: FilterView, s: Seq<usize>)
    requires
        anchored(f),
        filter_holds(f, s),
    ensures
        touches(s, anchor_list(f), anchor_list(f).len() as int),
{
    match f {
        FilterView::Any(items) => {
            let i = choose|i: int| 0 <= i < items.len() && s.contains(#[trigger] items[i]);
            assert(s.contains(anchor_list(f)[i]));
        },
        FilterView::All(items) => {
            assert(s.contains(items[0]));
            assert(s.contains(anchor_list(f)[0]));
        },
    }
}

/// Whether the set `s` meets every filter of the binding.
pub fn all_hold(objs: &Vec<SetFilter>, s: &Vec<usize>) -> (r: bool)
    ensures
        r == set_meets(filter_views(objs@), s@),
{
    let mut k: usize = 0;
    while k < objs.len()
        invariant
            k <= objs.len(),
            forall|j: int| 0 <= j < k ==> filter_holds(#[trigger] filter_views(objs@)[j], s@),
        decreases objs.len() - k,
    {
        if !objs[k].check(s) {
            assert(!filter_holds(filter_views(objs@)[k as int], s@));
            return false;
        }
        k += 1;
    }
    true
}

fn find_anchor(objs: &Vec<SetFilter>) -> (r: Option<usize>)
    ensures
        match r {
            Some(a) => a < objs@.len() && anchored(objs@[a as int]@),
            None => forall|k: int| 0 <= k < objs@.len() ==> !anchored(#[trigger] objs@[k]@),
        },
{
    let mut k: usize = 0;
    while k < objs.len()
        invariant
            k <= objs.len(),
            forall|j: int| 0 <= j < k ==> !anchored(#[trigger] objs@[j]@),
        decreases objs.len() - k,
    {
        match &objs[k] {
            SetFilter::Any(_) => {
                return Some(k);
            },
            SetFilter::All(items) => {
                if items.len() > 0 {
                    assert(objs@[k as int]@->All_0 == items@);
                    return Some(k);
                }
                assert(objs@[k as int]@->All_0 == items@);
            },
        }
        k += 1;
    }
    None
}

fn anchors_of(f: &SetFilter) -> (r: Vec<usize>)
    requires
        anchored(f@),
    ensures
        r@ == anchor_list(f@),
{
    match f {
        SetFilter::Any(items) => {
            assert(f@->Any_0 == items@);
            copy_indices(items)
        },
        SetFilter::All(items) => {
            assert(f@->All_0 == items@);
            let mut r: Vec<usize> = Vec::new();
            r.push(items[0]);
            assert(r@ =~= seq![items@[0]]);
            r
        },
    }
}

/// The events, of any activity, whose objects meet every filter of the binding, ascending.
/// An object that some filter asks for leads to them through the events it takes part
/// in; where no filter names an object, every event is looked at.
pub fn related_events(objs: &Vec<SetFilter>, log: &IndexedLog) -> (r: Vec<usize>)
    ensures
        r@ == related(log@, filter_views(objs@)),
{
    let n: usize = log.event_count();
    let m: usize = log.object_count();
    let ghost v = log@;
    let ghost b = filter_views(objs@);
    let mut r: Vec<usize> = Vec::new();
    match find_anchor(objs) {
        None => {
            let mut e: usize = 0;
            while e < n
                invariant
                    e <= n,
                    n == v.events.len(),
                    v == log@,
                    b == filter_views(objs@),
                    ascending(r@),
                    forall|x: usize| r@.contains(x) <==> x < e && binding_holds(v, x as int, b),
                decreases n - e,
            {
                let ghost before = r@;
                if all_hold(objs, &log.event(e).objects) {
                    insert_ascending(&mut r, e);
                }
                proof {
                    assert forall|x: usize|
                        r@.contains(x) <==> x < e + 1 && binding_holds(v, x as int, b) by {
                        assert(before.contains(x) <==> x < e && binding_holds(v, x as int, b));
                    }
                }
                e += 1;
            }
        },
        Some(a) => {
            let anchors = anchors_of(&objs[a]);
            let mut q: usize = 0;
            while q < anchors.len()
                invariant
                    q <= anchors.len(),
                    n == v.events.len(),
                    m == v.objects.len(),
                    v == log@,
                    well_formed(v),
                    b == filter_views(objs@),
                    ascending(r@),
                    forall|x: usize|
                        r@.contains(x) <==> x < n && binding_holds(v, x as int, b) && touches(
                            v.events[x as int].objects,
                            anchors@,
                            q as int,
                        ),
                decreases anchors.len() - q,
            {
                let o: usize = anchors[q];
                if o < m {
                    let list = log.object_events(o);
                    let mut j: usize = 0;
                    while j < list.len()
                        invariant
                            j <= list.len(),
                            q < anchors.len(),
                            o == anchors@[q as int],
                            n == v.events.len(),
                            v == log@,
                            b == filter_views(objs@),
                            forall|x: usize|
                                list@.contains(x) <==> x < n && v.events[x as int].objects.contains(
                                    o,
                                ),
                            ascending(r@),
                            forall|x: usize|
                                r@.contains(x) <==> x < n && binding_holds(v, x as int, b) && (
                                touches(v.events[x as int].objects, anchors@, q as int)
                                    || list@.subrange(0, j as int).contains(x)),
                        decreases list.len() - j,
                    {
                        let e: usize = list[j];
                        let ghost before = r@;
                        proof {
                            lemma_prefix_step(list@, j as int);
                            assert(list@.contains(e));
                        }
                        if all_hold(objs, &log.event(e).objects) {
                            insert_ascending(&mut r, e);
                        }
                        proof {
                            assert forall|x: usize|
                                r@.contains(x) <==> x < n && binding_holds(v, x as int, b) && (
                                touches(v.events[x as int].objects, anchors@, q as int)
                                    || list@.subrange(0, j as int + 1).contains(x)) by {
                                assert(before.contains(x) <==> x < n && binding_holds(
                                    v,
                                    x as int,
                                    b,
                                ) && (touches(v.events[x as int].objects, anchors@, q as int)
                                    || list@.subrange(0, j as int).contains(x)));
                                assert(list@.subrange(0, j as int + 1).contains(x)
                                    <==> list@.subrange(0, j as int).contains(x) || x == e);
                            }
                        }
                        j += 1;
                    }
                    proof {
                        assert(list@.subrange(0, j as int) =~= list@);
                        assert forall|x: usize|
                            r@.contains(x) <==> x < n && binding_holds(v, x as int, b) && touches(
                                v.events[x as int].objects,
                                anchors@,
                                q as int + 1,
                            ) by {
                            lemma_touches_step(v.events[x as int].objects, anchors@, q as int);
                        }
                    }
                } else {
                    proof {
                        assert forall|x: usize|
                            r@.contains(x) <==> x < n && binding_holds(v, x as int, b) && touches(
                                v.events[x as int].objects,
                                anchors@,
                                q as int + 1,
                            ) by {
                            lemma_touches_step(v.events[x as int].objects, anchors@, q as int);
                            if x < n && v.events[x as int].objects.contains(o) {
                                let s = v.events[x as int].objects;
                                let i = choose|i: int| 0 <= i < s.len() && s[i] == o;
                                assert(s[i] < m);
                            }
                        }
                    }
                }
                q += 1;
            }
            proof {
                assert forall|x: usize|
                    r@.contains(x) <==> x < n && binding_holds(v, x as int, b) by {
                    if x < n && binding_holds(v, x as int, b) {
                        assert(filter_holds(b[a as int], v.events[x as int].objects));
                        lemma_anchor(b[a as int], v.events[x as int].objects);
                    }
                }
            }
        },
    }
    proof {
        lemma_is_indices_where(r@, n as nat, |e: usize| binding_holds(v, e as int, b));
    }
    r
}

/// Whether event `e` lies on `side` of event `src`.
pub fn is_on_side(side: Side, src: usize, e: usize) -> (r: bool)
    ensures
        r == on_side(side, src, e),
{
    match side {
        Side::Anywhere => true,
        Side::After => e > src,
        Side::Before => e < src,
    }
}

/// The candidates on `side` of `src`, of `activity` where one is given.
fn narrow(
    cands: &Vec<usize>,
    log: &IndexedLog,
    side: Side,
    src: usize,
    activity: Option<&str>,
) -> (r: Vec<usize>)
    requires
        forall|i: int| 0 <= i < cands@.len() ==> cands@[i] < log@.events.len(),
    ensures
        ascending(r@),
        forall|x: usize|
            r@.contains(x) <==> cands@.contains(x) && on_side(side, src, x) && match activity {
                Some(a) => log@.events[x as int].activity == a@,
                None => true,
            },
{
    let mut r: Vec<usize> = Vec::new();
    let mut i: usize = 0;
    while i < cands.len()
        invariant
            i <= cands.len(),
            forall|i: int| 0 <= i < cands@.len() ==> cands@[i] < log@.events.len(),
            ascending(r@),
            forall|x: usize|
                r@.contains(x) <==> cands@.subrange(0, i as int).contains(x) && on_side(
                    side,
                    src,
                    x,
                ) && match activity {
                    Some(a) => log@.events[x as int].activity == a@,
                    None => true,
                },
        decreases cands.len() - i,
    {
        let e: usize = cands[i];
        let ghost before = r@;
        let fits = is_on_side(side, src, e) && match activity {
            Some(a) => same_str(log.event(e).activity.as_str(), a),
            None => true,
        };
        if fits {
            insert_ascending(&mut r, e);
        }
        proof {
            lemma_prefix_step(cands@, i as int);
            assert forall|x: usize|
                r@.contains(x) <==> cands@.subrange(0, i as int + 1).contains(x) && on_side(
                    side,
                    src,
                    x,
                ) && match activity {
                    Some(a) => log@.events[x as int].activity == a@,
                    None => true,
                } by {
                assert(before.contains(x) <==> cands@.subrange(0, i as int).contains(x) && on_side(
                    side,
                    src,
                    x,
                ) && match activity {
                    Some(a) => log@.events[x as int].activity == a@,
                    None => true,
                });
                assert(cands@.subrange(0, i as int + 1).contains(x) <==> cands@.subrange(
                    0,
                    i as int,
                ).contains(x) || x == e);
            }
        }
        i += 1;
    }
    assert(cands@.subrange(0, i as int) =~= cands@);
    r
}

/// The events of activity `etype` on `side` of `src` whose objects meet every filter of
/// the binding, ascending.
pub fn get_evs_with_objs_perf(
    objs: &Vec<SetFilter>,
    log: &IndexedLog,
    side: Side,
    src: usize,
    etype: &str,
) -> (r: Vec<usize>)
    ensures
        r@ == targets(log@, filter_views(objs@), side, src, etype@),
{
    let n: usize = log.event_count();
    let cands = related_events(objs, log);
    let ghost v = log@;
    let ghost b = filter_views(objs@);
    proof {
        lemma_indices_where(v.events.len(), |e: usize| binding_holds(v, e as int, b));
        assert forall|i: int| 0 <= i < cands@.len() implies cands@[i] < v.events.len() by {
            assert(cands@.contains(cands@[i]));
        }
    }
    let r = narrow(&cands, log, side, src, Some(etype));
    proof {
        lemma_is_indices_where(
            r@,
            n as nat,
            |e: usize|
                binding_holds(v, e as int, b) && on_side(side, src, e)
                    && v.events[e as int].activity == etype@,
        );
    }
    r
}

/// The events of activity `etype` whose objects meet every filter of the binding,
/// ascending.
pub fn get_evs_with_objs(objs: &Vec<SetFilter>, log: &IndexedLog, etype: &str) -> (r: Vec<usize>)
    ensures
        r@ == targets(log@, filter_views(objs@), Side::Anywhere, 0, etype@),
{
    get_evs_with_objs_perf(objs, log, Side::Anywhere, 0, etype)
}

/// The events on `side` of `src`, of any activity, whose objects meet the binding,
/// ascending.
pub fn neighbour_events(objs: &Vec<SetFilter>, log: &IndexedLog, side: Side, src: usize) -> (r:
    Vec<usize>)
    ensures
        r@ == neighbours(log@, filter_views(objs@), side, src),
        forall|i: int| 0 <= i < r@.len() ==> r@[i] < log@.events.len(),
{
    let n: usize = log.event_count();
    let cands = related_events(objs, log);
    let ghost v = log@;
    let ghost b = filter_views(objs@);
    proof {
        lemma_indices_where(v.events.len(), |e: usize| binding_holds(v, e as int, b));
        assert forall|i: int| 0 <= i < cands@.len() implies cands@[i] < v.events.len() by {
            assert(cands@.contains(cands@[i]));
        }
    }
    let r = narrow(&cands, log, side, src, None);
    proof {
        lemma_is_indices_where(
            r@,
            n as nat,
            |e: usize| binding_holds(v, e as int, b) && on_side(side, src, e),
        );
        assert forall|i: int| 0 <= i < r@.len() implies r@[i] < v.events.len() by {
            assert(r@.contains(r@[i]));
        }
    }
    r
}

/// The event nearest to the reference event among those that share the bound objects:
/// the next one when `following`, the last earlier one otherwise.
pub fn get_df_or_dp_event_perf(
    objs: &Vec<SetFilter>,
    log: &IndexedLog,
    reference_event_index: usize,
    following: bool,
) -> (r: Option<usize>)
    ensures
        r == nearest(
            log@,
            filter_views(objs@),
            if following {
                Side::After
            } else {
                Side::Before
            },
            reference_event_index,
        ),
        r is Some ==> r->0 < log@.events.len(),
{
    let side = if following {
        Side::After
    } else {
        Side::Before
    };
    let nb = neighbour_events(objs, log, side, reference_event_index);
    if nb.len() == 0 {
        None
    } else if following {
        Some(nb[0])
    } else {
        Some(nb[nb.len() - 1])
    }
}

/// Among the events that share the bound objects, walking away from the reference event
/// (forward when `following`): the number of events of activity `to_ev_type` before the
/// first event of activity `alternate_ev_type`.
pub fn get_alternate_ef_ep_event_perf(
    objs: &Vec<SetFilter>,
    log: &IndexedLog,
    reference_event_index: usize,
    following: bool,
    alternate_ev_type: &str,
    to_ev_type: &str,
) -> (r: usize)
    ensures
        following ==> r == chain_forward(
            log@,
            neighbours(log@, filter_views(objs@), Side::After, reference_event_index),
            alternate_ev_type@,
            to_ev_type@,
        ),
        !following ==> r == chain_backward(
            log@,
            neighbours(log@, filter_views(objs@), Side::Before, reference_event_index),
            alternate_ev_type@,
            to_ev_type@,
        ),
{
    let ghost v = log@;
    let mut count: usize = 0;
    if following {
        let nb = neighbour_events(objs, log, Side::After, reference_event_index);
        let mut i: usize = 0;
        assert(nb@.skip(0) =~= nb@);
        while i < nb.len()
            invariant
                i <= nb.len(),
                v == log@,
                following,
                nb@ == neighbours(v, filter_views(objs@), Side::After, reference_event_index),
                count <= i,
                forall|i: int| 0 <= i < nb@.len() ==> nb@[i] < v.events.len(),
                count + chain_forward(v, nb@.skip(i as int), alternate_ev_type@, to_ev_type@)
                    == chain_forward(v, nb@, alternate_ev_type@, to_ev_type@),
            decreases nb.len() - i,
        {
            let ev = log.event(nb[i]);
            proof {
                assert(nb@.skip(i as int).first() == nb@[i as int]);
                assert(nb@.skip(i as int).drop_first() =~= nb@.skip(i as int + 1));
            }
            if same_str(ev.activity.as_str(), alternate_ev_type) {
                return count;
            }
            if same_str(ev.activity.as_str(), to_ev_type) {
                count += 1;
            }
            i += 1;
        }
        count
    } else {
        let nb = neighbour_events(objs, log, Side::Before, reference_event_index);
        let mut i: usize = nb.len();
        assert(nb@.subrange(0, i as int) =~= nb@);
        while i > 0
            invariant
                i <= nb.len(),
                v == log@,
                !following,
                nb@ == neighbours(v, filter_views(objs@), Side::Before, reference_event_index),
                count <= nb.len() - i,
                forall|i: int| 0 <= i < nb@.len() ==> nb@[i] < v.events.len(),
                count + chain_backward(
                    v,
                    nb@.subrange(0, i as int),
                    alternate_ev_type@,
                    to_ev_type@,
                ) == chain_backward(v, nb@, alternate_ev_type@, to_ev_type@),
            decreases i,
        {
            let ev = log.event(nb[i - 1]);
            proof {
                assert(nb@.subrange(0, i as int).last() == nb@[i as int - 1]);
                assert(nb@.subrange(0, i as int).drop_last() =~= nb@.subrange(0, i as int - 1));
            }
            if same_str(ev.activity.as_str(), alternate_ev_type) {
                return count;
            }
            if same_str(ev.activity.as_str(), to_ev_type) {
                count += 1;
            }
            i -= 1;
        }
        count
    }
}

/// The count that the binding `objs` of event `ev_index` is judged by.
pub fn observed_count(
    objs: &Vec<SetFilter>,
    log: &IndexedLog,
    ev_index: usize,
    to_et: &str,
    arc_type: &OCDeclareArcType,
) -> (r: usize)
    requires
        ev_index < log@.events.len(),
    ensures
        r == observed(log@, filter_views(objs@), *arc_type, ev_index, to_et@),
{
    let ghost v = log@;
    let ghost b = filter_views(objs@);
    match arc_type {
        OCDeclareArcType::ASS => get_evs_with_objs_perf(objs, log, Side::Anywhere, ev_index, to_et).len(),
        OCDeclareArcType::EF => get_evs_with_objs_perf(objs, log, Side::After, ev_index, to_et).len(),
        OCDeclareArcType::EFREV => get_evs_with_objs_perf(objs, log, Side::Before, ev_index, to_et).len(),
        OCDeclareArcType::DF => match get_df_or_dp_event_perf(objs, log, ev_index, true) {
            Some(e) => if same_str(log.event(e).activity.as_str(), to_et) {
                1
            } else {
                0
            },
            None => 0,
        },
        OCDeclareArcType::DFREV => match get_df_or_dp_event_perf(objs, log, ev_index, false) {
            Some(e) => if same_str(log.event(e).activity.as_str(), to_et) {
                1
            } else {
                0
            },
            None => 0,
        },
        OCDeclareArcType::ALTEF => get_alternate_ef_ep_event_perf(
            objs,
            log,
            ev_index,
            true,
            log.event(ev_index).activity.as_str(),
            to_et,
        ),
        OCDeclareArcType::ALTEFREV => get_alternate_ef_ep_event_perf(
            objs,
            log,
            ev_index,
            false,
            log.event(ev_index).activity.as_str(),
            to_et,
        ),
    }
}

/// Whether the count `c` lies outside the bounds.
pub fn is_out_of_bounds(c: usize, counts: &(Option<usize>, Option<usize>)) -> (r: bool)
    ensures
        r == out_of_bounds(c as nat, *counts),
{
    let low = match counts.0 {
        Some(min) => c < min,
        None => false,
    };
    let high = match counts.1 {
        Some(max) => c > max,
        None => false,
    };
    low || high
}

/// Whether event `ev_index` breaks the constraint.
pub fn get_for_ev_perf(
    ev_index: usize,
    label: &OCDeclareArcLabel,
    to_et: &str,
    arc_type: &OCDeclareArcType,
    counts: &(Option<usize>, Option<usize>),
    log: &IndexedLog,
) -> (r: bool)
    requires
        ev_index < log@.events.len(),
    ensures
        r == event_violated(log@, ev_index, to_et@, *arc_type, *counts, label@),
{
    let ghost v = log@;
    let bs = label.get_bindings(ev_index, log);
    let ghost all = bindings(v, ev_index as int, label@);
    let mut k: usize = 0;
    while k < bs.len()
        invariant
            k <= bs.len(),
            v == log@,
            ev_index < v.events.len(),
            all == bindings(v, ev_index as int, label@),
            binding_views(bs@) == all,
            forall|j: int|
                0 <= j < k ==> !out_of_bounds(
                    observed(v, #[trigger] all[j], *arc_type, ev_index, to_et@),
                    *counts,
                ),
        decreases bs.len() - k,
    {
        assert(binding_views(bs@)[k as int] == filter_views(bs@[k as int]@));
        let c = observed_count(&bs[k], log, ev_index, to_et, arc_type);
        if is_out_of_bounds(c, counts) {
            assert(out_of_bounds(observed(v, all[k as int], *arc_type, ev_index, to_et@), *counts));
            return true;
        }
        k += 1;
    }
    false
}

/// How many events of activity `from_et` break the constraint, and how many events the
/// activity has.
pub fn get_for_all_evs_perf(
    from_et: &str,
    to_et: &str,
    label: &OCDeclareArcLabel,
    arc_type: &OCDeclareArcType,
    counts: &(Option<usize>, Option<usize>),
    log: &IndexedLog,
) -> (r: ViolationFraction)
    ensures
        r.total == events_with_activity(log@, from_et@).len(),
        r.violated == violated_count(log@, from_et@, to_et@, *arc_type, *counts, label@),
{
    let ghost v = log@;
    let ghost q = |e: usize| event_violated(v, e, to_et@, *arc_type, *counts, label@);
    let evs = log.events_of(from_et);
    proof {
        lemma_indices_where(
            v.events.len(),
            |e: usize| v.events[e as int].activity == from_et@,
        );
        assert forall|i: int| 0 <= i < evs@.len() implies evs@[i] < v.events.len() by {
            assert(evs@.contains(evs@[i]));
        }
    }
    let mut violated: usize = 0;
    let mut i: usize = 0;
    assert(evs@.subrange(0, 0) =~= Seq::empty());
    while i < evs.len()
        invariant
            i <= evs.len(),
            v == log@,
            q == |e: usize| event_violated(v, e, to_et@, *arc_type, *counts, label@),
            forall|i: int| 0 <= i < evs@.len() ==> evs@[i] < v.events.len(),
            violated <= i,
            violated == count_in(evs@.subrange(0, i as int), q),
        decreases evs.len() - i,
    {
        proof {
            assert(evs@.subrange(0, i as int + 1).drop_last() =~= evs@.subrange(0, i as int));
            assert(evs@.subrange(0, i as int + 1).last() == evs@[i as int]);
        }
        if get_for_ev_perf(evs[i], label, to_et, arc_type, counts, log) {
            violated += 1;
        }
        i += 1;
    }
    assert(evs@.subrange(0, i as int) =~= evs@);
    ViolationFraction { violated, total: evs.len() }
}

/// Whether the fraction of the events of activity `from_et` that break the constraint is
/// at most `threshold`: the answer that the exact counts of [`get_for_all_evs_perf`]
/// give, found without looking at more events than it takes to decide it. An activity
/// without events breaks nothing.
pub fn get_for_all_evs_perf_thresh(
    from_et: &str,
    to_et: &str,
    label: &OCDeclareArcLabel,
    arc_type: &OCDeclareArcType,
    counts: &(Option<usize>, Option<usize>),
    log: &IndexedLog,
    threshold: &NoiseThreshold,
) -> (r: bool)
    ensures
        r == holds_within(log@, from_et@, to_et@, *arc_type, *counts, label@, threshold@),
{
    let ghost v = log@;
    let ghost q = |e: usize| event_violated(v, e, to_et@, *arc_type, *counts, label@);
    let evs = log.events_of(from_et);
    proof {
        lemma_indices_where(
            v.events.len(),
            |e: usize| v.events[e as int].activity == from_et@,
        );
        assert forall|i: int| 0 <= i < evs@.len() implies evs@[i] < v.events.len() by {
            assert(evs@.contains(evs@[i]));
        }
    }
    let total: usize = evs.len();
    let allowed: usize = threshold.allowance(total);
    let min_sat: usize = total - allowed;
    let mut violated: usize = 0;
    let mut satisfied: usize = 0;
    let mut i: usize = 0;
    assert(evs@.subrange(0, 0) =~= Seq::empty());
    while i < total
        invariant
            i <= total,
            total == evs.len(),
            allowed <= total,
            min_sat == total - allowed,
            v == log@,
            q == |e: usize| event_violated(v, e, to_et@, *arc_type, *counts, label@),
            forall|i: int| 0 <= i < evs@.len() ==> evs@[i] < v.events.len(),
            forall|c: nat| c <= allowed <==> #[trigger] within_threshold(c, total as nat, threshold@),
            evs@ == events_with_activity(v, from_et@),
            violated + satisfied == i,
            violated == count_in(evs@.subrange(0, i as int), q),
        decreases total - i,
    {
        proof {
            lemma_count_in_bounds(evs@, q, i as int);
            assert(evs@.subrange(0, i as int + 1).drop_last() =~= evs@.subrange(0, i as int));
            assert(evs@.subrange(0, i as int + 1).last() == evs@[i as int]);
        }
        if satisfied >= min_sat {
            assert(within_threshold(count_in(evs@, q), total as nat, threshold@));
            return true;
        }
        if violated > allowed {
            assert(!within_threshold(count_in(evs@, q), total as nat, threshold@));
            return false;
        }
        if get_for_ev_perf(evs[i], label, to_et, arc_type, counts, log) {
            violated += 1;
        } else {
            satisfied += 1;
        }
        i += 1;
    }
    assert(evs@.subrange(0, i as int) =~= evs@);
    let r = violated <= allowed;
    assert(r == within_threshold(count_in(evs@, q), total as nat, threshold@));
    r
}

/// Whether the arc holds on the log up to the threshold.
pub open spec fn arc_holds(v: LogView, a: ArcView, threshold: ThresholdView) -> bool {
    holds_within(v, a.from, a.to, a.arc_type, a.counts, a.label, threshold)
}

impl OCDeclareArc {
    /// How many events of the source activity break the constraint, and how many events
    /// the activity has.
    pub fn get_for_all_evs_perf(&self, log: &IndexedLog) -> (r: ViolationFraction)
        ensures
            r.total == events_with_activity(log@, self@.from).len(),
            r.violated == violated_count(
                log@,
                self@.from,
                self@.to,
                self@.arc_type,
                self@.counts,
                self@.label,
            ),
    {
        get_for_all_evs_perf(
            self.from.as_str(),
            self.to.as_str(),
            &self.label,
            &self.arc_type,
            &self.counts,
            log,
        )
    }

    /// Whether the constraint holds on the log up to the threshold.
    pub fn get_for_all_evs_perf_thresh(&self, log: &IndexedLog, noise_thresh: &NoiseThreshold) -> (r:
        bool)
        ensures
            r == arc_holds(log@, self@, noise_thresh@),
    {
        get_for_all_evs_perf_thresh(
            self.from.as_str(),
            self.to.as_str(),
            &self.label,
            &self.arc_type,
            &self.counts,
            log,
            noise_thresh,
        )
    }
}

} // verus!
