//! The net of the arcs that run both ways: for each pair of an eventually-follows arc and
//! the eventually-precedes arc back, a group of places, with loops for the activities
//! that may occur in between.

use vstd::prelude::*;
use vstd::string::*;
use crate::arc::{arc_views, ArcView, OCDeclareArc, OCDeclareArcType};
use crate::association::{assoc_views, AssociationView, ObjectTypeAssociation};
use crate::discovery::involved_max;
use crate::indices::lemma_indices_where;
use crate::involvement::{involvement_entry, Relation};
use crate::label::{contains_assoc, dominated_by, meet, LabelView, OCDeclareArcLabel};
use crate::log::{clone_texts, find_text, text_views, IndexedLog, LogView};
use crate::perf::{get_for_all_evs_perf_thresh, holds_within, NoiseThreshold, ThresholdView};
use crate::sync_group_discovery::{
    is_exit, is_init, place_views, position, starts_exit, starts_init, NetPlace, NetView,
    OCPetriNet, PlaceView,
};
use crate::text::same_text;

verus! {

/// The end of an arc at the transition of a declared activity, with weight 10 where
/// `multiple`, else 1.
pub open spec fn flagged_end(v: LogView, act: Seq<char>, multiple: bool) -> Seq<
    (usize, Option<u32>),
> {
    match position(v.event_types, act) {
        Some(t) => seq![(t as usize, Some(if multiple {
            10u32
        } else {
            1u32
        }))],
        None => Seq::empty(),
    }
}

/// Whether the list holds the direct association with type `ot`.
pub open spec fn has_simple(items: Seq<AssociationView>, ot: Seq<char>) -> bool {
    items.contains(AssociationView::Simple { object_type: ot })
}

/// Whether `a` and `b` are an eventually-follows arc and the eventually-precedes arc
/// back, not spanning the whole life of an object, and under their common label the
/// two activities alternate exactly once.
pub open spec fn forms_pair(v: LogView, threshold: ThresholdView, a: ArcView, b: ArcView) -> bool {
    let common = meet(a.label, b.label);
    &&& a.from == b.to
    &&& a.to == b.from
    &&& a.arc_type == OCDeclareArcType::EF
    &&& b.arc_type == OCDeclareArcType::EFREV
    &&& !(starts_init(a.from) && starts_exit(a.to))
    &&& holds_within(
        v,
        a.from,
        a.to,
        OCDeclareArcType::ALTEF,
        (Some(1usize), Some(1usize)),
        common,
        threshold,
    )
    &&& holds_within(
        v,
        b.from,
        b.to,
        OCDeclareArcType::ALTEFREV,
        (Some(1usize), Some(1usize)),
        common,
        threshold,
    )
}

/// Whether some arc leads from activity `from` to activity `to`.
pub open spec fn connects(arcs: Seq<ArcView>, from: Seq<char>, to: Seq<char>) -> bool {
    exists|d: int| 0 <= d < arcs.len() && (#[trigger] arcs[d]).to == to && arcs[d].from == from
}

/// Whether `c1` and `c2` show an activity that may occur between the two ends of `a`:
/// `c1` says that the source of `a` eventually precedes it, `c2` that the target of `a`
/// eventually follows it, no arc leads from the source of `a` to it, and the common
/// label of `c1` and `c2` is dominated by `common`.
pub open spec fn is_loop(
    arcs: Seq<ArcView>,
    a: ArcView,
    common: LabelView,
    c1: ArcView,
    c2: ArcView,
) -> bool {
    &&& c1.to == a.from
    &&& c2.to == a.to
    &&& c1.arc_type == OCDeclareArcType::EFREV
    &&& c2.arc_type == OCDeclareArcType::EF
    &&& c1.from == c2.from
    &&& !connects(arcs, a.from, c1.from)
    &&& dominated_by(meet(c1.label, c2.label), common)
}

/// The ends of the loop arcs that `c1` and `c2` give a place of type `ot`: one of weight
/// 10 where their common label groups the type, and one of weight 1 where it binds the
/// type one object at a time.
pub open spec fn loop_ends(v: LogView, c1: ArcView, c2: ArcView, ot: Seq<char>) -> Seq<
    (usize, Option<u32>),
> {
    let cc = meet(c1.label, c2.label);
    (if has_simple(cc.all, ot) {
        flagged_end(v, c1.from, true)
    } else {
        Seq::empty()
    }) + (if has_simple(cc.each, ot) {
        flagged_end(v, c1.from, false)
    } else {
        Seq::empty()
    })
}

/// The loop ends from the arc at `i` with the first `j` arcs.
pub open spec fn loops_row(
    v: LogView,
    arcs: Seq<ArcView>,
    a: ArcView,
    common: LabelView,
    ot: Seq<char>,
    i: int,
    j: nat,
) -> Seq<(usize, Option<u32>)>
    decreases j,
{
    if j == 0 {
        Seq::empty()
    } else {
        loops_row(v, arcs, a, common, ot, i, (j - 1) as nat) + (if is_loop(
            arcs,
            a,
            common,
            arcs[i],
            arcs[j - 1],
        ) {
            loop_ends(v, arcs[i], arcs[j - 1], ot)
        } else {
            Seq::empty()
        })
    }
}

/// The loop ends from the first `i` arcs.
pub open spec fn loops(
    v: LogView,
    arcs: Seq<ArcView>,
    a: ArcView,
    common: LabelView,
    ot: Seq<char>,
    i: nat,
) -> Seq<(usize, Option<u32>)>
    decreases i,
{
    if i == 0 {
        Seq::empty()
    } else {
        loops(v, arcs, a, common, ot, (i - 1) as nat) + loops_row(
            v,
            arcs,
            a,
            common,
            ot,
            i - 1,
            arcs.len(),
        )
    }
}

/// The place of type `ot` between the two ends of `a`.
pub open spec fn pair_place(
    v: LogView,
    arcs: Seq<ArcView>,
    a: ArcView,
    common: LabelView,
    ot: Seq<char>,
    from_multiple: bool,
    to_multiple: bool,
    group: usize,
) -> PlaceView {
    let l = loops(v, arcs, a, common, ot, arcs.len());
    PlaceView {
        object_type: ot,
        group: Some(group),
        inputs: flagged_end(v, a.from, from_multiple) + l,
        outputs: flagged_end(v, a.to, to_multiple) + l,
    }
}

/// The place for one association of the common label, if it is a direct one: with
/// weights 10 where `grouped`, else with the weight that the involvement of each
/// activity with the type gives.
pub open spec fn pair_item_place(
    v: LogView,
    arcs: Seq<ArcView>,
    a: ArcView,
    common: LabelView,
    item: AssociationView,
    grouped: bool,
    group: usize,
) -> Seq<PlaceView> {
    match item {
        AssociationView::Simple { object_type } => seq![
            pair_place(
                v,
                arcs,
                a,
                common,
                object_type,
                grouped || involved_max(v, Relation::EventObjects, a.from, object_type) > 1,
                grouped || involved_max(v, Relation::EventObjects, a.to, object_type) > 1,
                group,
            ),
        ],
        _ => Seq::empty(),
    }
}

/// The places for the associations `items`, in order.
pub open spec fn pair_items_places(
    v: LogView,
    arcs: Seq<ArcView>,
    a: ArcView,
    common: LabelView,
    items: Seq<AssociationView>,
    grouped: bool,
    group: usize,
) -> Seq<PlaceView>
    decreases items.len(),
{
    if items.len() == 0 {
        Seq::empty()
    } else {
        pair_items_places(v, arcs, a, common, items.drop_last(), grouped, group)
            + pair_item_place(v, arcs, a, common, items.last(), grouped, group)
    }
}

/// The group of places of the pair `a`, `b`: the places of the types that the common
/// label groups, then those of the types that it binds one object at a time.
pub open spec fn pair_places(v: LogView, arcs: Seq<ArcView>, a: ArcView, b: ArcView, group: usize) -> Seq<
    PlaceView,
> {
    let common = meet(a.label, b.label);
    pair_items_places(v, arcs, a, common, common.all, true, group) + pair_items_places(
        v,
        arcs,
        a,
        common,
        common.each,
        false,
        group,
    )
}

/// The number of pairs that the arc at `i` forms with the first `j` arcs.
pub open spec fn row_pairs(v: LogView, threshold: ThresholdView, arcs: Seq<ArcView>, i: int, j: nat) -> nat
    decreases j,
{
    if j == 0 {
        0
    } else {
        row_pairs(v, threshold, arcs, i, (j - 1) as nat) + if forms_pair(
            v,
            threshold,
            arcs[i],
            arcs[j - 1],
        ) {
            1nat
        } else {
            0nat
        }
    }
}

/// The number of pairs that the first `i` arcs form.
pub open spec fn pairs_before(v: LogView, threshold: ThresholdView, arcs: Seq<ArcView>, i: nat) -> nat
    decreases i,
{
    if i == 0 {
        0
    } else {
        pairs_before(v, threshold, arcs, (i - 1) as nat) + row_pairs(
            v,
            threshold,
            arcs,
            i - 1,
            arcs.len(),
        )
    }
}

/// A number of groups as a group index, which stops at the largest index.
pub open spec fn group_index(n: nat) -> usize {
    if n > usize::MAX {
        usize::MAX
    } else {
        n as usize
    }
}

/// The places of the pairs that the arc at `i` forms with the first `j` arcs.
pub open spec fn row_places(
    v: LogView,
    threshold: ThresholdView,
    arcs: Seq<ArcView>,
    i: int,
    j: nat,
) -> Seq<PlaceView>
    decreases j,
{
    if j == 0 {
        Seq::empty()
    } else {
        row_places(v, threshold, arcs, i, (j - 1) as nat) + (if forms_pair(
            v,
            threshold,
            arcs[i],
            arcs[j - 1],
        ) {
            pair_places(
                v,
                arcs,
                arcs[i],
                arcs[j - 1],
                group_index(
                    pairs_before(v, threshold, arcs, i as nat) + row_pairs(
                        v,
                        threshold,
                        arcs,
                        i,
                        (j - 1) as nat,
                    ),
                ),
            )
        } else {
            Seq::empty()
        })
    }
}

/// The places of the pairs that the first `i` arcs form.
pub open spec fn pairs_places(v: LogView, threshold: ThresholdView, arcs: Seq<ArcView>, i: nat) -> Seq<
    PlaceView,
>
    decreases i,
{
    if i == 0 {
        Seq::empty()
    } else {
        pairs_places(v, threshold, arcs, (i - 1) as nat) + row_places(
            v,
            threshold,
            arcs,
            i - 1,
            arcs.len(),
        )
    }
}

/// The net of the pairs among the arcs: a transition for each declared activity, and
/// the places of each pair, the pairs numbered in order as groups.
pub open spec fn pairs_net(v: LogView, threshold: ThresholdView, arcs: Seq<ArcView>) -> NetView {
    NetView {
        transitions: v.event_types,
        places: pairs_places(v, threshold, arcs, arcs.len()),
    }
}

proof fn lemma_position_found(s: Seq<Seq<char>>, x: Seq<char>, i: int)
    requires
        0 <= i < s.len(),
        s[i] == x,
        forall|j: int| 0 <= j < i ==> s[j] != x,
    ensures
        position(s, x) == Some(i as nat),
    decreases s.len(),
{
    if i < s.len() - 1 {
        lemma_position_found(s.drop_last(), x, i);
    } else {
        lemma_position_missing(s.drop_last(), x);
    }
}

proof fn lemma_position_missing(s: Seq<Seq<char>>, x: Seq<char>)
    requires
        forall|j: int| 0 <= j < s.len() ==> s[j] != x,
    ensures
        position(s, x) is None,
    decreases s.len(),
{
    if s.len() > 0 {
        lemma_position_missing(s.drop_last(), x);
    }
}

fn append_flagged_end(
    target: &mut Vec<(usize, Option<u32>)>,
    log: &IndexedLog,
    act: &String,
    multiple: bool,
)
    ensures
        final(target)@ == old(target)@ + flagged_end(log@, act@, multiple),
{
    let names = log.event_types();
    let ghost s = log@.event_types;
    match find_text(names, act.as_str()) {
        Some(t) => {
            proof {
                assert forall|j: int| 0 <= j <= t implies s[j] == names@[j]@ by {
                    assert(text_views(names@)[j] == names@[j]@);
                }
                lemma_position_found(s, act@, t as int);
            }
            target.push((t, Some(if multiple {
                10
            } else {
                1
            })));
            assert(target@ =~= old(target)@ + flagged_end(log@, act@, multiple));
        },
        None => {
            proof {
                assert forall|j: int| 0 <= j < s.len() implies s[j] != act@ by {
                    assert(text_views(names@).contains(s[j]));
                }
                lemma_position_missing(s, act@);
            }
            assert(target@ =~= old(target)@ + flagged_end(log@, act@, multiple));
        },
    }
}

fn holds_simple(items: &Vec<ObjectTypeAssociation>, ot: &String) -> (r: bool)
    ensures
        r == has_simple(assoc_views(items@), ot@),
{
    let probe = ObjectTypeAssociation::Simple { object_type: ot.clone() };
    contains_assoc(items, &probe)
}

fn is_connected(arcs: &Vec<OCDeclareArc>, from: &String, to: &String) -> (r: bool)
    ensures
        r == connects(arc_views(arcs@), from@, to@),
{
    let ghost av = arc_views(arcs@);
    let mut d: usize = 0;
    while d < arcs.len()
        invariant
            d <= arcs.len(),
            av == arc_views(arcs@),
            forall|k: int| 0 <= k < d ==> !((#[trigger] av[k]).to == to@ && av[k].from == from@),
        decreases arcs.len() - d,
    {
        assert(av[d as int] == arcs@[d as int]@);
        if same_text(&arcs[d].to.0, to) && same_text(&arcs[d].from.0, from) {
            return true;
        }
        d += 1;
    }
    false
}

fn append_loops(
    target: &mut Vec<(usize, Option<u32>)>,
    log: &IndexedLog,
    arcs: &Vec<OCDeclareArc>,
    a: &OCDeclareArc,
    common: &OCDeclareArcLabel,
    ot: &String,
)
    ensures
        final(target)@ == old(target)@ + loops(
            log@,
            arc_views(arcs@),
            a@,
            common@,
            ot@,
            arcs@.len(),
        ),
{
    let ghost v = log@;
    let ghost av = arc_views(arcs@);
    let ghost base = target@;
    let count: usize = arcs.len();
    let mut i: usize = 0;
    assert(base + loops(v, av, a@, common@, ot@, 0) =~= base);
    while i < count
        invariant
            i <= count,
            count == arcs.len(),
            v == log@,
            av == arc_views(arcs@),
            target@ == base + loops(v, av, a@, common@, ot@, i as nat),
        decreases count - i,
    {
        let c1 = &arcs[i];
        assert(av[i as int] == c1@);
        let ghost start = target@;
        let mut j: usize = 0;
        assert(start + loops_row(v, av, a@, common@, ot@, i as int, 0) =~= start);
        let lead = same_text(&c1.to.0, &a.from.0) && c1.arc_type == OCDeclareArcType::EFREV
            && !is_connected(arcs, &a.from.0, &c1.from.0);
        while j < count
            invariant
                j <= count,
                i < count,
                count == arcs.len(),
                v == log@,
                av == arc_views(arcs@),
                av[i as int] == c1@,
                lead == (c1@.to == a@.from && c1@.arc_type == OCDeclareArcType::EFREV && !connects(
                    av,
                    a@.from,
                    c1@.from,
                )),
                target@ == start + loops_row(v, av, a@, common@, ot@, i as int, j as nat),
            decreases count - j,
        {
            let c2 = &arcs[j];
            assert(av[j as int] == c2@);
            let ghost before = target@;
            let mut looped = false;
            if lead && same_text(&c2.to.0, &a.to.0) && c2.arc_type == OCDeclareArcType::EF
                && same_text(&c1.from.0, &c2.from.0) {
                let cc = c1.label.intersect(&c2.label);
                if cc.is_dominated_by(common) {
                    looped = true;
                    if holds_simple(&cc.all, ot) {
                        append_flagged_end(target, log, &c1.from.0, true);
                    }
                    if holds_simple(&cc.each, ot) {
                        append_flagged_end(target, log, &c1.from.0, false);
                    }
                    assert(target@ =~= before + loop_ends(v, c1@, c2@, ot@));
                }
            }
            assert(looped == is_loop(av, a@, common@, c1@, c2@));
            assert(start + loops_row(v, av, a@, common@, ot@, i as int, j as nat + 1)
                =~= target@);
            j += 1;
        }
        assert(base + loops(v, av, a@, common@, ot@, i as nat + 1) =~= target@);
        i += 1;
    }
}

fn is_multiple(log: &IndexedLog, act: &String, ot: &String) -> (r: bool)
    ensures
        r == (involved_max(log@, Relation::EventObjects, act@, ot@) > 1),
{
    let ghost v = log@;
    let n: usize = log.event_count();
    let rows = log.events_of(act.as_str());
    proof {
        lemma_indices_where(n as nat, |e: usize| v.events[e as int].activity == act@);
        assert forall|i: int| 0 <= i < rows@.len() implies rows@[i] < n by {
            assert(rows@.contains(rows@[i]));
        }
    }
    involvement_entry(log, Relation::EventObjects, &rows, ot.as_str()).max > 1
}

fn append_pair_items(
    places: &mut Vec<NetPlace>,
    log: &IndexedLog,
    arcs: &Vec<OCDeclareArc>,
    a: &OCDeclareArc,
    common: &OCDeclareArcLabel,
    items: &Vec<ObjectTypeAssociation>,
    grouped: bool,
    group: usize,
)
    ensures
        place_views(final(places)@) == place_views(old(places)@) + pair_items_places(
            log@,
            arc_views(arcs@),
            a@,
            common@,
            assoc_views(items@),
            grouped,
            group,
        ),
{
    let ghost v = log@;
    let ghost av = arc_views(arcs@);
    let ghost base = place_views(places@);
    let ghost iv = assoc_views(items@);
    let mut k: usize = 0;
    assert(iv.subrange(0, 0) =~= Seq::empty());
    assert(base + pair_items_places(v, av, a@, common@, iv.subrange(0, 0), grouped, group)
        =~= base);
    while k < items.len()
        invariant
            k <= items.len(),
            v == log@,
            av == arc_views(arcs@),
            iv == assoc_views(items@),
            place_views(places@) == base + pair_items_places(
                v,
                av,
                a@,
                common@,
                iv.subrange(0, k as int),
                grouped,
                group,
            ),
        decreases items.len() - k,
    {
        proof {
            assert(iv.subrange(0, k as int + 1).drop_last() =~= iv.subrange(0, k as int));
            assert(iv.subrange(0, k as int + 1).last() == items@[k as int]@);
        }
        let ghost before = place_views(places@);
        match &items[k] {
            ObjectTypeAssociation::Simple { object_type } => {
                let from_multiple = grouped || is_multiple(log, &a.from.0, object_type);
                let to_multiple = grouped || is_multiple(log, &a.to.0, object_type);
                let mut inputs: Vec<(usize, Option<u32>)> = Vec::new();
                let mut outputs: Vec<(usize, Option<u32>)> = Vec::new();
                append_flagged_end(&mut inputs, log, &a.from.0, from_multiple);
                append_loops(&mut inputs, log, arcs, a, common, object_type);
                append_flagged_end(&mut outputs, log, &a.to.0, to_multiple);
                append_loops(&mut outputs, log, arcs, a, common, object_type);
                let place = NetPlace {
                    object_type: object_type.clone(),
                    group: Some(group),
                    inputs,
                    outputs,
                };
                proof {
                    let want = pair_place(
                        v,
                        av,
                        a@,
                        common@,
                        object_type@,
                        from_multiple,
                        to_multiple,
                        group,
                    );
                    assert(place@.inputs =~= want.inputs);
                    assert(place@.outputs =~= want.outputs);
                    assert(place@ == want);
                }
                places.push(place);
                assert(place_views(places@) =~= before + pair_item_place(
                    v,
                    av,
                    a@,
                    common@,
                    items@[k as int]@,
                    grouped,
                    group,
                ));
            },
            ObjectTypeAssociation::O2O { .. } => {
                assert(place_views(places@) =~= before + pair_item_place(
                    v,
                    av,
                    a@,
                    common@,
                    items@[k as int]@,
                    grouped,
                    group,
                ));
            },
        }
        k += 1;
    }
    assert(iv.subrange(0, k as int) =~= iv);
}

fn is_pair(log: &IndexedLog, threshold: &NoiseThreshold, a: &OCDeclareArc, b: &OCDeclareArc) -> (r:
    Option<OCDeclareArcLabel>)
    ensures
        r is Some == forms_pair(log@, threshold@, a@, b@),
        r is Some ==> r->0@ == meet(a@.label, b@.label),
{
    if !same_text(&a.from.0, &b.to.0) || !same_text(&a.to.0, &b.from.0) {
        return None;
    }
    if a.arc_type != OCDeclareArcType::EF || b.arc_type != OCDeclareArcType::EFREV {
        return None;
    }
    if is_init(a.from.as_str()) && is_exit(a.to.as_str()) {
        return None;
    }
    let common = a.label.intersect(&b.label);
    let once: (Option<usize>, Option<usize>) = (Some(1), Some(1));
    let forward = OCDeclareArcType::ALTEF;
    let backward = OCDeclareArcType::ALTEFREV;
    if get_for_all_evs_perf_thresh(
        a.from.as_str(),
        a.to.as_str(),
        &common,
        &forward,
        &once,
        log,
        threshold,
    ) && get_for_all_evs_perf_thresh(
        b.from.as_str(),
        b.to.as_str(),
        &common,
        &backward,
        &once,
        log,
        threshold,
    ) {
        Some(common)
    } else {
        None
    }
}

/// The net of the pairs among the arcs.
pub fn oc_pn_prefilter(arcs: Vec<OCDeclareArc>, log: &IndexedLog, noise_thresh: &NoiseThreshold) -> (r:
    OCPetriNet)
    ensures
        r@ == pairs_net(log@, noise_thresh@, arc_views(arcs@)),
{
    let ghost v = log@;
    let ghost th = noise_thresh@;
    let ghost av = arc_views(arcs@);
    let count: usize = arcs.len();
    let mut places: Vec<NetPlace> = Vec::new();
    let mut group: usize = 0;
    let mut i: usize = 0;
    assert(place_views(places@) =~= Seq::empty());
    while i < count
        invariant
            i <= count,
            count == arcs.len(),
            v == log@,
            th == noise_thresh@,
            av == arc_views(arcs@),
            group == group_index(pairs_before(v, th, av, i as nat)),
            place_views(places@) == pairs_places(v, th, av, i as nat),
        decreases count - i,
    {
        let a = &arcs[i];
        assert(av[i as int] == a@);
        let ghost start = place_views(places@);
        let ghost done = pairs_before(v, th, av, i as nat);
        let mut j: usize = 0;
        assert(start + row_places(v, th, av, i as int, 0) =~= start);
        while j < count
            invariant
                j <= count,
                i < count,
                count == arcs.len(),
                v == log@,
                th == noise_thresh@,
                av == arc_views(arcs@),
                av[i as int] == a@,
                done == pairs_before(v, th, av, i as nat),
                group == group_index(done + row_pairs(v, th, av, i as int, j as nat)),
                place_views(places@) == start + row_places(v, th, av, i as int, j as nat),
            decreases count - j,
        {
            let b = &arcs[j];
            assert(av[j as int] == b@);
            let ghost before = place_views(places@);
            match is_pair(log, noise_thresh, a, b) {
                Some(common) => {
                    append_pair_items(&mut places, log, &arcs, a, &common, &common.all, true, group);
                    append_pair_items(
                        &mut places,
                        log,
                        &arcs,
                        a,
                        &common,
                        &common.each,
                        false,
                        group,
                    );
                    assert(place_views(places@) =~= before + pair_places(v, av, a@, b@, group));
                    if group < usize::MAX {
                        group += 1;
                    }
                },
                None => {
                    assert(place_views(places@) =~= before + Seq::empty());
                },
            }
            assert(start + row_places(v, th, av, i as int, j as nat + 1) =~= place_views(places@));
            j += 1;
        }
        i += 1;
    }
    OCPetriNet { transitions: clone_texts(log.event_types()), places }
}

} // verus!
