//! Synchronization: the pairs of activities that alternate on shared objects, the
//! activities that may occur in between, and the places of the net that they make up.

use vstd::prelude::*;
use vstd::string::*;
use crate::arc::OCDeclareArcType;
use crate::association::{AssociationView, ObjectTypeAssociation};
use crate::discovery::{
    bookend, candidates, get_direct_or_indirect_object_involvements, is_bookend, mine_labels,
    mined_labels, search_of, usual_options, OCDeclareDiscoveryOptions, O2OMode, OptionsView,
};
use crate::involvement::{
    get_activity_object_involvements, get_object_to_object_involvements,
    get_rev_object_to_object_involvements, involvement_entry, is_involvement_table, max_count,
    min_count, rows_of, Relation,
};
use crate::indices::lemma_indices_where;
use crate::label::{dominated_by, label_views, meet, LabelView, OCDeclareArcLabel};
use crate::log::{find_text, text_views, IndexedLog, LogView};
use crate::perf::{get_for_all_evs_perf_thresh, holds_within, NoiseThreshold, ThresholdView};
use crate::seqs::{lemma_filter_empty, lemma_filter_push};
use crate::text::{exit_prefix, has_prefix, init_prefix, same_text};

verus! {

/// The mathematical value of an association between two activities.
pub struct EdgeView {
    pub from: Seq<char>,
    pub to: Seq<char>,
    pub label: LabelView,
}

/// The view of an association between two activities.
pub open spec fn edge_view(e: (String, String, OCDeclareArcLabel)) -> EdgeView {
    EdgeView { from: e.0@, to: e.1@, label: e.2@ }
}

/// The views of a list of associations, in order.
pub open spec fn edge_views(s: Seq<(String, String, OCDeclareArcLabel)>) -> Seq<EdgeView> {
    s.map_values(|e: (String, String, OCDeclareArcLabel)| edge_view(e))
}

/// The mathematical value of a synchronization with its optional activities.
pub struct StepView {
    pub edge: EdgeView,
    pub optional: Seq<Seq<char>>,
}

/// The view of a synchronization with its optional activities.
pub open spec fn step_view(e: (String, String, OCDeclareArcLabel, Vec<String>)) -> StepView {
    StepView { edge: EdgeView { from: e.0@, to: e.1@, label: e.2@ }, optional: text_views(e.3@) }
}

/// The views of a list of synchronizations, in order.
pub open spec fn step_views(s: Seq<(String, String, OCDeclareArcLabel, Vec<String>)>) -> Seq<
    StepView,
> {
    s.map_values(|e: (String, String, OCDeclareArcLabel, Vec<String>)| step_view(e))
}

/// The grouped labels mined between two activities, each as an association.
pub open spec fn pair_edges(v: LogView, o: OptionsView, from: Seq<char>, to: Seq<char>) -> Seq<
    EdgeView,
> {
    mined_labels(
        search_of(v, o, from, to, true),
        candidates(v, from, to, O2OMode::Off),
    ).map_values(|l: LabelView| EdgeView { from, to, label: l })
}

/// The associations mined from the activity at `i` to the first `j` activities.
pub open spec fn row_edges(v: LogView, o: OptionsView, i: int, j: nat) -> Seq<EdgeView>
    decreases j,
{
    if j == 0 {
        Seq::empty()
    } else {
        row_edges(v, o, i, (j - 1) as nat) + pair_edges(
            v,
            o,
            v.event_types[i],
            v.event_types[j - 1],
        )
    }
}

/// The associations mined from the first `i` activities.
pub open spec fn all_edges(v: LogView, o: OptionsView, i: nat) -> Seq<EdgeView>
    decreases i,
{
    if i == 0 {
        Seq::empty()
    } else {
        all_edges(v, o, (i - 1) as nat) + row_edges(v, o, i - 1, v.event_types.len())
    }
}

/// The associations mined on a log: the grouped labels of every ordered pair of declared
/// activities.
pub open spec fn associations(v: LogView, threshold: ThresholdView) -> Seq<EdgeView> {
    all_edges(v, usual_options(threshold), v.event_types.len())
}

/// Whether two associations run between the same two activities in opposite directions
/// and their common label synchronizes the two: it binds objects, the first activity is
/// eventually followed by the second and the second eventually preceded by the first,
/// and both alternate exactly once.
pub open spec fn synchronized(v: LogView, threshold: ThresholdView, x: EdgeView, y: EdgeView) -> bool {
    let c = meet(x.label, y.label);
    &&& x.from == y.to
    &&& x.to == y.from
    &&& c.each.len() > 0 || c.all.len() > 0
    &&& holds_within(v, x.from, x.to, OCDeclareArcType::EF, (Some(1usize), None), c, threshold)
    &&& holds_within(v, y.from, y.to, OCDeclareArcType::EFREV, (Some(1usize), None), c, threshold)
    &&& holds_within(
        v,
        x.from,
        x.to,
        OCDeclareArcType::ALTEF,
        (Some(1usize), Some(1usize)),
        c,
        threshold,
    )
    &&& holds_within(
        v,
        y.from,
        y.to,
        OCDeclareArcType::ALTEFREV,
        (Some(1usize), Some(1usize)),
        c,
        threshold,
    )
}

/// The synchronizations of the association at `i` with the first `j` associations.
pub open spec fn fit_row(
    v: LogView,
    threshold: ThresholdView,
    s: Seq<EdgeView>,
    i: int,
    j: nat,
) -> Seq<EdgeView>
    decreases j,
{
    if j == 0 {
        Seq::empty()
    } else {
        let rest = fit_row(v, threshold, s, i, (j - 1) as nat);
        if synchronized(v, threshold, s[i], s[j - 1]) {
            rest.push(
                EdgeView { from: s[i].from, to: s[i].to, label: meet(s[i].label, s[j - 1].label) },
            )
        } else {
            rest
        }
    }
}

/// The synchronizations of the first `i` associations.
pub open spec fn fit_rows(v: LogView, threshold: ThresholdView, s: Seq<EdgeView>, i: nat) -> Seq<
    EdgeView,
>
    decreases i,
{
    if i == 0 {
        Seq::empty()
    } else {
        fit_rows(v, threshold, s, (i - 1) as nat) + fit_row(v, threshold, s, i - 1, s.len())
    }
}

/// The synchronizations among the associations: for each pair that is synchronized, the
/// first with the common label.
pub open spec fn fitting(v: LogView, threshold: ThresholdView, s: Seq<EdgeView>) -> Seq<EdgeView> {
    fit_rows(v, threshold, s, s.len())
}

/// Whether `x` and then `y` lead from the source of `c` to its target, and both labels
/// dominate the label of `c`.
pub open spec fn edge_chain(x: EdgeView, y: EdgeView, c: EdgeView) -> bool {
    &&& x.to == y.from
    &&& c.from == x.from
    &&& c.to == y.to
    &&& dominated_by(c.label, x.label)
    &&& dominated_by(c.label, y.label)
}

/// Whether some chain of two of `s` implies `c`.
pub open spec fn edge_implied(s: Seq<EdgeView>, c: EdgeView) -> bool {
    exists|i: int, j: int|
        0 <= i < s.len() && 0 <= j < s.len() && edge_chain(#[trigger] s[i], #[trigger] s[j], c)
}

/// The associations that no chain of two of them implies, in order.
pub open spec fn edges_reduced(s: Seq<EdgeView>) -> Seq<EdgeView> {
    s.filter(|c: EdgeView| !edge_implied(s, c))
}

/// Whether activity `op` may occur between the two ends of `e` without having to: it is
/// eventually preceded by the source and eventually followed by the target, and the
/// source is not eventually followed by it.
pub open spec fn is_optional(v: LogView, threshold: ThresholdView, e: EdgeView, op: Seq<char>) -> bool {
    &&& holds_within(v, op, e.from, OCDeclareArcType::EFREV, (Some(1usize), None), e.label, threshold)
    &&& holds_within(v, op, e.to, OCDeclareArcType::EF, (Some(1usize), None), e.label, threshold)
    &&& !holds_within(v, e.from, op, OCDeclareArcType::EF, (Some(1usize), None), e.label, threshold)
}

/// The declared activities that are optional for `e`, in order.
pub open spec fn optional_acts(v: LogView, threshold: ThresholdView, e: EdgeView) -> Seq<Seq<char>> {
    v.event_types.filter(|op: Seq<char>| is_optional(v, threshold, e, op))
}

/// Each synchronization with its optional activities.
pub open spec fn with_optional(v: LogView, threshold: ThresholdView, s: Seq<EdgeView>) -> Seq<
    StepView,
> {
    s.map_values(|e: EdgeView| StepView { edge: e, optional: optional_acts(v, threshold, e) })
}

/// The synchronizations of a log with their optional activities.
pub open spec fn sync_steps(v: LogView, threshold: ThresholdView) -> Seq<StepView> {
    with_optional(v, threshold, edges_reduced(fitting(v, threshold, associations(v, threshold))))
}

/// A place of the net: the object type whose objects it holds, the group of places it
/// belongs to, and its arcs from and to transitions, each with the position of the
/// transition and the weight.
#[derive(Debug, PartialEq, Eq)]
pub struct NetPlace {
    pub object_type: String,
    pub group: Option<usize>,
    pub inputs: Vec<(usize, Option<u32>)>,
    pub outputs: Vec<(usize, Option<u32>)>,
}

/// The mathematical value of a [`NetPlace`].
pub struct PlaceView {
    pub object_type: Seq<char>,
    pub group: Option<usize>,
    pub inputs: Seq<(usize, Option<u32>)>,
    pub outputs: Seq<(usize, Option<u32>)>,
}

impl View for NetPlace {
    type V = PlaceView;

    open spec fn view(&self) -> PlaceView {
        PlaceView {
            object_type: self.object_type@,
            group: self.group,
            inputs: self.inputs@,
            outputs: self.outputs@,
        }
    }
}

/// A net of transitions, one for each activity, and of places between them.
#[derive(Debug, PartialEq, Eq)]
pub struct OCPetriNet {
    pub transitions: Vec<String>,
    pub places: Vec<NetPlace>,
}

/// The mathematical value of an [`OCPetriNet`].
pub struct NetView {
    pub transitions: Seq<Seq<char>>,
    pub places: Seq<PlaceView>,
}

/// The views of a list of places, in order.
pub open spec fn place_views(s: Seq<NetPlace>) -> Seq<PlaceView> {
    s.map_values(|p: NetPlace| p@)
}

impl View for OCPetriNet {
    type V = NetView;

    open spec fn view(&self) -> NetView {
        NetView { transitions: text_views(self.transitions@), places: place_views(self.places@) }
    }
}

/// Whether the activity marks the first event of an object.
pub open spec fn starts_init(name: Seq<char>) -> bool {
    init_prefix().is_prefix_of(name)
}

/// Whether the activity marks the last event of an object.
pub open spec fn starts_exit(name: Seq<char>) -> bool {
    exit_prefix().is_prefix_of(name)
}

/// The transitions of the net: the declared activities that are no bookends.
pub open spec fn transitions_of(v: LogView) -> Seq<Seq<char>> {
    v.event_types.filter(|a: Seq<char>| !bookend(a))
}

/// The first position of `x` in `s`.
pub open spec fn position(s: Seq<Seq<char>>, x: Seq<char>) -> Option<nat>
    decreases s.len(),
{
    if s.len() == 0 {
        None
    } else {
        match position(s.drop_last(), x) {
            Some(i) => Some(i),
            None => if s.last() == x {
                Some((s.len() - 1) as nat)
            } else {
                None
            },
        }
    }
}

/// The weight of an arc between a place of type `ot` and the transition of `act`: none
/// where no event of the activity has an object of the type, 1 where every event that
/// has one has exactly one, else 10.
pub open spec fn weight(v: LogView, act: Seq<char>, ot: Seq<char>) -> Option<u32> {
    let rows = rows_of(v, Relation::EventObjects, act);
    let most = max_count(v, Relation::EventObjects, rows, ot);
    let least = min_count(v, Relation::EventObjects, rows, ot);
    if most == 0 {
        None
    } else if most > 1 || least < 1 {
        Some(10u32)
    } else {
        Some(1u32)
    }
}

/// The end of an arc at the transition of `act`, if the activity has a transition.
pub open spec fn end_of(v: LogView, act: Seq<char>, ot: Seq<char>) -> Seq<(usize, Option<u32>)> {
    match position(transitions_of(v), act) {
        Some(t) => seq![(t as usize, weight(v, act, ot))],
        None => Seq::empty(),
    }
}

/// The ends of the arcs at the transitions of `acts`, in order.
pub open spec fn ends_of(v: LogView, acts: Seq<Seq<char>>, ot: Seq<char>) -> Seq<
    (usize, Option<u32>),
>
    decreases acts.len(),
{
    if acts.len() == 0 {
        Seq::empty()
    } else {
        ends_of(v, acts.drop_last(), ot) + end_of(v, acts.last(), ot)
    }
}

/// The place of type `ot` for a synchronization: an arc from the source, unless that
/// marks the first event of an object; an arc to the target, unless that marks the last
/// event of an object; and, where neither is so, an arc from and an arc to every
/// optional activity, and the group.
pub open spec fn place_for(v: LogView, step: StepView, ot: Seq<char>, group: Option<usize>) -> PlaceView {
    let inner = !starts_init(step.edge.from) && !starts_exit(step.edge.to);
    let loops = if inner {
        ends_of(v, step.optional, ot)
    } else {
        Seq::empty()
    };
    PlaceView {
        object_type: ot,
        group: if inner {
            group
        } else {
            None
        },
        inputs: (if starts_init(step.edge.from) {
            Seq::empty()
        } else {
            end_of(v, step.edge.from, ot)
        }) + loops,
        outputs: (if starts_exit(step.edge.to) {
            Seq::empty()
        } else {
            end_of(v, step.edge.to, ot)
        }) + loops,
    }
}

/// The place for one association of a label, if it is a direct one and the
/// synchronization does not span the whole life of an object.
pub open spec fn item_place(v: LogView, step: StepView, a: AssociationView, group: Option<usize>) -> Seq<
    PlaceView,
> {
    match a {
        AssociationView::Simple { object_type } => if starts_init(step.edge.from) && starts_exit(
            step.edge.to,
        ) {
            Seq::empty()
        } else {
            seq![place_for(v, step, object_type, group)]
        },
        _ => Seq::empty(),
    }
}

/// The places for the associations `items`, in order.
pub open spec fn items_places(
    v: LogView,
    step: StepView,
    items: Seq<AssociationView>,
    group: Option<usize>,
) -> Seq<PlaceView>
    decreases items.len(),
{
    if items.len() == 0 {
        Seq::empty()
    } else {
        items_places(v, step, items.drop_last(), group) + item_place(v, step, items.last(), group)
    }
}

/// The places of one synchronization: one for each object type that its label groups,
/// all in the group `group`; or, where it groups none, one for the first object type
/// that it binds one object at a time, in no group.
pub open spec fn step_places(v: LogView, step: StepView, group: usize) -> Seq<PlaceView> {
    if step.edge.label.all.len() > 0 {
        items_places(v, step, step.edge.label.all, Some(group))
    } else if step.edge.label.each.len() > 0 {
        item_place(v, step, step.edge.label.each[0], None)
    } else {
        Seq::empty()
    }
}

/// The number of synchronizations among the first `k` whose label groups object types.
pub open spec fn groups_before(steps: Seq<StepView>, k: nat) -> nat
    decreases k,
{
    if k == 0 {
        0
    } else {
        groups_before(steps, (k - 1) as nat) + if steps[k - 1].edge.label.all.len() > 0 {
            1nat
        } else {
            0nat
        }
    }
}

/// The places of the first `k` synchronizations.
pub open spec fn net_places(v: LogView, steps: Seq<StepView>, k: nat) -> Seq<PlaceView>
    decreases k,
{
    if k == 0 {
        Seq::empty()
    } else {
        net_places(v, steps, (k - 1) as nat) + step_places(
            v,
            steps[k - 1],
            groups_before(steps, (k - 1) as nat) as usize,
        )
    }
}

/// The net of the synchronizations on a log.
pub open spec fn net_of(v: LogView, steps: Seq<StepView>) -> NetView {
    NetView { transitions: transitions_of(v), places: net_places(v, steps, steps.len()) }
}

proof fn lemma_position(s: Seq<Seq<char>>, x: Seq<char>)
    ensures
        match position(s, x) {
            Some(i) => i < s.len() && s[i as int] == x && forall|j: int| 0 <= j < i ==> s[j] != x,
            None => forall|j: int| 0 <= j < s.len() ==> s[j] != x,
        },
    decreases s.len(),
{
    if s.len() > 0 {
        lemma_position(s.drop_last(), x);
        assert forall|j: int| 0 <= j < s.len() - 1 implies s[j] == s.drop_last()[j] by {}
    }
}

/// The associations mined on a log: the grouped labels of every ordered pair of declared
/// activities.
pub fn mine_associations(log: &IndexedLog, noise_thresh: &NoiseThreshold) -> (r: Vec<
    (String, String, OCDeclareArcLabel),
>)
    ensures
        edge_views(r@) == associations(log@, noise_thresh@),
{
    let ghost v = log@;
    let options = OCDeclareDiscoveryOptions::new(*noise_thresh);
    let ghost o = options@;
    let act_ob = get_activity_object_involvements(log);
    let ob_ob = get_object_to_object_involvements(log);
    let ob_ob_rev = get_rev_object_to_object_involvements(log);
    let names = log.event_types();
    let count: usize = names.len();
    let mut r: Vec<(String, String, OCDeclareArcLabel)> = Vec::new();
    let mut i: usize = 0;
    assert(edge_views(r@) =~= Seq::empty());
    while i < count
        invariant
            i <= count,
            v == log@,
            o == options@,
            o == usual_options(noise_thresh@),
            count == v.event_types.len(),
            text_views(names@) == v.event_types,
            is_involvement_table(v, Relation::EventObjects, act_ob@),
            is_involvement_table(v, Relation::ObjectLinks, ob_ob@),
            is_involvement_table(v, Relation::ObjectLinksReversed, ob_ob_rev@),
            edge_views(r@) == all_edges(v, o, i as nat),
        decreases count - i,
    {
        let ghost start = edge_views(r@);
        let mut j: usize = 0;
        assert(start + row_edges(v, o, i as int, 0) =~= start);
        while j < count
            invariant
                j <= count,
                i < count,
                v == log@,
                o == options@,
                count == v.event_types.len(),
                text_views(names@) == v.event_types,
                is_involvement_table(v, Relation::EventObjects, act_ob@),
                is_involvement_table(v, Relation::ObjectLinks, ob_ob@),
                is_involvement_table(v, Relation::ObjectLinksReversed, ob_ob_rev@),
                edge_views(r@) == start + row_edges(v, o, i as int, j as nat),
            decreases count - j,
        {
            let from = &names[i];
            let to = &names[j];
            assert(text_views(names@)[i as int] == from@);
            assert(text_views(names@)[j as int] == to@);
            let cands = get_direct_or_indirect_object_involvements(
                from.as_str(),
                to.as_str(),
                log,
                &act_ob,
                &ob_ob,
                &ob_ob_rev,
                O2OMode::Off,
            );
            let labels = mine_labels(log, from.as_str(), to.as_str(), &options, true, &cands);
            let ghost before = edge_views(r@);
            let ghost lv = label_views(labels@);
            let mut k: usize = 0;
            while k < labels.len()
                invariant
                    k <= labels.len(),
                    lv == label_views(labels@),
                    edge_views(r@) == before + lv.subrange(0, k as int).map_values(
                        |l: LabelView| EdgeView { from: from@, to: to@, label: l },
                    ),
                decreases labels.len() - k,
            {
                let ghost prev = edge_views(r@);
                r.push((from.clone(), to.clone(), labels[k].clone()));
                proof {
                    let e = EdgeView { from: from@, to: to@, label: lv[k as int] };
                    assert(edge_views(r@) =~= prev.push(e));
                    assert(lv.subrange(0, k as int + 1).map_values(
                        |l: LabelView| EdgeView { from: from@, to: to@, label: l },
                    ) =~= lv.subrange(0, k as int).map_values(
                        |l: LabelView| EdgeView { from: from@, to: to@, label: l },
                    ).push(e));
                }
                k += 1;
            }
            proof {
                assert(lv.subrange(0, k as int) =~= lv);
                assert(start + row_edges(v, o, i as int, j as nat + 1) =~= before + pair_edges(
                    v,
                    o,
                    from@,
                    to@,
                ));
            }
            j += 1;
        }
        i += 1;
    }
    r
}

fn holds(
    log: &IndexedLog,
    from: &str,
    to: &str,
    label: &OCDeclareArcLabel,
    arc_type: OCDeclareArcType,
    max: Option<usize>,
    threshold: &NoiseThreshold,
) -> (r: bool)
    ensures
        r == holds_within(log@, from@, to@, arc_type, (Some(1usize), max), label@, threshold@),
{
    let counts: (Option<usize>, Option<usize>) = (Some(1), max);
    get_for_all_evs_perf_thresh(from, to, label, &arc_type, &counts, log, threshold)
}

/// The synchronizations among the associations.
pub fn incoporate_control_flow_and_ensure_fitness(
    log: &IndexedLog,
    noise_thresh: &NoiseThreshold,
    candidates: Vec<(String, String, OCDeclareArcLabel)>,
) -> (r: Vec<(String, String, OCDeclareArcLabel)>)
    ensures
        edge_views(r@) == fitting(log@, noise_thresh@, edge_views(candidates@)),
{
    let ghost v = log@;
    let ghost th = noise_thresh@;
    let ghost s = edge_views(candidates@);
    let count: usize = candidates.len();
    let mut r: Vec<(String, String, OCDeclareArcLabel)> = Vec::new();
    let mut i: usize = 0;
    assert(edge_views(r@) =~= Seq::empty());
    while i < count
        invariant
            i <= count,
            count == candidates.len(),
            v == log@,
            th == noise_thresh@,
            s == edge_views(candidates@),
            edge_views(r@) == fit_rows(v, th, s, i as nat),
        decreases count - i,
    {
        let ghost start = edge_views(r@);
        let mut j: usize = 0;
        assert(start + fit_row(v, th, s, i as int, 0) =~= start);
        while j < count
            invariant
                j <= count,
                i < count,
                count == candidates.len(),
                v == log@,
                th == noise_thresh@,
                s == edge_views(candidates@),
                edge_views(r@) == start + fit_row(v, th, s, i as int, j as nat),
            decreases count - j,
        {
            let x = &candidates[i];
            let y = &candidates[j];
            assert(s[i as int] == edge_view(*x));
            assert(s[j as int] == edge_view(*y));
            let ghost before = edge_views(r@);
            let mut fits = false;
            if same_text(&x.0, &y.1) && same_text(&x.1, &y.0) {
                let common = x.2.intersect(&y.2);
                if common.each.len() > 0 || common.all.len() > 0 {
                    fits = holds(
                        log,
                        x.0.as_str(),
                        x.1.as_str(),
                        &common,
                        OCDeclareArcType::EF,
                        None,
                        noise_thresh,
                    ) && holds(
                        log,
                        y.0.as_str(),
                        y.1.as_str(),
                        &common,
                        OCDeclareArcType::EFREV,
                        None,
                        noise_thresh,
                    ) && holds(
                        log,
                        x.0.as_str(),
                        x.1.as_str(),
                        &common,
                        OCDeclareArcType::ALTEF,
                        Some(1),
                        noise_thresh,
                    ) && holds(
                        log,
                        y.0.as_str(),
                        y.1.as_str(),
                        &common,
                        OCDeclareArcType::ALTEFREV,
                        Some(1),
                        noise_thresh,
                    );
                }
                if fits {
                    r.push((x.0.clone(), x.1.clone(), common));
                    assert(edge_views(r@) =~= before.push(
                        EdgeView {
                            from: s[i as int].from,
                            to: s[i as int].to,
                            label: meet(s[i as int].label, s[j as int].label),
                        },
                    ));
                }
            }
            assert(fits == synchronized(v, th, s[i as int], s[j as int]));
            assert(start + fit_row(v, th, s, i as int, j as nat + 1) =~= edge_views(r@));
            j += 1;
        }
        i += 1;
    }
    r
}

fn is_edge_implied(
    list: &Vec<(String, String, OCDeclareArcLabel)>,
    c: &(String, String, OCDeclareArcLabel),
) -> (r: bool)
    ensures
        r == edge_implied(edge_views(list@), edge_view(*c)),
{
    let ghost s = edge_views(list@);
    let ghost cv = edge_view(*c);
    let mut i: usize = 0;
    while i < list.len()
        invariant
            i <= list.len(),
            s == edge_views(list@),
            cv == edge_view(*c),
            forall|x: int, y: int|
                0 <= x < i && 0 <= y < s.len() ==> !edge_chain(#[trigger] s[x], #[trigger] s[y], cv),
        decreases list.len() - i,
    {
        let x = &list[i];
        assert(s[i as int] == edge_view(*x));
        let mut j: usize = 0;
        while j < list.len()
            invariant
                j <= list.len(),
                i < list.len(),
                s == edge_views(list@),
                cv == edge_view(*c),
                s[i as int] == edge_view(*x),
                forall|y: int| 0 <= y < j ==> !edge_chain(s[i as int], #[trigger] s[y], cv),
            decreases list.len() - j,
        {
            let y = &list[j];
            assert(s[j as int] == edge_view(*y));
            if same_text(&x.1, &y.0) && same_text(&c.0, &x.0) && same_text(&c.1, &y.1)
                && c.2.is_dominated_by(&x.2) && c.2.is_dominated_by(&y.2) {
                assert(edge_chain(s[i as int], s[j as int], cv));
                return true;
            }
            j += 1;
        }
        i += 1;
    }
    false
}

/// Drops every association that a chain of two of the given associations implies.
pub fn perform_transitive_reduction(candidates: Vec<(String, String, OCDeclareArcLabel)>) -> (r:
    Vec<(String, String, OCDeclareArcLabel)>)
    ensures
        edge_views(r@) == edges_reduced(edge_views(candidates@)),
{
    let ghost s = edge_views(candidates@);
    let ghost p = |c: EdgeView| !edge_implied(s, c);
    let mut r: Vec<(String, String, OCDeclareArcLabel)> = Vec::new();
    let mut k: usize = 0;
    proof {
        assert(s.subrange(0, 0) =~= Seq::empty());
        lemma_filter_empty(p);
        assert(edge_views(r@) =~= Seq::empty());
    }
    while k < candidates.len()
        invariant
            k <= candidates.len(),
            s == edge_views(candidates@),
            p == |c: EdgeView| !edge_implied(s, c),
            edge_views(r@) == s.subrange(0, k as int).filter(p),
        decreases candidates.len() - k,
    {
        let c = &candidates[k];
        let ghost before = edge_views(r@);
        proof {
            assert(s.subrange(0, k as int + 1) =~= s.subrange(0, k as int).push(edge_view(*c)));
            lemma_filter_push(s.subrange(0, k as int), edge_view(*c), p);
        }
        if !is_edge_implied(&candidates, c) {
            r.push((c.0.clone(), c.1.clone(), c.2.clone()));
            assert(edge_views(r@) =~= before.push(edge_view(*c)));
        }
        k += 1;
    }
    assert(s.subrange(0, k as int) =~= s);
    r
}

/// Each synchronization with its optional activities.
pub fn add_optional_steps(
    log: &IndexedLog,
    noise_thresh: &NoiseThreshold,
    candidates: Vec<(String, String, OCDeclareArcLabel)>,
) -> (r: Vec<(String, String, OCDeclareArcLabel, Vec<String>)>)
    ensures
        step_views(r@) == with_optional(log@, noise_thresh@, edge_views(candidates@)),
{
    let ghost v = log@;
    let ghost th = noise_thresh@;
    let ghost s = edge_views(candidates@);
    let names = log.event_types();
    let mut r: Vec<(String, String, OCDeclareArcLabel, Vec<String>)> = Vec::new();
    let mut k: usize = 0;
    while k < candidates.len()
        invariant
            k <= candidates.len(),
            v == log@,
            th == noise_thresh@,
            s == edge_views(candidates@),
            text_views(names@) == v.event_types,
            r@.len() == k,
            forall|i: int|
                0 <= i < k ==> step_view(#[trigger] r@[i]) == (StepView {
                    edge: s[i],
                    optional: optional_acts(v, th, s[i]),
                }),
        decreases candidates.len() - k,
    {
        let c = &candidates[k];
        let ghost e = edge_view(*c);
        assert(s[k as int] == e);
        let ghost p = |op: Seq<char>| is_optional(v, th, e, op);
        let ghost ev = v.event_types;
        let mut optional: Vec<String> = Vec::new();
        let mut t: usize = 0;
        proof {
            assert(ev.subrange(0, 0) =~= Seq::empty());
            lemma_filter_empty(p);
            assert(text_views(optional@) =~= Seq::empty());
        }
        while t < names.len()
            invariant
                t <= names.len(),
                v == log@,
                th == noise_thresh@,
                e == edge_view(*c),
                ev == v.event_types,
                text_views(names@) == ev,
                p == |op: Seq<char>| is_optional(v, th, e, op),
                text_views(optional@) == ev.subrange(0, t as int).filter(p),
            decreases names.len() - t,
        {
            let op = &names[t];
            assert(text_views(names@)[t as int] == op@);
            let ghost before = text_views(optional@);
            proof {
                assert(ev.subrange(0, t as int + 1) =~= ev.subrange(0, t as int).push(op@));
                lemma_filter_push(ev.subrange(0, t as int), op@, p);
            }
            if holds(
                log,
                op.as_str(),
                c.0.as_str(),
                &c.2,
                OCDeclareArcType::EFREV,
                None,
                noise_thresh,
            ) && holds(log, op.as_str(), c.1.as_str(), &c.2, OCDeclareArcType::EF, None, noise_thresh)
                && !holds(
                log,
                c.0.as_str(),
                op.as_str(),
                &c.2,
                OCDeclareArcType::EF,
                None,
                noise_thresh,
            ) {
                optional.push(op.clone());
                assert(text_views(optional@) =~= before.push(op@));
            }
            t += 1;
        }
        assert(ev.subrange(0, t as int) =~= ev);
        r.push((c.0.clone(), c.1.clone(), c.2.clone(), optional));
        k += 1;
    }
    assert(step_views(r@) =~= with_optional(v, th, s));
    r
}

/// Whether the activity marks the first event of an object.
pub fn is_init(name: &str) -> (r: bool)
    ensures
        r == starts_init(name@),
{
    proof {
        reveal_strlit("<init>");
        assert("<init>"@ =~= init_prefix());
    }
    has_prefix(name, "<init>")
}

/// Whether the activity marks the last event of an object.
pub fn is_exit(name: &str) -> (r: bool)
    ensures
        r == starts_exit(name@),
{
    proof {
        reveal_strlit("<exit>");
        assert("<exit>"@ =~= exit_prefix());
    }
    has_prefix(name, "<exit>")
}

/// The transitions of the net.
pub fn net_transitions(log: &IndexedLog) -> (r: Vec<String>)
    ensures
        text_views(r@) == transitions_of(log@),
{
    let ghost ev = log@.event_types;
    let ghost p = |a: Seq<char>| !bookend(a);
    let names = log.event_types();
    let mut r: Vec<String> = Vec::new();
    let mut t: usize = 0;
    proof {
        assert(ev.subrange(0, 0) =~= Seq::empty());
        lemma_filter_empty(p);
        assert(text_views(r@) =~= Seq::empty());
    }
    while t < names.len()
        invariant
            t <= names.len(),
            ev == log@.event_types,
            text_views(names@) == ev,
            p == |a: Seq<char>| !bookend(a),
            text_views(r@) == ev.subrange(0, t as int).filter(p),
        decreases names.len() - t,
    {
        let a = &names[t];
        assert(text_views(names@)[t as int] == a@);
        let ghost before = text_views(r@);
        proof {
            assert(ev.subrange(0, t as int + 1) =~= ev.subrange(0, t as int).push(a@));
            lemma_filter_push(ev.subrange(0, t as int), a@, p);
        }
        if !is_bookend(a.as_str()) {
            r.push(a.clone());
            assert(text_views(r@) =~= before.push(a@));
        }
        t += 1;
    }
    assert(ev.subrange(0, t as int) =~= ev);
    r
}

/// The weight of an arc between a place of type `ot` and the transition of `act`.
pub fn arc_weight(log: &IndexedLog, act: &str, ot: &str) -> (r: Option<u32>)
    ensures
        r == weight(log@, act@, ot@),
{
    let ghost v = log@;
    let n: usize = log.event_count();
    let rows = log.events_of(act);
    proof {
        lemma_indices_where(n as nat, |e: usize| v.events[e as int].activity == act@);
        assert forall|i: int| 0 <= i < rows@.len() implies rows@[i] < n by {
            assert(rows@.contains(rows@[i]));
        }
    }
    let c = involvement_entry(log, Relation::EventObjects, &rows, ot);
    if c.max == 0 {
        None
    } else if c.max > 1 || c.min < 1 {
        Some(10)
    } else {
        Some(1)
    }
}

fn append_end(
    target: &mut Vec<(usize, Option<u32>)>,
    log: &IndexedLog,
    transitions: &Vec<String>,
    act: &str,
    ot: &str,
)
    requires
        text_views(transitions@) == transitions_of(log@),
    ensures
        final(target)@ == old(target)@ + end_of(log@, act@, ot@),
{
    proof {
        lemma_position(transitions_of(log@), act@);
    }
    match find_text(transitions, act) {
        Some(t) => {
            assert(text_views(transitions@)[t as int] == act@);
            let w = arc_weight(log, act, ot);
            target.push((t, w));
            assert(target@ =~= old(target)@ + end_of(log@, act@, ot@));
        },
        None => {
            proof {
                let s = transitions_of(log@);
                if position(s, act@) is Some {
                    let i = position(s, act@)->0;
                    assert(s.contains(s[i as int]));
                }
            }
            assert(target@ =~= old(target)@ + end_of(log@, act@, ot@));
        },
    }
}

fn append_ends(
    target: &mut Vec<(usize, Option<u32>)>,
    log: &IndexedLog,
    transitions: &Vec<String>,
    acts: &Vec<String>,
    ot: &str,
)
    requires
        text_views(transitions@) == transitions_of(log@),
    ensures
        final(target)@ == old(target)@ + ends_of(log@, text_views(acts@), ot@),
{
    let ghost base = target@;
    let ghost av = text_views(acts@);
    let mut k: usize = 0;
    assert(av.subrange(0, 0) =~= Seq::empty());
    assert(base + ends_of(log@, av.subrange(0, 0), ot@) =~= base);
    while k < acts.len()
        invariant
            k <= acts.len(),
            av == text_views(acts@),
            text_views(transitions@) == transitions_of(log@),
            target@ == base + ends_of(log@, av.subrange(0, k as int), ot@),
        decreases acts.len() - k,
    {
        let a = &acts[k];
        proof {
            assert(av.subrange(0, k as int + 1).drop_last() =~= av.subrange(0, k as int));
            assert(av.subrange(0, k as int + 1).last() == a@);
        }
        let ghost before = target@;
        append_end(target, log, transitions, a.as_str(), ot);
        assert(target@ =~= base + ends_of(log@, av.subrange(0, k as int + 1), ot@));
        k += 1;
    }
    assert(av.subrange(0, k as int) =~= av);
}

fn append_item_place(
    places: &mut Vec<NetPlace>,
    log: &IndexedLog,
    transitions: &Vec<String>,
    step: &(String, String, OCDeclareArcLabel, Vec<String>),
    item: &ObjectTypeAssociation,
    group: Option<usize>,
)
    requires
        text_views(transitions@) == transitions_of(log@),
    ensures
        place_views(final(places)@) == place_views(old(places)@) + item_place(
            log@,
            step_view(*step),
            item@,
            group,
        ),
{
    let ghost v = log@;
    let ghost sv = step_view(*step);
    let ghost before = place_views(places@);
    match item {
        ObjectTypeAssociation::Simple { object_type } => {
            let from_init = is_init(step.0.as_str());
            let to_exit = is_exit(step.1.as_str());
            if from_init && to_exit {
                assert(place_views(places@) =~= before + item_place(v, sv, item@, group));
            } else {
                let ot = object_type.as_str();
                let mut inputs: Vec<(usize, Option<u32>)> = Vec::new();
                let mut outputs: Vec<(usize, Option<u32>)> = Vec::new();
                if !from_init {
                    append_end(&mut inputs, log, transitions, step.0.as_str(), ot);
                }
                if !to_exit {
                    append_end(&mut outputs, log, transitions, step.1.as_str(), ot);
                }
                let inner = !from_init && !to_exit;
                if inner {
                    append_ends(&mut inputs, log, transitions, &step.3, ot);
                    append_ends(&mut outputs, log, transitions, &step.3, ot);
                }
                let place = NetPlace {
                    object_type: object_type.clone(),
                    group: if inner {
                        group
                    } else {
                        None
                    },
                    inputs,
                    outputs,
                };
                proof {
                    let want = place_for(v, sv, object_type@, group);
                    assert(place@.inputs =~= want.inputs);
                    assert(place@.outputs =~= want.outputs);
                    assert(place@ == want);
                }
                places.push(place);
                assert(place_views(places@) =~= before + item_place(v, sv, item@, group));
            }
        },
        ObjectTypeAssociation::O2O { .. } => {
            assert(place_views(places@) =~= before + item_place(v, sv, item@, group));
        },
    }
}

/// The net of the synchronizations.
pub fn materialize_places(
    log: &IndexedLog,
    steps: &Vec<(String, String, OCDeclareArcLabel, Vec<String>)>,
) -> (r: OCPetriNet)
    ensures
        r@ == net_of(log@, step_views(steps@)),
{
    let ghost v = log@;
    let ghost sv = step_views(steps@);
    let transitions = net_transitions(log);
    let mut places: Vec<NetPlace> = Vec::new();
    let mut group: usize = 0;
    let mut k: usize = 0;
    assert(place_views(places@) =~= Seq::empty());
    while k < steps.len()
        invariant
            k <= steps.len(),
            v == log@,
            sv == step_views(steps@),
            text_views(transitions@) == transitions_of(v),
            group <= k,
            group == groups_before(sv, k as nat),
            place_views(places@) == net_places(v, sv, k as nat),
        decreases steps.len() - k,
    {
        let step = &steps[k];
        assert(sv[k as int] == step_view(*step));
        let ghost before = place_views(places@);
        if step.2.all.len() > 0 {
            let items = &step.2.all;
            let ghost iv = step_view(*step).edge.label.all;
            let mut i: usize = 0;
            assert(iv.subrange(0, 0) =~= Seq::empty());
            assert(before + items_places(v, step_view(*step), iv.subrange(0, 0), Some(group))
                =~= before);
            while i < items.len()
                invariant
                    i <= items.len(),
                    v == log@,
                    items == &step.2.all,
                    iv == step_view(*step).edge.label.all,
                    text_views(transitions@) == transitions_of(v),
                    place_views(places@) == before + items_places(
                        v,
                        step_view(*step),
                        iv.subrange(0, i as int),
                        Some(group),
                    ),
                decreases items.len() - i,
            {
                proof {
                    assert(iv.subrange(0, i as int + 1).drop_last() =~= iv.subrange(0, i as int));
                    assert(iv.subrange(0, i as int + 1).last() == items@[i as int]@);
                }
                append_item_place(&mut places, log, &transitions, step, &items[i], Some(group));
                assert(place_views(places@) =~= before + items_places(
                    v,
                    step_view(*step),
                    iv.subrange(0, i as int + 1),
                    Some(group),
                ));
                i += 1;
            }
            assert(iv.subrange(0, i as int) =~= iv);
            group += 1;
        } else if step.2.each.len() > 0 {
            append_item_place(&mut places, log, &transitions, step, &step.2.each[0], None);
        } else {
            assert(place_views(places@) =~= before + Seq::empty());
        }
        k += 1;
    }
    OCPetriNet { transitions, places }
}

/// The synchronizations of a log with their optional activities, and their net: mine the
/// associations, keep the pairs that are synchronized, drop what chains imply, find the
/// optional activities, and lay out the places.
pub fn perform_sync_group_discovery(log: &IndexedLog, noise_thresh: &NoiseThreshold) -> (r: (
    Vec<(String, String, OCDeclareArcLabel, Vec<String>)>,
    OCPetriNet,
))
    ensures
        step_views(r.0@) == sync_steps(log@, noise_thresh@),
        r.1@ == net_of(log@, sync_steps(log@, noise_thresh@)),
{
    let ass = mine_associations(log, noise_thresh);
    let fit = incoporate_control_flow_and_ensure_fitness(log, noise_thresh, ass);
    let red = perform_transitive_reduction(fit);
    let opt = add_optional_steps(log, noise_thresh, red);
    let net = materialize_places(log, &opt);
    (opt, net)
}

} // verus!
