//! Discovery: mining the labels that hold between two activities, and the strictest arcs
//! that hold for them.

use vstd::prelude::*;
use vstd::string::*;
use crate::arc::{arc_views, ArcView, OCDeclareArc, OCDeclareArcType, OCDeclareNode};
use crate::association::{assoc_views, AssociationView, ObjectTypeAssociation};
use crate::involvement::{
    get_activity_object_involvements, get_object_to_object_involvements,
    get_rev_object_to_object_involvements, is_involvement_table, max_count, rows_of,
    ObjectInvolvementCounts, Relation,
};
use crate::label::{
    all_label, dominated_by, each_label, holds_label, join, label_size, label_views, LabelView,
    OCDeclareArcLabel,
};
use crate::log::{find_text, text_views, IndexedLog, LogView};
use crate::perf::{
    arc_holds, get_for_all_evs_perf_thresh, holds_within, NoiseThreshold, ThresholdView,
};
use crate::seqs::{lemma_filter_empty, lemma_filter_push, push_new};
use crate::text::{exit_prefix, has_prefix, init_prefix, same_str};

verus! {

/// Whether, and in which direction, links between objects are tried as associations.
#[derive(Debug, Clone, Copy, PartialEq, Eq, Structural)]
pub enum O2OMode {
    /// Only the objects of the events themselves.
    Off,
    /// Also the objects that those link to.
    Direct,
    /// Also the objects that link to those.
    Reversed,
    /// Both directions.
    Bidirectional,
}

/// What discovery is asked for.
#[derive(Debug, Clone, Copy)]
pub struct OCDeclareDiscoveryOptions {
    /// The fraction of events that may break a constraint that is still accepted.
    pub noise_threshold: NoiseThreshold,
    /// Which links between objects are tried.
    pub o2o_mode: O2OMode,
    /// The count bounds under which labels are generated, and which the arcs carry.
    pub counts_for_generation: (Option<usize>, Option<usize>),
    /// The count bounds under which grouped labels and the mined labels are filtered.
    pub counts_for_filter: (Option<usize>, Option<usize>),
}

/// The mathematical value of [`OCDeclareDiscoveryOptions`].
pub struct OptionsView {
    pub threshold: ThresholdView,
    pub o2o_mode: O2OMode,
    pub counts_for_generation: (Option<usize>, Option<usize>),
    pub counts_for_filter: (Option<usize>, Option<usize>),
}

impl View for OCDeclareDiscoveryOptions {
    type V = OptionsView;

    open spec fn view(&self) -> OptionsView {
        OptionsView {
            threshold: self.noise_threshold@,
            o2o_mode: self.o2o_mode,
            counts_for_generation: self.counts_for_generation,
            counts_for_filter: self.counts_for_filter,
        }
    }
}

/// The usual options for a threshold: no links between objects, at least one matching
/// event for generation, and between 1 and 20 for filtering.
pub open spec fn usual_options(threshold: ThresholdView) -> OptionsView {
    OptionsView {
        threshold,
        o2o_mode: O2OMode::Off,
        counts_for_generation: (Some(1usize), None),
        counts_for_filter: (Some(1usize), Some(20usize)),
    }
}

impl Default for OCDeclareDiscoveryOptions {
    /// The usual options for a threshold of one fifth.
    fn default() -> (r: Self)
        ensures
            r@ == usual_options(ThresholdView { numerator: 1, denominator: 5 }),
    {
        OCDeclareDiscoveryOptions::new(NoiseThreshold::default())
    }
}

impl OCDeclareDiscoveryOptions {
    /// The usual options for a threshold.
    pub fn new(noise_threshold: NoiseThreshold) -> (r: Self)
        ensures
            r@ == usual_options(noise_threshold@),
    {
        OCDeclareDiscoveryOptions {
            noise_threshold,
            o2o_mode: O2OMode::Off,
            counts_for_generation: (Some(1), None),
            counts_for_filter: (Some(1), Some(20)),
        }
    }
}

/// The greatest number of objects of type `u` that one source of the group `name` is
/// related to along `rel`.
pub open spec fn involved_max(v: LogView, rel: Relation, name: Seq<char>, u: Seq<char>) -> nat {
    max_count(v, rel, rows_of(v, rel, name), u)
}

/// The direct candidates among the first `k` object types: each type that events of both
/// activities are related to, flagged where an event of the first activity is related to
/// more than one object of it.
pub open spec fn direct_candidates(v: LogView, a1: Seq<char>, a2: Seq<char>, k: nat) -> Seq<
    (AssociationView, bool),
>
    decreases k,
{
    if k == 0 {
        Seq::empty()
    } else {
        let rest = direct_candidates(v, a1, a2, (k - 1) as nat);
        let u = v.object_types[k - 1];
        if involved_max(v, Relation::EventObjects, a1, u) > 0 && involved_max(
            v,
            Relation::EventObjects,
            a2,
            u,
        ) > 0 {
            rest.push(
                (
                    AssociationView::Simple { object_type: u },
                    involved_max(v, Relation::EventObjects, a1, u) > 1,
                ),
            )
        } else {
            rest
        }
    }
}

/// The relation that a hop follows.
pub open spec fn hop_relation(reversed: bool) -> Relation {
    if reversed {
        Relation::ObjectLinksReversed
    } else {
        Relation::ObjectLinks
    }
}

/// The hop candidates from the object type at `i` to the first `k` object types: each
/// type that objects of the first type are one hop away from and that events of the
/// second activity are related to, flagged where more than one object can be reached.
pub open spec fn hop_row(
    v: LogView,
    a1: Seq<char>,
    a2: Seq<char>,
    reversed: bool,
    i: int,
    k: nat,
) -> Seq<(AssociationView, bool)>
    decreases k,
{
    if k == 0 {
        Seq::empty()
    } else {
        let rest = hop_row(v, a1, a2, reversed, i, (k - 1) as nat);
        let first = v.object_types[i];
        let second = v.object_types[k - 1];
        if involved_max(v, hop_relation(reversed), first, second) > 0 && involved_max(
            v,
            Relation::EventObjects,
            a2,
            second,
        ) > 0 {
            rest.push(
                (
                    AssociationView::O2O { first, second, reversed },
                    involved_max(v, hop_relation(reversed), first, second) > 1 || involved_max(
                        v,
                        Relation::EventObjects,
                        a1,
                        first,
                    ) > 1,
                ),
            )
        } else {
            rest
        }
    }
}

/// The hop candidates from the first `i` object types, of those that events of the first
/// activity are related to.
pub open spec fn hop_candidates(
    v: LogView,
    a1: Seq<char>,
    a2: Seq<char>,
    reversed: bool,
    i: nat,
) -> Seq<(AssociationView, bool)>
    decreases i,
{
    if i == 0 {
        Seq::empty()
    } else {
        let rest = hop_candidates(v, a1, a2, reversed, (i - 1) as nat);
        if involved_max(v, Relation::EventObjects, a1, v.object_types[i - 1]) > 0 {
            rest + hop_row(v, a1, a2, reversed, i - 1, v.object_types.len())
        } else {
            rest
        }
    }
}

/// The associations that are tried between two activities, each with the flag that more
/// than one object may be bound: the direct ones, then the forward and the backward hops
/// that the mode asks for.
pub open spec fn candidates(v: LogView, a1: Seq<char>, a2: Seq<char>, mode: O2OMode) -> Seq<
    (AssociationView, bool),
> {
    direct_candidates(v, a1, a2, v.object_types.len()) + (if mode == O2OMode::Direct || mode
        == O2OMode::Bidirectional {
        hop_candidates(v, a1, a2, false, v.object_types.len())
    } else {
        Seq::empty()
    }) + (if mode == O2OMode::Reversed || mode == O2OMode::Bidirectional {
        hop_candidates(v, a1, a2, true, v.object_types.len())
    } else {
        Seq::empty()
    })
}

/// The views of a list of candidates, in order.
pub open spec fn cand_views(s: Seq<(ObjectTypeAssociation, bool)>) -> Seq<(AssociationView, bool)> {
    s.map_values(|c: (ObjectTypeAssociation, bool)| (c.0@, c.1))
}

/// One search for labels: the log, the two activities, the options, and whether only
/// grouped labels are combined.
pub struct SearchView {
    pub v: LogView,
    pub from: Seq<char>,
    pub to: Seq<char>,
    pub options: OptionsView,
    pub grouping_only: bool,
}

/// Whether the association with label `l` holds between the two activities under the
/// generation bounds, or under the filter bounds where `filtering`.
pub open spec fn passes(c: SearchView, l: LabelView, filtering: bool) -> bool {
    holds_within(
        c.v,
        c.from,
        c.to,
        OCDeclareArcType::ASS,
        if filtering {
            c.options.counts_for_filter
        } else {
            c.options.counts_for_generation
        },
        l,
        c.options.threshold,
    )
}

/// The label that a candidate starts with, if any: none where binding it one object at a
/// time fails; binding all its objects at once where more than one may be bound and that
/// passes the filter; else binding one object at a time. Where only grouped labels are
/// combined, a candidate that binds one object starts grouped.
pub open spec fn seed(c: SearchView, a: AssociationView, multiple: bool) -> Option<LabelView> {
    if !passes(c, each_label(a), false) {
        None
    } else if multiple {
        if passes(c, all_label(a), true) {
            Some(all_label(a))
        } else {
            Some(each_label(a))
        }
    } else if c.grouping_only {
        Some(all_label(a))
    } else {
        Some(each_label(a))
    }
}

/// The labels that the candidates start with, in order.
pub open spec fn seeds(c: SearchView, cands: Seq<(AssociationView, bool)>) -> Seq<LabelView>
    decreases cands.len(),
{
    if cands.len() == 0 {
        Seq::empty()
    } else {
        let rest = seeds(c, cands.drop_last());
        match seed(c, cands.last().0, cands.last().1) {
            Some(l) => rest.push(l),
            None => rest,
        }
    }
}

/// Whether the join of `x` and `y` is accepted in the round of labels of `size`: neither
/// dominates the other, the join has one association more than `size`, and it holds.
/// Where only grouped labels are combined, neither may bind objects one at a time, and
/// the join must pass the filter.
pub open spec fn acceptable(c: SearchView, x: LabelView, y: LabelView, size: nat) -> bool {
    &&& !dominated_by(x, y)
    &&& !dominated_by(y, x)
    &&& c.grouping_only ==> x.each.len() == 0 && y.each.len() == 0
    &&& label_size(join(x, y)) == size + 1
    &&& passes(c, join(x, y), c.grouping_only)
}

/// `acc` with the join of the labels at `a` and `b`, where that is accepted and new.
pub open spec fn add_pair(
    c: SearchView,
    f: Seq<LabelView>,
    size: nat,
    a: int,
    b: int,
    acc: Seq<LabelView>,
) -> Seq<LabelView> {
    if acceptable(c, f[a], f[b], size) {
        push_new(acc, join(f[a], f[b]))
    } else {
        acc
    }
}

/// `acc` with the accepted joins of the label at `i` and the labels behind it, below `j`.
pub open spec fn pair_row(
    c: SearchView,
    f: Seq<LabelView>,
    size: nat,
    i: int,
    j: nat,
    acc: Seq<LabelView>,
) -> Seq<LabelView>
    decreases j,
{
    if j == 0 || j <= i + 1 {
        acc
    } else {
        add_pair(c, f, size, i, j - 1, pair_row(c, f, size, i, (j - 1) as nat, acc))
    }
}

/// The accepted joins of the pairs whose first label is among the first `i`.
pub open spec fn pair_rows(c: SearchView, f: Seq<LabelView>, size: nat, i: nat) -> Seq<LabelView>
    decreases i,
{
    if i == 0 {
        Seq::empty()
    } else {
        pair_row(c, f, size, i - 1, f.len(), pair_rows(c, f, size, (i - 1) as nat))
    }
}

/// The accepted joins of all pairs of `f`, each once, in the order of the pairs.
pub open spec fn accepted(c: SearchView, f: Seq<LabelView>, size: nat) -> Seq<LabelView> {
    pair_rows(c, f, size, f.len())
}

/// Whether another label of `s` dominates `x`.
pub open spec fn surpassed(x: LabelView, s: Seq<LabelView>) -> bool {
    exists|i: int| 0 <= i < s.len() && #[trigger] s[i] != x && dominated_by(x, s[i])
}

/// The labels of `s` that no other label of `s` dominates, in order.
pub open spec fn undominated(s: Seq<LabelView>) -> Seq<LabelView> {
    s.filter(|x: LabelView| !surpassed(x, s))
}

/// `s` with the labels of `fresh` that it does not hold yet, in order.
pub open spec fn add_all_new(s: Seq<LabelView>, fresh: Seq<LabelView>) -> Seq<LabelView>
    decreases fresh.len(),
{
    if fresh.len() == 0 {
        s
    } else {
        push_new(add_all_new(s, fresh.drop_last()), fresh.last())
    }
}

/// The labels kept after a round: those kept before that no fresh label dominates, and
/// the fresh ones.
pub open spec fn merge(kept: Seq<LabelView>, fresh: Seq<LabelView>) -> Seq<LabelView> {
    add_all_new(kept.filter(|x: LabelView| !surpassed(x, fresh)), fresh)
}

/// The labels kept when the rounds end: each round joins the pairs of the frontier,
/// keeps what is accepted and goes on from the accepted labels that no other accepted
/// label dominates; the rounds end when nothing is accepted, and after `fuel` rounds.
pub open spec fn search(
    c: SearchView,
    kept: Seq<LabelView>,
    frontier: Seq<LabelView>,
    size: nat,
    fuel: nat,
) -> Seq<LabelView>
    decreases fuel,
{
    if fuel == 0 {
        kept
    } else {
        let fresh = accepted(c, frontier, size);
        if fresh.len() == 0 {
            kept
        } else {
            search(c, merge(kept, fresh), undominated(fresh), size + 1, (fuel - 1) as nat)
        }
    }
}

/// The labels mined for the candidates: the search from their seeds, and of its result
/// the labels that no other dominates. The search is given a round for each candidate,
/// which is as many as it can take before nothing more is accepted.
pub open spec fn mined_labels(c: SearchView, cands: Seq<(AssociationView, bool)>) -> Seq<
    LabelView,
> {
    let s = seeds(c, cands);
    undominated(search(c, add_all_new(Seq::empty(), s), s, 1, cands.len()))
}

/// The arc with another arc type.
pub open spec fn with_type(a: ArcView, t: OCDeclareArcType) -> ArcView {
    ArcView { arc_type: t, ..a }
}

/// The arc of the `strict` type if it holds, else of the `loose` type if that holds.
pub open spec fn directed(
    v: LogView,
    a: ArcView,
    threshold: ThresholdView,
    loose: OCDeclareArcType,
    strict: OCDeclareArcType,
) -> Seq<ArcView> {
    if arc_holds(v, with_type(a, loose), threshold) {
        if arc_holds(v, with_type(a, strict), threshold) {
            seq![with_type(a, strict)]
        } else {
            seq![with_type(a, loose)]
        }
    } else {
        Seq::empty()
    }
}

/// The strictest arcs that hold for an association: forward the directly-follows arc,
/// else the eventually-follows arc; backward likewise; and where neither direction
/// holds, the plain association, unless it leads from an activity to itself.
pub open spec fn stricter(v: LogView, a: ArcView, threshold: ThresholdView) -> Seq<ArcView> {
    let forward = directed(v, a, threshold, OCDeclareArcType::EF, OCDeclareArcType::DF);
    let backward = directed(v, a, threshold, OCDeclareArcType::EFREV, OCDeclareArcType::DFREV);
    if forward.len() + backward.len() == 0 && a.from != a.to {
        seq![with_type(a, OCDeclareArcType::ASS)]
    } else {
        forward + backward
    }
}

/// The arcs for one mined label: none unless the association passes the filter, else the
/// strictest arcs that hold under the generation bounds.
pub open spec fn label_arcs(v: LogView, o: OptionsView, from: Seq<char>, to: Seq<char>, l: LabelView) -> Seq<
    ArcView,
> {
    if holds_within(v, from, to, OCDeclareArcType::ASS, o.counts_for_filter, l, o.threshold) {
        stricter(
            v,
            ArcView {
                from,
                to,
                arc_type: OCDeclareArcType::ASS,
                label: l,
                counts: o.counts_for_generation,
            },
            o.threshold,
        )
    } else {
        Seq::empty()
    }
}

/// The arcs for the labels, in order.
pub open spec fn labels_arcs(
    v: LogView,
    o: OptionsView,
    from: Seq<char>,
    to: Seq<char>,
    ls: Seq<LabelView>,
) -> Seq<ArcView>
    decreases ls.len(),
{
    if ls.len() == 0 {
        Seq::empty()
    } else {
        labels_arcs(v, o, from, to, ls.drop_last()) + label_arcs(v, o, from, to, ls.last())
    }
}

/// The search for the labels between two activities.
pub open spec fn search_of(
    v: LogView,
    o: OptionsView,
    from: Seq<char>,
    to: Seq<char>,
    grouping_only: bool,
) -> SearchView {
    SearchView { v, from, to, options: o, grouping_only }
}

/// The arcs discovered between two activities.
pub open spec fn pair_arcs(v: LogView, o: OptionsView, from: Seq<char>, to: Seq<char>) -> Seq<ArcView> {
    labels_arcs(
        v,
        o,
        from,
        to,
        mined_labels(search_of(v, o, from, to, false), candidates(v, from, to, o.o2o_mode)),
    )
}

/// Whether the activity marks the first or the last event of an object.
pub open spec fn bookend(name: Seq<char>) -> bool {
    init_prefix().is_prefix_of(name) || exit_prefix().is_prefix_of(name)
}

/// The arcs discovered from the activity at `i` to the first `j` activities.
pub open spec fn row_arcs(v: LogView, o: OptionsView, i: int, j: nat) -> Seq<ArcView>
    decreases j,
{
    if j == 0 {
        Seq::empty()
    } else {
        row_arcs(v, o, i, (j - 1) as nat) + (if bookend(v.event_types[i]) || bookend(
            v.event_types[j - 1],
        ) {
            Seq::empty()
        } else {
            pair_arcs(v, o, v.event_types[i], v.event_types[j - 1])
        })
    }
}

/// The arcs discovered from the first `i` activities.
pub open spec fn all_arcs(v: LogView, o: OptionsView, i: nat) -> Seq<ArcView>
    decreases i,
{
    if i == 0 {
        Seq::empty()
    } else {
        all_arcs(v, o, (i - 1) as nat) + row_arcs(v, o, i - 1, v.event_types.len())
    }
}

/// The arcs discovered on a log: those of every ordered pair of declared activities that
/// are no bookends, in the order of the declared activities.
pub open spec fn discovered(v: LogView, o: OptionsView) -> Seq<ArcView> {
    all_arcs(v, o, v.event_types.len())
}

/// The object type that an association leads to.
pub open spec fn out_type(a: AssociationView) -> Seq<char> {
    match a {
        AssociationView::Simple { object_type } => object_type,
        AssociationView::O2O { second, .. } => second,
    }
}

/// Whether the object type is one of the resources: products, employees, customers.
pub open spec fn is_resource(t: Seq<char>) -> bool {
    t == "products"@ || t == "employees"@ || t == "customers"@
}

/// Whether some association of the list leads to an object type that is no resource.
pub open spec fn reaches_beyond_resources(s: Seq<AssociationView>) -> bool {
    exists|i: int| 0 <= i < s.len() && !is_resource(out_type(#[trigger] s[i]))
}

/// Whether the label is about more than resources where that is possible: where some
/// candidate leads to an object type that is no resource, some association of the label
/// must do so too.
pub open spec fn resource_test(l: LabelView, cands: Seq<(AssociationView, bool)>) -> bool {
    reaches_beyond_resources(cands.map_values(|c: (AssociationView, bool)| c.0))
        ==> reaches_beyond_resources(l.all + l.any + l.each)
}

/// The object types that the associations lead to, in order.
pub fn get_out_types(ras: &Vec<ObjectTypeAssociation>) -> (r: Vec<String>)
    ensures
        text_views(r@) == assoc_views(ras@).map_values(|a: AssociationView| out_type(a)),
        r@.len() == ras@.len(),
        forall|k: int| 0 <= k < ras@.len() ==> (#[trigger] r@[k])@ == out_type(ras@[k]@),
{
    let mut r: Vec<String> = Vec::new();
    let mut i: usize = 0;
    while i < ras.len()
        invariant
            i <= ras.len(),
            r@.len() == i,
            forall|k: int| 0 <= k < i ==> (#[trigger] r@[k])@ == out_type(ras@[k]@),
        decreases ras.len() - i,
    {
        let t = match &ras[i] {
            ObjectTypeAssociation::Simple { object_type } => object_type.clone(),
            ObjectTypeAssociation::O2O { second, .. } => second.clone(),
        };
        r.push(t);
        i += 1;
    }
    assert(text_views(r@) =~= assoc_views(ras@).map_values(|a: AssociationView| out_type(a)));
    r
}

fn beyond_resources(types: &Vec<String>) -> (r: bool)
    ensures
        r == exists|i: int| 0 <= i < types@.len() && !is_resource((#[trigger] types@[i])@),
{
    let mut i: usize = 0;
    while i < types.len()
        invariant
            i <= types.len(),
            forall|k: int| 0 <= k < i ==> is_resource((#[trigger] types@[k])@),
        decreases types.len() - i,
    {
        let t = types[i].as_str();
        if !same_str(t, "products") && !same_str(t, "employees") && !same_str(t, "customers") {
            return true;
        }
        i += 1;
    }
    false
}

/// Whether the label is about more than resources where that is possible.
pub fn test_for_resource(l: &OCDeclareArcLabel, obj_inv: &Vec<(ObjectTypeAssociation, bool)>) -> (r:
    bool)
    ensures
        r == resource_test(l@, cand_views(obj_inv@)),
{
    let mut link: Vec<String> = Vec::new();
    let mut i: usize = 0;
    let ghost cs = cand_views(obj_inv@).map_values(|c: (AssociationView, bool)| c.0);
    while i < obj_inv.len()
        invariant
            i <= obj_inv.len(),
            cs == cand_views(obj_inv@).map_values(|c: (AssociationView, bool)| c.0),
            link@.len() == i,
            forall|k: int| 0 <= k < i ==> (#[trigger] link@[k])@ == out_type(cs[k]),
        decreases obj_inv.len() - i,
    {
        let t = match &obj_inv[i].0 {
            ObjectTypeAssociation::Simple { object_type } => object_type.clone(),
            ObjectTypeAssociation::O2O { second, .. } => second.clone(),
        };
        link.push(t);
        i += 1;
    }
    let possible = beyond_resources(&link);
    proof {
        if possible {
            let k = choose|k: int| 0 <= k < link@.len() && !is_resource((#[trigger] link@[k])@);
            assert(!is_resource(out_type(cs[k])));
        }
        if reaches_beyond_resources(cs) {
            let k = choose|k: int| 0 <= k < cs.len() && !is_resource(out_type(#[trigger] cs[k]));
            assert(!is_resource(link@[k]@));
        }
    }
    if !possible {
        return true;
    }
    let all = get_out_types(&l.all);
    let any = get_out_types(&l.any);
    let each = get_out_types(&l.each);
    let found = beyond_resources(&all) || beyond_resources(&any) || beyond_resources(&each);
    proof {
        let s = l@.all + l@.any + l@.each;
        let a = l@.all.len() as int;
        let n = l@.any.len() as int;
        assert(all@.len() == a && any@.len() == n && each@.len() == l@.each.len());
        assert forall|k: int| 0 <= k < all@.len() implies (#[trigger] all@[k])@ == out_type(
            l@.all[k],
        ) by {
            assert(l@.all[k] == l.all@[k]@);
        }
        assert forall|k: int| 0 <= k < any@.len() implies (#[trigger] any@[k])@ == out_type(
            l@.any[k],
        ) by {
            assert(l@.any[k] == l.any@[k]@);
        }
        assert forall|k: int| 0 <= k < each@.len() implies (#[trigger] each@[k])@ == out_type(
            l@.each[k],
        ) by {
            assert(l@.each[k] == l.each@[k]@);
        }
        if found {
            if exists|i: int| 0 <= i < all@.len() && !is_resource((#[trigger] all@[i])@) {
                let k = choose|k: int| 0 <= k < all@.len() && !is_resource((#[trigger] all@[k])@);
                assert(!is_resource(out_type(s[k])));
            } else if exists|i: int| 0 <= i < any@.len() && !is_resource((#[trigger] any@[i])@) {
                let k = choose|k: int| 0 <= k < any@.len() && !is_resource((#[trigger] any@[k])@);
                assert(!is_resource(out_type(s[a + k])));
            } else {
                let k = choose|k: int| 0 <= k < each@.len() && !is_resource(
                    (#[trigger] each@[k])@,
                );
                assert(!is_resource(out_type(s[a + n + k])));
            }
        }
        if reaches_beyond_resources(s) {
            let k = choose|k: int| 0 <= k < s.len() && !is_resource(out_type(#[trigger] s[k]));
            if k < a {
                assert(!is_resource(all@[k]@));
            } else if k < a + n {
                assert(!is_resource(any@[k - a]@));
            } else {
                assert(!is_resource(each@[k - a - n]@));
            }
        }
    }
    found
}

/// Whether the activity marks the first or the last event of an object.
pub fn is_bookend(name: &str) -> (r: bool)
    ensures
        r == bookend(name@),
{
    proof {
        reveal_strlit("<init>");
        reveal_strlit("<exit>");
        assert("<init>"@ =~= init_prefix());
        assert("<exit>"@ =~= exit_prefix());
    }
    has_prefix(name, "<init>") || has_prefix(name, "<exit>")
}

fn append_hops(
    r: &mut Vec<(ObjectTypeAssociation, bool)>,
    t1: usize,
    t2: usize,
    log: &IndexedLog,
    act_ob: &Vec<Vec<ObjectInvolvementCounts>>,
    links: &Vec<Vec<ObjectInvolvementCounts>>,
    reversed: bool,
    Ghost(a1): Ghost<Seq<char>>,
    Ghost(a2): Ghost<Seq<char>>,
)
    requires
        t1 < log@.event_types.len(),
        t2 < log@.event_types.len(),
        log@.event_types[t1 as int] == a1,
        log@.event_types[t2 as int] == a2,
        is_involvement_table(log@, Relation::EventObjects, act_ob@),
        is_involvement_table(log@, hop_relation(reversed), links@),
    ensures
        cand_views(final(r)@) == cand_views(old(r)@) + hop_candidates(
            log@,
            a1,
            a2,
            reversed,
            log@.object_types.len(),
        ),
{
    let ghost v = log@;
    let ghost base = cand_views(r@);
    let types = log.object_types();
    let count: usize = types.len();
    let mut i: usize = 0;
    assert(base + hop_candidates(v, a1, a2, reversed, 0) =~= base);
    while i < count
        invariant
            i <= count,
            v == log@,
            count == v.object_types.len(),
            text_views(types@) == v.object_types,
            t1 < v.event_types.len(),
            t2 < v.event_types.len(),
            v.event_types[t1 as int] == a1,
            v.event_types[t2 as int] == a2,
            is_involvement_table(v, Relation::EventObjects, act_ob@),
            is_involvement_table(v, hop_relation(reversed), links@),
            cand_views(r@) == base + hop_candidates(v, a1, a2, reversed, i as nat),
        decreases count - i,
    {
        assert(act_ob@[t1 as int]@[i as int].max == involved_max(
            v,
            Relation::EventObjects,
            a1,
            v.object_types[i as int],
        ));
        if act_ob[t1][i].max > 0 {
            let ghost before = cand_views(r@);
            let mut k: usize = 0;
            assert(before + hop_row(v, a1, a2, reversed, i as int, 0) =~= before);
            while k < count
                invariant
                    k <= count,
                    i < count,
                    v == log@,
                    count == v.object_types.len(),
                    text_views(types@) == v.object_types,
                    t1 < v.event_types.len(),
                    t2 < v.event_types.len(),
                    v.event_types[t1 as int] == a1,
                    v.event_types[t2 as int] == a2,
                    is_involvement_table(v, Relation::EventObjects, act_ob@),
                    is_involvement_table(v, hop_relation(reversed), links@),
                    cand_views(r@) == before + hop_row(v, a1, a2, reversed, i as int, k as nat),
                decreases count - k,
            {
                let ghost first = v.object_types[i as int];
                let ghost second = v.object_types[k as int];
                assert(links@[i as int]@[k as int].max == involved_max(
                    v,
                    hop_relation(reversed),
                    first,
                    second,
                ));
                assert(act_ob@[t2 as int]@[k as int].max == involved_max(
                    v,
                    Relation::EventObjects,
                    a2,
                    second,
                ));
                if links[i][k].max > 0 && act_ob[t2][k].max > 0 {
                    let multiple = links[i][k].max > 1 || act_ob[t1][i].max > 1;
                    assert(text_views(types@)[i as int] == types@[i as int]@);
                    assert(text_views(types@)[k as int] == types@[k as int]@);
                    let a = if reversed {
                        ObjectTypeAssociation::new_o2o_rev(types[i].as_str(), types[k].as_str())
                    } else {
                        ObjectTypeAssociation::new_o2o(types[i].as_str(), types[k].as_str())
                    };
                    let ghost prev = cand_views(r@);
                    r.push((a, multiple));
                    assert(cand_views(r@) =~= prev.push(
                        (AssociationView::O2O { first, second, reversed }, multiple),
                    ));
                    assert(before + hop_row(v, a1, a2, reversed, i as int, k as nat + 1)
                        =~= (before + hop_row(v, a1, a2, reversed, i as int, k as nat)).push(
                        (AssociationView::O2O { first, second, reversed }, multiple),
                    ));
                }
                k += 1;
            }
            assert(base + hop_candidates(v, a1, a2, reversed, i as nat + 1) =~= (base
                + hop_candidates(v, a1, a2, reversed, i as nat)) + hop_row(
                v,
                a1,
                a2,
                reversed,
                i as int,
                count as nat,
            ));
        }
        i += 1;
    }
}

/// The associations to try between two declared activities, each with the flag that more
/// than one object may be bound.
pub fn get_direct_or_indirect_object_involvements(
    act1: &str,
    act2: &str,
    log: &IndexedLog,
    act_ob_involvement: &Vec<Vec<ObjectInvolvementCounts>>,
    obj_obj_involvement: &Vec<Vec<ObjectInvolvementCounts>>,
    rev_obj_obj_involvement: &Vec<Vec<ObjectInvolvementCounts>>,
    mode: O2OMode,
) -> (r: Vec<(ObjectTypeAssociation, bool)>)
    requires
        log@.event_types.contains(act1@),
        log@.event_types.contains(act2@),
        is_involvement_table(log@, Relation::EventObjects, act_ob_involvement@),
        is_involvement_table(log@, Relation::ObjectLinks, obj_obj_involvement@),
        is_involvement_table(log@, Relation::ObjectLinksReversed, rev_obj_obj_involvement@),
    ensures
        cand_views(r@) == candidates(log@, act1@, act2@, mode),
{
    let ghost v = log@;
    let names = log.event_types();
    let types = log.object_types();
    let mut r: Vec<(ObjectTypeAssociation, bool)> = Vec::new();
    let (t1, t2) = match (find_text(names, act1), find_text(names, act2)) {
        (Some(t1), Some(t2)) => (t1, t2),
        _ => {
            assert(false);
            return r;
        },
    };
    assert(text_views(names@)[t1 as int] == act1@);
    assert(text_views(names@)[t2 as int] == act2@);
    let count: usize = types.len();
    let mut k: usize = 0;
    assert(cand_views(r@) =~= Seq::empty());
    while k < count
        invariant
            k <= count,
            v == log@,
            count == v.object_types.len(),
            text_views(types@) == v.object_types,
            t1 < v.event_types.len(),
            t2 < v.event_types.len(),
            v.event_types[t1 as int] == act1@,
            v.event_types[t2 as int] == act2@,
            is_involvement_table(v, Relation::EventObjects, act_ob_involvement@),
            cand_views(r@) == direct_candidates(v, act1@, act2@, k as nat),
        decreases count - k,
    {
        let ghost u = v.object_types[k as int];
        assert(act_ob_involvement@[t1 as int]@[k as int].max == involved_max(
            v,
            Relation::EventObjects,
            act1@,
            u,
        ));
        assert(act_ob_involvement@[t2 as int]@[k as int].max == involved_max(
            v,
            Relation::EventObjects,
            act2@,
            u,
        ));
        if act_ob_involvement[t1][k].max > 0 && act_ob_involvement[t2][k].max > 0 {
            assert(text_views(types@)[k as int] == types@[k as int]@);
            let a = ObjectTypeAssociation::new_simple(types[k].as_str());
            let multiple = act_ob_involvement[t1][k].max > 1;
            let ghost prev = cand_views(r@);
            r.push((a, multiple));
            assert(cand_views(r@) =~= prev.push(
                (AssociationView::Simple { object_type: u }, multiple),
            ));
        }
        k += 1;
    }
    let ghost direct = cand_views(r@);
    match mode {
        O2OMode::Direct | O2OMode::Bidirectional => {
            append_hops(
                &mut r,
                t1,
                t2,
                log,
                act_ob_involvement,
                obj_obj_involvement,
                false,
                Ghost(act1@),
                Ghost(act2@),
            );
        },
        _ => {
            assert(cand_views(r@) =~= direct + Seq::empty());
        },
    }
    let ghost forward = cand_views(r@);
    match mode {
        O2OMode::Reversed | O2OMode::Bidirectional => {
            append_hops(
                &mut r,
                t1,
                t2,
                log,
                act_ob_involvement,
                rev_obj_obj_involvement,
                true,
                Ghost(act1@),
                Ghost(act2@),
            );
        },
        _ => {
            assert(cand_views(r@) =~= forward + Seq::empty());
        },
    }
    r
}

fn passes_test(
    log: &IndexedLog,
    from: &str,
    to: &str,
    options: &OCDeclareDiscoveryOptions,
    l: &OCDeclareArcLabel,
    filtering: bool,
    Ghost(grouping_only): Ghost<bool>,
) -> (r: bool)
    ensures
        r == passes(search_of(log@, options@, from@, to@, grouping_only), l@, filtering),
{
    let t = OCDeclareArcType::ASS;
    if filtering {
        get_for_all_evs_perf_thresh(
            from,
            to,
            l,
            &t,
            &options.counts_for_filter,
            log,
            &options.noise_threshold,
        )
    } else {
        get_for_all_evs_perf_thresh(
            from,
            to,
            l,
            &t,
            &options.counts_for_generation,
            log,
            &options.noise_threshold,
        )
    }
}

/// The labels that the candidates start with, in order.
pub fn seed_labels(
    log: &IndexedLog,
    from: &str,
    to: &str,
    options: &OCDeclareDiscoveryOptions,
    grouping_only: bool,
    cands: &Vec<(ObjectTypeAssociation, bool)>,
) -> (r: Vec<OCDeclareArcLabel>)
    ensures
        label_views(r@) == seeds(
            search_of(log@, options@, from@, to@, grouping_only),
            cand_views(cands@),
        ),
{
    let ghost c = search_of(log@, options@, from@, to@, grouping_only);
    let ghost cv = cand_views(cands@);
    let mut r: Vec<OCDeclareArcLabel> = Vec::new();
    let mut i: usize = 0;
    assert(cv.subrange(0, 0) =~= Seq::empty());
    assert(label_views(r@) =~= Seq::empty());
    while i < cands.len()
        invariant
            i <= cands.len(),
            c == search_of(log@, options@, from@, to@, grouping_only),
            cv == cand_views(cands@),
            label_views(r@) == seeds(c, cv.subrange(0, i as int)),
        decreases cands.len() - i,
    {
        let a = &cands[i].0;
        let multiple = cands[i].1;
        proof {
            assert(cv.subrange(0, i as int + 1).drop_last() =~= cv.subrange(0, i as int));
            assert(cv.subrange(0, i as int + 1).last() == (a@, multiple));
        }
        let ghost prev = label_views(r@);
        let each = OCDeclareArcLabel::each_of(a);
        if passes_test(log, from, to, options, &each, false, Ghost(grouping_only)) {
            if multiple {
                let all = OCDeclareArcLabel::all_of(a);
                if passes_test(log, from, to, options, &all, true, Ghost(grouping_only)) {
                    r.push(all);
                    assert(label_views(r@) =~= prev.push(all_label(a@)));
                } else {
                    r.push(each);
                    assert(label_views(r@) =~= prev.push(each_label(a@)));
                }
            } else if grouping_only {
                r.push(OCDeclareArcLabel::all_of(a));
                assert(label_views(r@) =~= prev.push(all_label(a@)));
            } else {
                r.push(each);
                assert(label_views(r@) =~= prev.push(each_label(a@)));
            }
        }
        i += 1;
    }
    assert(cv.subrange(0, i as int) =~= cv);
    r
}

/// The accepted joins of all pairs of the frontier, each once, in the order of the pairs.
pub fn accepted_joins(
    log: &IndexedLog,
    from: &str,
    to: &str,
    options: &OCDeclareDiscoveryOptions,
    grouping_only: bool,
    frontier: &Vec<OCDeclareArcLabel>,
    size: u128,
) -> (r: Vec<OCDeclareArcLabel>)
    requires
        size < u128::MAX,
    ensures
        label_views(r@) == accepted(
            search_of(log@, options@, from@, to@, grouping_only),
            label_views(frontier@),
            size as nat,
        ),
{
    let ghost c = search_of(log@, options@, from@, to@, grouping_only);
    let ghost f = label_views(frontier@);
    let mut r: Vec<OCDeclareArcLabel> = Vec::new();
    let count: usize = frontier.len();
    let mut i: usize = 0;
    assert(label_views(r@) =~= Seq::empty());
    while i < count
        invariant
            i <= count,
            size < u128::MAX,
            count == frontier.len(),
            c == search_of(log@, options@, from@, to@, grouping_only),
            f == label_views(frontier@),
            label_views(r@) == pair_rows(c, f, size as nat, i as nat),
        decreases count - i,
    {
        let ghost start = label_views(r@);
        let mut j: usize = i + 1;
        while j < count
            invariant
                i < j <= count,
                size < u128::MAX,
                count == frontier.len(),
                c == search_of(log@, options@, from@, to@, grouping_only),
                f == label_views(frontier@),
                start == pair_rows(c, f, size as nat, i as nat),
                label_views(r@) == pair_row(c, f, size as nat, i as int, j as nat, start),
            decreases count - j,
        {
            let x = &frontier[i];
            let y = &frontier[j];
            assert(f[i as int] == x@);
            assert(f[j as int] == y@);
            let ghost prev = label_views(r@);
            let apart = !x.is_dominated_by(y) && !y.is_dominated_by(x);
            let grouped = !grouping_only || (x.each.len() == 0 && y.each.len() == 0);
            if apart && grouped {
                let joined = x.join_with(y);
                let sized = joined.size() == size + 1;
                if sized && passes_test(
                    log,
                    from,
                    to,
                    options,
                    &joined,
                    grouping_only,
                    Ghost(grouping_only),
                ) {
                    assert(acceptable(c, x@, y@, size as nat));
                    if !holds_label(&r, &joined) {
                        r.push(joined);
                        assert(label_views(r@) =~= prev.push(join(x@, y@)));
                    }
                } else {
                    assert(!acceptable(c, x@, y@, size as nat));
                }
            } else {
                assert(!acceptable(c, x@, y@, size as nat));
            }
            j += 1;
        }
        i += 1;
    }
    r
}

/// Whether another label of `list` dominates `x`.
pub fn is_surpassed(x: &OCDeclareArcLabel, list: &Vec<OCDeclareArcLabel>) -> (r: bool)
    ensures
        r == surpassed(x@, label_views(list@)),
{
    let ghost s = label_views(list@);
    let mut i: usize = 0;
    while i < list.len()
        invariant
            i <= list.len(),
            s == label_views(list@),
            forall|j: int| 0 <= j < i ==> !(#[trigger] s[j] != x@ && dominated_by(x@, s[j])),
        decreases list.len() - i,
    {
        if !list[i].same_label(x) && x.is_dominated_by(&list[i]) {
            assert(s[i as int] != x@ && dominated_by(x@, s[i as int]));
            return true;
        }
        i += 1;
    }
    false
}

/// The labels of `list` that no label of `others` other than themselves dominates.
fn unsurpassed(list: &Vec<OCDeclareArcLabel>, others: &Vec<OCDeclareArcLabel>) -> (r: Vec<
    OCDeclareArcLabel,
>)
    ensures
        label_views(r@) == label_views(list@).filter(
            |x: LabelView| !surpassed(x, label_views(others@)),
        ),
{
    let ghost s = label_views(list@);
    let ghost o = label_views(others@);
    let ghost p = |x: LabelView| !surpassed(x, o);
    let mut r: Vec<OCDeclareArcLabel> = Vec::new();
    let mut k: usize = 0;
    proof {
        assert(s.subrange(0, 0) =~= Seq::empty());
        lemma_filter_empty(p);
        assert(label_views(r@) =~= Seq::empty());
    }
    while k < list.len()
        invariant
            k <= list.len(),
            s == label_views(list@),
            o == label_views(others@),
            p == |x: LabelView| !surpassed(x, o),
            label_views(r@) == s.subrange(0, k as int).filter(p),
        decreases list.len() - k,
    {
        let x = &list[k];
        let ghost before = label_views(r@);
        proof {
            assert(s.subrange(0, k as int + 1) =~= s.subrange(0, k as int).push(x@));
            lemma_filter_push(s.subrange(0, k as int), x@, p);
        }
        if !is_surpassed(x, others) {
            r.push(x.clone());
            assert(label_views(r@) =~= before.push(x@));
        }
        k += 1;
    }
    assert(s.subrange(0, k as int) =~= s);
    r
}

/// The labels of `list` that no other label of `list` dominates, in order.
pub fn undominated_of(list: &Vec<OCDeclareArcLabel>) -> (r: Vec<OCDeclareArcLabel>)
    ensures
        label_views(r@) == undominated(label_views(list@)),
{
    unsurpassed(list, list)
}

/// Puts into `target` the labels of `fresh` that it does not hold yet, in order.
fn add_new_labels(target: &mut Vec<OCDeclareArcLabel>, fresh: &Vec<OCDeclareArcLabel>)
    ensures
        label_views(final(target)@) == add_all_new(label_views(old(target)@), label_views(fresh@)),
{
    let ghost base = label_views(target@);
    let ghost fv = label_views(fresh@);
    let mut k: usize = 0;
    assert(fv.subrange(0, 0) =~= Seq::empty());
    while k < fresh.len()
        invariant
            k <= fresh.len(),
            fv == label_views(fresh@),
            label_views(target@) == add_all_new(base, fv.subrange(0, k as int)),
        decreases fresh.len() - k,
    {
        let x = &fresh[k];
        let ghost before = label_views(target@);
        proof {
            assert(fv.subrange(0, k as int + 1).drop_last() =~= fv.subrange(0, k as int));
            assert(fv.subrange(0, k as int + 1).last() == x@);
        }
        if !holds_label(target, x) {
            target.push(x.clone());
            assert(label_views(target@) =~= before.push(x@));
        }
        k += 1;
    }
    assert(fv.subrange(0, k as int) =~= fv);
}

/// The labels kept after a round.
pub fn merge_labels(kept: &Vec<OCDeclareArcLabel>, fresh: &Vec<OCDeclareArcLabel>) -> (r: Vec<
    OCDeclareArcLabel,
>)
    ensures
        label_views(r@) == merge(label_views(kept@), label_views(fresh@)),
{
    let mut r = unsurpassed(kept, fresh);
    add_new_labels(&mut r, fresh);
    r
}

/// The labels kept when the rounds end.
pub fn search_labels(
    log: &IndexedLog,
    from: &str,
    to: &str,
    options: &OCDeclareDiscoveryOptions,
    grouping_only: bool,
    kept: Vec<OCDeclareArcLabel>,
    frontier: Vec<OCDeclareArcLabel>,
    size: u128,
    fuel: usize,
) -> (r: Vec<OCDeclareArcLabel>)
    requires
        size + fuel < u128::MAX,
    ensures
        label_views(r@) == search(
            search_of(log@, options@, from@, to@, grouping_only),
            label_views(kept@),
            label_views(frontier@),
            size as nat,
            fuel as nat,
        ),
{
    let ghost c = search_of(log@, options@, from@, to@, grouping_only);
    let ghost goal = search(
        c,
        label_views(kept@),
        label_views(frontier@),
        size as nat,
        fuel as nat,
    );
    let mut held = kept;
    let mut edge = frontier;
    let mut round: u128 = size;
    let mut left: usize = fuel;
    while left > 0
        invariant
            round + left < u128::MAX,
            c == search_of(log@, options@, from@, to@, grouping_only),
            goal == search(c, label_views(held@), label_views(edge@), round as nat, left as nat),
            goal == search(
                c,
                label_views(kept@),
                label_views(frontier@),
                size as nat,
                fuel as nat,
            ),
        decreases left,
    {
        let fresh = accepted_joins(log, from, to, options, grouping_only, &edge, round);
        if fresh.len() == 0 {
            assert(label_views(fresh@).len() == 0);
            return held;
        }
        assert(label_views(fresh@).len() > 0);
        held = merge_labels(&held, &fresh);
        edge = undominated_of(&fresh);
        round += 1;
        left -= 1;
    }
    held
}

/// The labels mined for the candidates.
pub fn mine_labels(
    log: &IndexedLog,
    from: &str,
    to: &str,
    options: &OCDeclareDiscoveryOptions,
    grouping_only: bool,
    cands: &Vec<(ObjectTypeAssociation, bool)>,
) -> (r: Vec<OCDeclareArcLabel>)
    ensures
        label_views(r@) == mined_labels(
            search_of(log@, options@, from@, to@, grouping_only),
            cand_views(cands@),
        ),
{
    let s = seed_labels(log, from, to, options, grouping_only, cands);
    let mut kept: Vec<OCDeclareArcLabel> = Vec::new();
    assert(label_views(kept@) =~= Seq::empty());
    add_new_labels(&mut kept, &s);
    let found = search_labels(log, from, to, options, grouping_only, kept, s, 1, cands.len());
    undominated_of(&found)
}

/// The strictest arcs that hold for the association `a`.
pub fn get_stricter_arrows_for_as(a: OCDeclareArc, noise_thresh: &NoiseThreshold, log: &IndexedLog) -> (r:
    Vec<OCDeclareArc>)
    ensures
        arc_views(r@) == stricter(log@, a@, noise_thresh@),
{
    let ghost v = log@;
    let ghost av = a@;
    let ghost th = noise_thresh@;
    let mut a = a;
    let mut ret: Vec<OCDeclareArc> = Vec::new();
    assert(arc_views(ret@) =~= Seq::empty());
    a.arc_type = OCDeclareArcType::EF;
    assert(a@ == with_type(av, OCDeclareArcType::EF));
    if a.get_for_all_evs_perf_thresh(log, noise_thresh) {
        a.arc_type = OCDeclareArcType::DF;
        assert(a@ == with_type(av, OCDeclareArcType::DF));
        if !a.get_for_all_evs_perf_thresh(log, noise_thresh) {
            a.arc_type = OCDeclareArcType::EF;
        }
        ret.push(a.clone());
    }
    assert(arc_views(ret@) =~= directed(
        v,
        av,
        th,
        OCDeclareArcType::EF,
        OCDeclareArcType::DF,
    ));
    let ghost forward = arc_views(ret@);
    a.arc_type = OCDeclareArcType::EFREV;
    assert(a@ == with_type(av, OCDeclareArcType::EFREV));
    if a.get_for_all_evs_perf_thresh(log, noise_thresh) {
        a.arc_type = OCDeclareArcType::DFREV;
        assert(a@ == with_type(av, OCDeclareArcType::DFREV));
        if !a.get_for_all_evs_perf_thresh(log, noise_thresh) {
            a.arc_type = OCDeclareArcType::EFREV;
        }
        ret.push(a.clone());
    }
    assert(arc_views(ret@) =~= forward + directed(
        v,
        av,
        th,
        OCDeclareArcType::EFREV,
        OCDeclareArcType::DFREV,
    ));
    if ret.len() == 0 && !same_str(a.from.as_str(), a.to.as_str()) {
        a.arc_type = OCDeclareArcType::ASS;
        assert(a@ == with_type(av, OCDeclareArcType::ASS));
        ret.push(a);
        assert(arc_views(ret@) =~= seq![with_type(av, OCDeclareArcType::ASS)]);
    }
    ret
}

/// The arcs for the labels, in order.
fn arcs_of_labels(
    log: &IndexedLog,
    from: &str,
    to: &str,
    options: &OCDeclareDiscoveryOptions,
    labels: &Vec<OCDeclareArcLabel>,
) -> (r: Vec<OCDeclareArc>)
    ensures
        arc_views(r@) == labels_arcs(log@, options@, from@, to@, label_views(labels@)),
{
    let ghost v = log@;
    let ghost o = options@;
    let ghost ls = label_views(labels@);
    let mut r: Vec<OCDeclareArc> = Vec::new();
    let mut k: usize = 0;
    assert(ls.subrange(0, 0) =~= Seq::empty());
    assert(arc_views(r@) =~= Seq::empty());
    while k < labels.len()
        invariant
            k <= labels.len(),
            v == log@,
            o == options@,
            ls == label_views(labels@),
            arc_views(r@) == labels_arcs(v, o, from@, to@, ls.subrange(0, k as int)),
        decreases labels.len() - k,
    {
        let l = &labels[k];
        proof {
            assert(ls.subrange(0, k as int + 1).drop_last() =~= ls.subrange(0, k as int));
            assert(ls.subrange(0, k as int + 1).last() == l@);
        }
        let ghost before = arc_views(r@);
        let t = OCDeclareArcType::ASS;
        if get_for_all_evs_perf_thresh(
            from,
            to,
            l,
            &t,
            &options.counts_for_filter,
            log,
            &options.noise_threshold,
        ) {
            let arc = OCDeclareArc {
                from: OCDeclareNode::new(from),
                to: OCDeclareNode::new(to),
                arc_type: OCDeclareArcType::ASS,
                label: l.clone(),
                counts: options.counts_for_generation,
            };
            let mut found = get_stricter_arrows_for_as(arc, &options.noise_threshold, log);
            let ghost fv = arc_views(found@);
            r.append(&mut found);
            assert(arc_views(r@) =~= before + fv);
        } else {
            assert(arc_views(r@) =~= before + Seq::empty());
        }
        k += 1;
    }
    assert(ls.subrange(0, k as int) =~= ls);
    r
}

/// The arcs discovered between two declared activities, given the involvement tables of
/// the log.
pub fn discover_pair(
    from: &str,
    to: &str,
    log: &IndexedLog,
    options: &OCDeclareDiscoveryOptions,
    act_ob_involvement: &Vec<Vec<ObjectInvolvementCounts>>,
    obj_obj_involvement: &Vec<Vec<ObjectInvolvementCounts>>,
    rev_obj_obj_involvement: &Vec<Vec<ObjectInvolvementCounts>>,
) -> (r: Vec<OCDeclareArc>)
    requires
        log@.event_types.contains(from@),
        log@.event_types.contains(to@),
        is_involvement_table(log@, Relation::EventObjects, act_ob_involvement@),
        is_involvement_table(log@, Relation::ObjectLinks, obj_obj_involvement@),
        is_involvement_table(log@, Relation::ObjectLinksReversed, rev_obj_obj_involvement@),
    ensures
        arc_views(r@) == pair_arcs(log@, options@, from@, to@),
{
    let cands = get_direct_or_indirect_object_involvements(
        from,
        to,
        log,
        act_ob_involvement,
        obj_obj_involvement,
        rev_obj_obj_involvement,
        options.o2o_mode,
    );
    let labels = mine_labels(log, from, to, options, false, &cands);
    arcs_of_labels(log, from, to, options, &labels)
}

/// The arcs discovered on a log under the options.
pub fn discover_behavior_constraints(log: &IndexedLog, options: &OCDeclareDiscoveryOptions) -> (r: Vec<OCDeclareArc>)
    ensures
        arc_views(r@) == discovered(log@, options@),
{
    let ghost v = log@;
    let ghost o = options@;
    let act_ob = get_activity_object_involvements(log);
    let ob_ob = get_object_to_object_involvements(log);
    let ob_ob_rev = get_rev_object_to_object_involvements(log);
    let names = log.event_types();
    let count: usize = names.len();
    let mut r: Vec<OCDeclareArc> = Vec::new();
    let mut i: usize = 0;
    assert(arc_views(r@) =~= Seq::empty());
    while i < count
        invariant
            i <= count,
            v == log@,
            o == options@,
            count == v.event_types.len(),
            text_views(names@) == v.event_types,
            is_involvement_table(v, Relation::EventObjects, act_ob@),
            is_involvement_table(v, Relation::ObjectLinks, ob_ob@),
            is_involvement_table(v, Relation::ObjectLinksReversed, ob_ob_rev@),
            arc_views(r@) == all_arcs(v, o, i as nat),
        decreases count - i,
    {
        let ghost start = arc_views(r@);
        let mut j: usize = 0;
        assert(start + row_arcs(v, o, i as int, 0) =~= start);
        while j < count
            invariant
                j <= count,
                i < count,
                v == log@,
                o == options@,
                count == v.event_types.len(),
                text_views(names@) == v.event_types,
                is_involvement_table(v, Relation::EventObjects, act_ob@),
                is_involvement_table(v, Relation::ObjectLinks, ob_ob@),
                is_involvement_table(v, Relation::ObjectLinksReversed, ob_ob_rev@),
                arc_views(r@) == start + row_arcs(v, o, i as int, j as nat),
            decreases count - j,
        {
            let from = names[i].as_str();
            let to = names[j].as_str();
            assert(text_views(names@)[i as int] == from@);
            assert(text_views(names@)[j as int] == to@);
            let ghost before = arc_views(r@);
            if !is_bookend(from) && !is_bookend(to) {
                let mut found = discover_pair(from, to, log, options, &act_ob, &ob_ob, &ob_ob_rev);
                let ghost fv = arc_views(found@);
                assert(fv == pair_arcs(v, o, from@, to@));
                r.append(&mut found);
                assert(arc_views(r@) =~= before + fv);
                assert(start + row_arcs(v, o, i as int, j as nat + 1) =~= before + fv);
            } else {
                assert(start + row_arcs(v, o, i as int, j as nat + 1) =~= before);
            }
            j += 1;
        }
        i += 1;
    }
    r
}

/// The arcs discovered on a log under the usual options for the threshold.
pub fn discover(log: &IndexedLog, noise_thresh: &NoiseThreshold) -> (r: Vec<OCDeclareArc>)
    ensures
        arc_views(r@) == discovered(log@, usual_options(noise_thresh@)),
{
    let options = OCDeclareDiscoveryOptions::new(*noise_thresh);
    discover_behavior_constraints(log, &options)
}

} // verus!
