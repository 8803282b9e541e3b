//! Reduction: dropping the arcs that a chain of two other arcs implies.

use vstd::prelude::*;
use vstd::string::*;
use crate::arc::{arc_views, ArcView, OCDeclareArc, OCDeclareArcType};
use crate::label::{contains_assoc, dominated_by, LabelView, OCDeclareArcLabel};
use crate::perf::{holds_within, ThresholdView};
use crate::log::LogView;
use crate::seqs::{lemma_filter_empty, lemma_filter_members, lemma_filter_push};
use crate::text::same_text;

pub use crate::prefilter::oc_pn_prefilter;

verus! {

/// Whether none of the `any` items of `c` is an `any` item of `side`.
pub open spec fn any_apart(c: LabelView, side: LabelView) -> bool {
    forall|i: int| 0 <= i < c.any.len() ==> !side.any.contains(#[trigger] c.any[i])
}

/// Whether the arcs `a` and `b` form a chain that implies arc `c`: `a` leads from the
/// source of `c` to another activity, `b` from there on to the target of `c`, all three
/// are of one arc type, the label of `c` is dominated by both labels, and no `any` item
/// of `c` is an `any` item of the second arc (for eventually-follows arcs) or of the
/// first arc (for the other arc types).
pub open spec fn chain_implies(a: ArcView, b: ArcView, c: ArcView) -> bool {
    &&& a.from != a.to
    &&& b.from == a.to
    &&& a.from != b.to
    &&& a.arc_type == b.arc_type
    &&& c.from == a.from
    &&& c.to == b.to
    &&& c.arc_type == a.arc_type
    &&& dominated_by(c.label, a.label)
    &&& dominated_by(c.label, b.label)
    &&& any_apart(
        c.label,
        if c.arc_type == OCDeclareArcType::EF {
            b.label
        } else {
            a.label
        },
    )
}

/// Whether some chain of two of `arcs` implies `c`.
pub open spec fn implied(arcs: Seq<ArcView>, c: ArcView) -> bool {
    exists|i: int, j: int|
        0 <= i < arcs.len() && 0 <= j < arcs.len() && chain_implies(
            #[trigger] arcs[i],
            #[trigger] arcs[j],
            c,
        )
}

/// The arcs that no chain of two of them implies, in order.
pub open spec fn reduced(arcs: Seq<ArcView>) -> Seq<ArcView> {
    arcs.filter(|c: ArcView| !implied(arcs, c))
}

/// Reduction only drops arcs: an arc that is left is one of the arcs given. So where
/// every given arc holds on a log up to a noise threshold, every arc that is left does.
pub proof fn lemma_reduction_sound(v: LogView, arcs: Seq<ArcView>, threshold: ThresholdView)
    requires
        forall|i: int|
            0 <= i < arcs.len() ==> holds_within(
                v,
                (#[trigger] arcs[i]).from,
                arcs[i].to,
                arcs[i].arc_type,
                arcs[i].counts,
                arcs[i].label,
                threshold,
            ),
    ensures
        forall|k: int|
            0 <= k < reduced(arcs).len() ==> arcs.contains(#[trigger] reduced(arcs)[k])
                && holds_within(
                v,
                reduced(arcs)[k].from,
                reduced(arcs)[k].to,
                reduced(arcs)[k].arc_type,
                reduced(arcs)[k].counts,
                reduced(arcs)[k].label,
                threshold,
            ),
{
    let p = |c: ArcView| !implied(arcs, c);
    lemma_filter_members(arcs, p);
    assert forall|k: int| 0 <= k < reduced(arcs).len() implies arcs.contains(
        #[trigger] reduced(arcs)[k],
    ) && holds_within(
        v,
        reduced(arcs)[k].from,
        reduced(arcs)[k].to,
        reduced(arcs)[k].arc_type,
        reduced(arcs)[k].counts,
        reduced(arcs)[k].label,
        threshold,
    ) by {
        let c = reduced(arcs)[k];
        assert(reduced(arcs).contains(c));
        assert(arcs.contains(c));
        let i = choose|i: int| 0 <= i < arcs.len() && arcs[i] == c;
        assert(arcs[i] == c);
    }
}

/// Whether none of the `any` items of `c` is an `any` item of `side`.
fn is_any_apart(c: &OCDeclareArcLabel, side: &OCDeclareArcLabel) -> (r: bool)
    ensures
        r == any_apart(c@, side@),
{
    let mut i: usize = 0;
    while i < c.any.len()
        invariant
            i <= c.any.len(),
            forall|j: int| 0 <= j < i ==> !side@.any.contains(#[trigger] c@.any[j]),
        decreases c.any.len() - i,
    {
        if contains_assoc(&side.any, &c.any[i]) {
            assert(side@.any.contains(c@.any[i as int]));
            return false;
        }
        i += 1;
    }
    true
}

/// Whether the arcs `a` and `b` form a chain that implies arc `c`.
pub fn is_chain(a: &OCDeclareArc, b: &OCDeclareArc, c: &OCDeclareArc) -> (r: bool)
    ensures
        r == chain_implies(a@, b@, c@),
{
    if same_text(&a.from.0, &a.to.0) || !same_text(&b.from.0, &a.to.0) || same_text(
        &a.from.0,
        &b.to.0,
    ) {
        return false;
    }
    if a.arc_type != b.arc_type || c.arc_type != a.arc_type {
        return false;
    }
    if !same_text(&c.from.0, &a.from.0) || !same_text(&c.to.0, &b.to.0) {
        return false;
    }
    if !c.label.is_dominated_by(&a.label) || !c.label.is_dominated_by(&b.label) {
        return false;
    }
    if c.arc_type == OCDeclareArcType::EF {
        is_any_apart(&c.label, &b.label)
    } else {
        is_any_apart(&c.label, &a.label)
    }
}

/// Whether some chain of two of `arcs` implies `c`.
pub fn is_implied(arcs: &Vec<OCDeclareArc>, c: &OCDeclareArc) -> (r: bool)
    ensures
        r == implied(arc_views(arcs@), c@),
{
    let ghost av = arc_views(arcs@);
    let mut i: usize = 0;
    while i < arcs.len()
        invariant
            i <= arcs.len(),
            av == arc_views(arcs@),
            forall|x: int, y: int|
                0 <= x < i && 0 <= y < av.len() ==> !chain_implies(
                    #[trigger] av[x],
                    #[trigger] av[y],
                    c@,
                ),
        decreases arcs.len() - i,
    {
        let mut j: usize = 0;
        while j < arcs.len()
            invariant
                j <= arcs.len(),
                i < arcs.len(),
                av == arc_views(arcs@),
                forall|y: int| 0 <= y < j ==> !chain_implies(av[i as int], #[trigger] av[y], c@),
            decreases arcs.len() - j,
        {
            if is_chain(&arcs[i], &arcs[j], c) {
                assert(chain_implies(av[i as int], av[j as int], c@));
                return true;
            }
            j += 1;
        }
        i += 1;
    }
    false
}

/// Drops every arc that a chain of two of the given arcs implies.
pub fn reduce_oc_arcs(arcs: Vec<OCDeclareArc>) -> (r: Vec<OCDeclareArc>)
    ensures
        arc_views(r@) == reduced(arc_views(arcs@)),
{
    let ghost av = arc_views(arcs@);
    let ghost p = |c: ArcView| !implied(av, c);
    let mut r: Vec<OCDeclareArc> = Vec::new();
    let mut k: usize = 0;
    proof {
        assert(av.subrange(0, 0) =~= Seq::empty());
        lemma_filter_empty(p);
        assert(arc_views(r@) =~= Seq::empty());
    }
    while k < arcs.len()
        invariant
            k <= arcs.len(),
            av == arc_views(arcs@),
            p == |c: ArcView| !implied(av, c),
            arc_views(r@) == av.subrange(0, k as int).filter(p),
        decreases arcs.len() - k,
    {
        let c = &arcs[k];
        let ghost before = arc_views(r@);
        proof {
            assert(av.subrange(0, k as int + 1) =~= av.subrange(0, k as int).push(c@));
            lemma_filter_push(av.subrange(0, k as int), c@, p);
        }
        if !is_implied(&arcs, c) {
            r.push(c.clone());
            assert(arc_views(r@) =~= before.push(c@));
        }
        k += 1;
    }
    assert(av.subrange(0, k as int) =~= av);
    r
}

} // verus!
