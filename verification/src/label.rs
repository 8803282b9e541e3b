//! Arc labels: which objects a constraint binds, and the lattice the labels form.

use vstd::prelude::*;
use vstd::string::*;
use crate::seqs::{lemma_filter_members, lemma_filter_push, lemma_filter_same};
use crate::association::{
    assoc_less, assoc_text, assoc_views, lemma_assoc_less_order, AssociationView,
    ObjectTypeAssociation,
};

verus! {

/// The label of a constraint: the associations that are bound one object at a time
/// (`each`), of which some object must take part (`any`), and of which all objects must
/// take part (`all`).
#[derive(Debug, PartialEq, Eq, Hash)]
pub struct OCDeclareArcLabel {
    pub each: Vec<ObjectTypeAssociation>,
    pub any: Vec<ObjectTypeAssociation>,
    pub all: Vec<ObjectTypeAssociation>,
}

/// The mathematical value of an [`OCDeclareArcLabel`].
pub struct LabelView {
    pub each: Seq<AssociationView>,
    pub any: Seq<AssociationView>,
    pub all: Seq<AssociationView>,
}

impl View for OCDeclareArcLabel {
    type V = LabelView;

    open spec fn view(&self) -> LabelView {
        LabelView {
            each: assoc_views(self.each@),
            any: assoc_views(self.any@),
            all: assoc_views(self.all@),
        }
    }
}

/// `a` asks for nothing that `b` does not ask for at least as strictly.
pub open spec fn dominated_by(a: LabelView, b: LabelView) -> bool {
    &&& forall|i: int| 0 <= i < a.all.len() ==> b.all.contains(#[trigger] a.all[i])
    &&& forall|i: int|
        0 <= i < a.each.len() ==> b.each.contains(#[trigger] a.each[i]) || b.all.contains(
            a.each[i],
        )
    &&& forall|i: int|
        0 <= i < a.any.len() ==> b.any.contains(#[trigger] a.any[i]) || b.each.contains(a.any[i])
            || b.all.contains(a.any[i])
}

/// A list in canonical form: strictly ascending, so nothing occurs twice.
pub open spec fn canonical(s: Seq<AssociationView>) -> bool {
    forall|i: int, j: int| 0 <= i < j < s.len() ==> assoc_less(s[i], s[j])
}

/// What the join of two labels must be: the union of the `all` lists; the union of the
/// `each` lists without what is in `all`; the union of the `any` lists without what is
/// in `each` or `all`; each list in canonical form.
pub open spec fn is_join(a: LabelView, b: LabelView, r: LabelView) -> bool {
    &&& canonical(r.all)
    &&& canonical(r.each)
    &&& canonical(r.any)
    &&& forall|x: AssociationView| #[trigger]
        r.all.contains(x) <==> a.all.contains(x) || b.all.contains(x)
    &&& forall|x: AssociationView| #[trigger]
        r.each.contains(x) <==> (a.each.contains(x) || b.each.contains(x)) && !r.all.contains(x)
    &&& forall|x: AssociationView| #[trigger]
        r.any.contains(x) <==> (a.any.contains(x) || b.any.contains(x)) && !r.all.contains(x)
            && !r.each.contains(x)
}

/// The meet of two labels: what of `a` is also asked for by `b`, at the strictness that both
/// reach, in the order of `a`.
pub open spec fn meet(a: LabelView, b: LabelView) -> LabelView {
    let all = a.all.filter(|x: AssociationView| b.all.contains(x));
    let each = (a.each + a.all).filter(
        |x: AssociationView| !all.contains(x) && (b.all.contains(x) || b.each.contains(x)),
    );
    let any = (a.any + a.each + a.all).filter(
        |x: AssociationView|
            !all.contains(x) && !each.contains(x) && (b.all.contains(x) || b.each.contains(x)
                || b.any.contains(x)),
    );
    LabelView { each, any, all }
}

/// Joins `parts` with `sep` between neighbours.
pub open spec fn join_texts(parts: Seq<Seq<char>>, sep: Seq<char>) -> Seq<char>
    decreases parts.len(),
{
    if parts.len() == 0 {
        Seq::empty()
    } else if parts.len() == 1 {
        parts[0]
    } else {
        join_texts(parts.drop_last(), sep) + sep + parts.last()
    }
}

/// One group of a rendered label: the keyword, and the associations in brackets.
pub open spec fn group_text(keyword: Seq<char>, items: Seq<AssociationView>) -> Seq<char> {
    keyword + seq!['('] + join_texts(
        items.map_values(|a: AssociationView| assoc_text(a)),
        seq![','],
    ) + seq![')']
}

/// The text of a label in a rendered constraint: the non-empty groups in the order
/// `Each`, `All`, `Any`. `All` follows `Each` after a separator, and `Any` always
/// follows a separator.
pub open spec fn label_text(l: LabelView) -> Seq<char> {
    let sep = seq![',', ' '];
    let each = if l.each.len() > 0 {
        group_text(seq!['E', 'a', 'c', 'h'], l.each)
    } else {
        Seq::empty()
    };
    let all = if l.all.len() > 0 {
        (if l.each.len() > 0 {
            sep
        } else {
            Seq::empty()
        }) + group_text(seq!['A', 'l', 'l'], l.all)
    } else {
        Seq::empty()
    };
    let any = if l.any.len() > 0 {
        sep + group_text(seq!['A', 'n', 'y'], l.any)
    } else {
        Seq::empty()
    };
    each + all + any
}

/// The selection behind each list of a meet: not in `e1` nor `e2`, and in one of `i1`,
/// `i2`, `i3`.
pub open spec fn keeps(
    e1: Seq<AssociationView>,
    e2: Seq<AssociationView>,
    i1: Seq<AssociationView>,
    i2: Seq<AssociationView>,
    i3: Seq<AssociationView>,
) -> spec_fn(AssociationView) -> bool {
    |x: AssociationView|
        !e1.contains(x) && !e2.contains(x) && (i1.contains(x) || i2.contains(x) || i3.contains(x))
}

proof fn lemma_views_push(s: Seq<ObjectTypeAssociation>, x: ObjectTypeAssociation)
    ensures
        assoc_views(s.push(x)) == assoc_views(s).push(x@),
{
    assert(assoc_views(s.push(x)) =~= assoc_views(s).push(x@));
}

/// A list in canonical form is determined by what it holds.
pub proof fn lemma_canonical_unique(s: Seq<AssociationView>, t: Seq<AssociationView>)
    requires
        canonical(s),
        canonical(t),
        forall|x: AssociationView| s.contains(x) <==> t.contains(x),
    ensures
        s == t,
    decreases s.len(),
{
    if s.len() == 0 {
        if t.len() > 0 {
            assert(t.contains(t[0]));
        }
        assert(s =~= t);
    } else {
        let a = s.last();
        assert(s.contains(a));
        assert(t.contains(a));
        assert(t.len() > 0);
        let b = t.last();
        assert(t.contains(b));
        assert(s.contains(b));
        let ia = choose|i: int| 0 <= i < t.len() && t[i] == a;
        let ib = choose|i: int| 0 <= i < s.len() && s[i] == b;
        lemma_assoc_less_order(a, b, a);
        assert(a == b);
        let s1 = s.drop_last();
        let t1 = t.drop_last();
        assert forall|x: AssociationView| s1.contains(x) <==> t1.contains(x) by {
            lemma_assoc_less_order(x, a, x);
            if s1.contains(x) {
                let i = choose|i: int| 0 <= i < s1.len() && s1[i] == x;
                assert(s[i] == x);
                assert(assoc_less(x, a));
                assert(t.contains(x));
                let j = choose|j: int| 0 <= j < t.len() && t[j] == x;
                assert(j < t.len() - 1);
                assert(t1[j] == x);
            }
            if t1.contains(x) {
                let i = choose|i: int| 0 <= i < t1.len() && t1[i] == x;
                assert(t[i] == x);
                assert(assoc_less(x, b));
                assert(s.contains(x));
                let j = choose|j: int| 0 <= j < s.len() && s[j] == x;
                assert(j < s.len() - 1);
                assert(s1[j] == x);
            }
        }
        lemma_canonical_unique(s1, t1);
        assert(s =~= s1.push(a));
        assert(t =~= t1.push(b));
    }
}

/// The join of two labels is determined by them.
pub proof fn lemma_join_unique(a: LabelView, b: LabelView, r1: LabelView, r2: LabelView)
    requires
        is_join(a, b, r1),
        is_join(a, b, r2),
    ensures
        r1 == r2,
{
    lemma_canonical_unique(r1.all, r2.all);
    lemma_canonical_unique(r1.each, r2.each);
    lemma_canonical_unique(r1.any, r2.any);
}

/// Every label is dominated by itself.
pub proof fn lemma_dominated_reflexive(a: LabelView)
    ensures
        dominated_by(a, a),
{
}

/// Domination carries over: if `a` is dominated by `b` and `b` by `c`, then `a` is
/// dominated by `c`.
pub proof fn lemma_dominated_transitive(a: LabelView, b: LabelView, c: LabelView)
    requires
        dominated_by(a, b),
        dominated_by(b, c),
    ensures
        dominated_by(a, c),
{
    assert forall|i: int| 0 <= i < a.all.len() implies c.all.contains(#[trigger] a.all[i]) by {
        let x = a.all[i];
        assert(b.all.contains(x));
        let j = choose|j: int| 0 <= j < b.all.len() && b.all[j] == x;
        assert(c.all.contains(b.all[j]));
    }
    assert forall|i: int| 0 <= i < a.each.len() implies c.each.contains(#[trigger] a.each[i])
        || c.all.contains(a.each[i]) by {
        let x = a.each[i];
        if b.each.contains(x) {
            let j = choose|j: int| 0 <= j < b.each.len() && b.each[j] == x;
            assert(c.each.contains(b.each[j]) || c.all.contains(b.each[j]));
        } else {
            let j = choose|j: int| 0 <= j < b.all.len() && b.all[j] == x;
            assert(c.all.contains(b.all[j]));
        }
    }
    assert forall|i: int| 0 <= i < a.any.len() implies c.any.contains(#[trigger] a.any[i])
        || c.each.contains(a.any[i]) || c.all.contains(a.any[i]) by {
        let x = a.any[i];
        if b.any.contains(x) {
            let j = choose|j: int| 0 <= j < b.any.len() && b.any[j] == x;
            assert(c.any.contains(b.any[j]) || c.each.contains(b.any[j]) || c.all.contains(
                b.any[j],
            ));
        } else if b.each.contains(x) {
            let j = choose|j: int| 0 <= j < b.each.len() && b.each[j] == x;
            assert(c.each.contains(b.each[j]) || c.all.contains(b.each[j]));
        } else {
            let j = choose|j: int| 0 <= j < b.all.len() && b.all[j] == x;
            assert(c.all.contains(b.all[j]));
        }
    }
}

/// The join of two labels dominates both of them.
pub proof fn lemma_join_dominates(a: LabelView, b: LabelView, r: LabelView)
    requires
        is_join(a, b, r),
    ensures
        dominated_by(a, r),
        dominated_by(b, r),
{
    assert forall|i: int| 0 <= i < a.all.len() implies r.all.contains(#[trigger] a.all[i]) by {
        assert(a.all.contains(a.all[i]));
    }
    assert forall|i: int| 0 <= i < b.all.len() implies r.all.contains(#[trigger] b.all[i]) by {
        assert(b.all.contains(b.all[i]));
    }
    assert forall|i: int| 0 <= i < a.each.len() implies r.each.contains(#[trigger] a.each[i])
        || r.all.contains(a.each[i]) by {
        assert(a.each.contains(a.each[i]));
    }
    assert forall|i: int| 0 <= i < b.each.len() implies r.each.contains(#[trigger] b.each[i])
        || r.all.contains(b.each[i]) by {
        assert(b.each.contains(b.each[i]));
    }
    assert forall|i: int| 0 <= i < a.any.len() implies r.any.contains(#[trigger] a.any[i])
        || r.each.contains(a.any[i]) || r.all.contains(a.any[i]) by {
        assert(a.any.contains(a.any[i]));
    }
    assert forall|i: int| 0 <= i < b.any.len() implies r.any.contains(#[trigger] b.any[i])
        || r.each.contains(b.any[i]) || r.all.contains(b.any[i]) by {
        assert(b.any.contains(b.any[i]));
    }
}

/// The meet of two labels is dominated by both of them.
pub proof fn lemma_meet_dominated(a: LabelView, b: LabelView)
    ensures
        dominated_by(meet(a, b), a),
        dominated_by(meet(a, b), b),
{
    let m = meet(a, b);
    let keep_all = |x: AssociationView| b.all.contains(x);
    let keep_each = |x: AssociationView|
        !m.all.contains(x) && (b.all.contains(x) || b.each.contains(x));
    let keep_any = |x: AssociationView|
        !m.all.contains(x) && !m.each.contains(x) && (b.all.contains(x) || b.each.contains(x)
            || b.any.contains(x));
    lemma_filter_members(a.all, keep_all);
    lemma_filter_members(a.each + a.all, keep_each);
    lemma_filter_members(a.any + a.each + a.all, keep_any);
    assert forall|i: int| 0 <= i < m.all.len() implies a.all.contains(#[trigger] m.all[i])
        && b.all.contains(m.all[i]) by {
        assert(m.all.contains(m.all[i]));
    }
    assert forall|i: int| 0 <= i < m.each.len() implies (a.each.contains(#[trigger] m.each[i])
        || a.all.contains(m.each[i])) && (b.each.contains(m.each[i]) || b.all.contains(
        m.each[i],
    )) by {
        let x = m.each[i];
        assert(m.each.contains(x));
        let s = a.each + a.all;
        let k = choose|k: int| 0 <= k < s.len() && s[k] == x;
        if k < a.each.len() {
            assert(a.each[k] == x);
        } else {
            assert(a.all[k - a.each.len()] == x);
        }
    }
    assert forall|i: int| 0 <= i < m.any.len() implies (a.any.contains(#[trigger] m.any[i])
        || a.each.contains(m.any[i]) || a.all.contains(m.any[i])) && (b.any.contains(m.any[i])
        || b.each.contains(m.any[i]) || b.all.contains(m.any[i])) by {
        let x = m.any[i];
        assert(m.any.contains(x));
        let s = a.any + a.each + a.all;
        let k = choose|k: int| 0 <= k < s.len() && s[k] == x;
        if k < a.any.len() {
            assert(a.any[k] == x);
        } else if k < a.any.len() + a.each.len() {
            assert(a.each[k - a.any.len()] == x);
        } else {
            assert(a.all[k - a.any.len() - a.each.len()] == x);
        }
    }
}

/// Whether `list` holds `x`.
pub fn contains_assoc(list: &Vec<ObjectTypeAssociation>, x: &ObjectTypeAssociation) -> (r: bool)
    ensures
        r == assoc_views(list@).contains(x@),
{
    let mut i: usize = 0;
    while i < list.len()
        invariant
            i <= list.len(),
            forall|j: int| 0 <= j < i ==> assoc_views(list@)[j] != x@,
        decreases list.len() - i,
    {
        if list[i].same_as(x) {
            assert(assoc_views(list@)[i as int] == x@);
            return true;
        }
        i += 1;
    }
    false
}

/// Puts `x` into a list in canonical form, unless the list holds it already.
pub fn insert_canonical(list: &mut Vec<ObjectTypeAssociation>, x: ObjectTypeAssociation)
    requires
        canonical(assoc_views(old(list)@)),
    ensures
        canonical(assoc_views(final(list)@)),
        forall|y: AssociationView| #[trigger]
            assoc_views(final(list)@).contains(y) <==> assoc_views(old(list)@).contains(y) || y
                == x@,
{
    let ghost before = assoc_views(list@);
    let mut i: usize = 0;
    while i < list.len() && list[i].less_than(&x)
        invariant
            i <= list.len(),
            list@ == old(list)@,
            forall|j: int| 0 <= j < i ==> assoc_less(#[trigger] before[j], x@),
            before == assoc_views(list@),
        decreases list.len() - i,
    {
        i += 1;
    }
    if i < list.len() && list[i].same_as(&x) {
        assert(before[i as int] == x@);
        return ;
    }
    list.insert(i, x);
    proof {
        let after = assoc_views(list@);
        assert(after =~= before.insert(i as int, x@));
        assert forall|a: int, b: int| 0 <= a < b < after.len() implies assoc_less(
            after[a],
            after[b],
        ) by {
            if b == i {
                assert(after[a] == before[a]);
            } else if a == i {
                lemma_assoc_less_order(x@, before[i as int], x@);
                assert(assoc_less(x@, before[i as int]));
                if b > i + 1 {
                    lemma_assoc_less_order(x@, before[i as int], before[b - 1]);
                }
            } else {
                let a0 = if a < i { a } else { a - 1 };
                let b0 = if b < i { b } else { b - 1 };
                assert(after[a] == before[a0]);
                assert(after[b] == before[b0]);
            }
        }
        assert forall|y: AssociationView| #[trigger]
            after.contains(y) <==> before.contains(y) || y == x@ by {
            if after.contains(y) {
                let k = choose|k: int| 0 <= k < after.len() && after[k] == y;
                if k < i {
                    assert(before[k] == y);
                } else if k > i {
                    assert(before[k - 1] == y);
                }
            }
            if before.contains(y) {
                let k = choose|k: int| 0 <= k < before.len() && before[k] == y;
                if k < i {
                    assert(after[k] == y);
                } else {
                    assert(after[k + 1] == y);
                }
            }
            if y == x@ {
                assert(after[i as int] == y);
            }
        }
    }
}

/// Puts into `target`, a list in canonical form, every item of `source` that neither
/// `skip1` nor `skip2` holds.
fn gather(
    target: &mut Vec<ObjectTypeAssociation>,
    source: &Vec<ObjectTypeAssociation>,
    skip1: &Vec<ObjectTypeAssociation>,
    skip2: &Vec<ObjectTypeAssociation>,
)
    requires
        canonical(assoc_views(old(target)@)),
    ensures
        canonical(assoc_views(final(target)@)),
        forall|y: AssociationView| #[trigger]
            assoc_views(final(target)@).contains(y) <==> assoc_views(old(target)@).contains(y) || (
            assoc_views(source@).contains(y) && !assoc_views(skip1@).contains(y) && !assoc_views(
                skip2@,
            ).contains(y)),
{
    let ghost src = assoc_views(source@);
    let mut i: usize = 0;
    while i < source.len()
        invariant
            i <= source.len(),
            src == assoc_views(source@),
            canonical(assoc_views(target@)),
            forall|y: AssociationView| #[trigger]
                assoc_views(target@).contains(y) <==> assoc_views(old(target)@).contains(y) || (
                src.subrange(0, i as int).contains(y) && !assoc_views(skip1@).contains(y)
                    && !assoc_views(skip2@).contains(y)),
        decreases source.len() - i,
    {
        let x = &source[i];
        let ghost prev = assoc_views(target@);
        if !contains_assoc(skip1, x) && !contains_assoc(skip2, x) {
            insert_canonical(target, x.clone());
        }
        proof {
            assert(src.subrange(0, i as int + 1) =~= src.subrange(0, i as int).push(x@));
            assert forall|y: AssociationView|
                src.subrange(0, i as int + 1).contains(y) <==> src.subrange(0, i as int).contains(
                    y,
                ) || y == x@ by {
                let s0 = src.subrange(0, i as int);
                let s1 = src.subrange(0, i as int + 1);
                if s1.contains(y) {
                    let k = choose|k: int| 0 <= k < s1.len() && s1[k] == y;
                    if k < i {
                        assert(s0[k] == y);
                    }
                }
                if s0.contains(y) {
                    let k = choose|k: int| 0 <= k < s0.len() && s0[k] == y;
                    assert(s1[k] == y);
                }
                if y == x@ {
                    assert(s1[i as int] == y);
                }
            }
            assert(assoc_views(skip1@).contains(x@) || assoc_views(skip2@).contains(x@)
                ==> assoc_views(target@) == prev);
            assert forall|y: AssociationView| #[trigger]
                assoc_views(target@).contains(y) <==> assoc_views(old(target)@).contains(y) || (
                src.subrange(0, i as int + 1).contains(y) && !assoc_views(skip1@).contains(y)
                    && !assoc_views(skip2@).contains(y)) by {
                assert(prev.contains(y) <==> assoc_views(old(target)@).contains(y) || (
                src.subrange(0, i as int).contains(y) && !assoc_views(skip1@).contains(y)
                    && !assoc_views(skip2@).contains(y)));
            }
        }
        i += 1;
    }
    assert(src.subrange(0, i as int) =~= src);
}

/// The items of `source`, in order, that neither `e1` nor `e2` holds and that one of
/// `i1`, `i2`, `i3` holds.
fn select(
    source: &Vec<ObjectTypeAssociation>,
    e1: &Vec<ObjectTypeAssociation>,
    e2: &Vec<ObjectTypeAssociation>,
    i1: &Vec<ObjectTypeAssociation>,
    i2: &Vec<ObjectTypeAssociation>,
    i3: &Vec<ObjectTypeAssociation>,
    out: &mut Vec<ObjectTypeAssociation>,
    Ghost(done): Ghost<Seq<AssociationView>>,
)
    requires
        assoc_views(old(out)@) == done.filter(
            keeps(
                assoc_views(e1@),
                assoc_views(e2@),
                assoc_views(i1@),
                assoc_views(i2@),
                assoc_views(i3@),
            ),
        ),
    ensures
        assoc_views(final(out)@) == (done + assoc_views(source@)).filter(
            keeps(
                assoc_views(e1@),
                assoc_views(e2@),
                assoc_views(i1@),
                assoc_views(i2@),
                assoc_views(i3@),
            ),
        ),
{
    let ghost p = keeps(
        assoc_views(e1@),
        assoc_views(e2@),
        assoc_views(i1@),
        assoc_views(i2@),
        assoc_views(i3@),
    );
    let ghost src = assoc_views(source@);
    let mut k: usize = 0;
    assert(done + src.subrange(0, 0) =~= done);
    while k < source.len()
        invariant
            k <= source.len(),
            src == assoc_views(source@),
            p == keeps(
                assoc_views(e1@),
                assoc_views(e2@),
                assoc_views(i1@),
                assoc_views(i2@),
                assoc_views(i3@),
            ),
            assoc_views(out@) == (done + src.subrange(0, k as int)).filter(p),
        decreases source.len() - k,
    {
        let x = &source[k];
        let keep = !contains_assoc(e1, x) && !contains_assoc(e2, x) && (contains_assoc(i1, x)
            || contains_assoc(i2, x) || contains_assoc(i3, x));
        proof {
            let sofar = done + src.subrange(0, k as int);
            assert(done + src.subrange(0, k as int + 1) =~= sofar.push(x@));
            lemma_filter_push(sofar, x@, p);
            assert(keep == p(x@));
        }
        if keep {
            proof {
                lemma_views_push(out@, *x);
            }
            let c = x.clone();
            proof {
                lemma_views_push(out@, c);
            }
            out.push(c);
        }
        k += 1;
    }
    assert(src.subrange(0, k as int) =~= src);
}

impl Clone for OCDeclareArcLabel {
    fn clone(&self) -> (r: Self)
        ensures
            r@ == self@,
    {
        OCDeclareArcLabel {
            each: clone_assocs(&self.each),
            any: clone_assocs(&self.any),
            all: clone_assocs(&self.all),
        }
    }
}

/// A copy of a list of associations.
pub fn clone_assocs(list: &Vec<ObjectTypeAssociation>) -> (r: Vec<ObjectTypeAssociation>)
    ensures
        assoc_views(r@) == assoc_views(list@),
{
    let mut r: Vec<ObjectTypeAssociation> = Vec::new();
    let mut i: usize = 0;
    while i < list.len()
        invariant
            i <= list.len(),
            r@.len() == i,
            forall|j: int| 0 <= j < i ==> r@[j]@ == list@[j]@,
        decreases list.len() - i,
    {
        r.push(list[i].clone());
        i += 1;
    }
    assert(assoc_views(r@) =~= assoc_views(list@));
    r
}

/// The views of a list of labels, in order.
pub open spec fn label_views(s: Seq<OCDeclareArcLabel>) -> Seq<LabelView> {
    s.map_values(|l: OCDeclareArcLabel| l@)
}

/// The number of associations in a label.
pub open spec fn label_size(l: LabelView) -> nat {
    l.each.len() + l.any.len() + l.all.len()
}

/// The join of two labels.
pub open spec fn join(a: LabelView, b: LabelView) -> LabelView {
    choose|r: LabelView| is_join(a, b, r)
}

/// The label that binds the association one object at a time.
pub open spec fn each_label(a: AssociationView) -> LabelView {
    LabelView { each: seq![a], any: Seq::empty(), all: Seq::empty() }
}

/// The label that binds all objects of the association at once.
pub open spec fn all_label(a: AssociationView) -> LabelView {
    LabelView { each: Seq::empty(), any: Seq::empty(), all: seq![a] }
}

/// Whether the two lists hold the same associations in the same order.
pub fn same_assocs(x: &Vec<ObjectTypeAssociation>, y: &Vec<ObjectTypeAssociation>) -> (r: bool)
    ensures
        r == (assoc_views(x@) == assoc_views(y@)),
{
    if x.len() != y.len() {
        assert(assoc_views(x@).len() != assoc_views(y@).len());
        return false;
    }
    let mut i: usize = 0;
    while i < x.len()
        invariant
            i <= x.len(),
            x.len() == y.len(),
            forall|j: int| 0 <= j < i ==> assoc_views(x@)[j] == assoc_views(y@)[j],
        decreases x.len() - i,
    {
        if !x[i].same_as(&y[i]) {
            assert(assoc_views(x@)[i as int] != assoc_views(y@)[i as int]);
            return false;
        }
        i += 1;
    }
    assert(assoc_views(x@) =~= assoc_views(y@));
    true
}

/// Whether `list` holds the label `x`.
pub fn holds_label(list: &Vec<OCDeclareArcLabel>, x: &OCDeclareArcLabel) -> (r: bool)
    ensures
        r == label_views(list@).contains(x@),
{
    let mut i: usize = 0;
    while i < list.len()
        invariant
            i <= list.len(),
            forall|j: int| 0 <= j < i ==> label_views(list@)[j] != x@,
        decreases list.len() - i,
    {
        if list[i].same_label(x) {
            assert(label_views(list@)[i as int] == x@);
            return true;
        }
        i += 1;
    }
    false
}

impl OCDeclareArcLabel {
    /// The label that binds the association one object at a time.
    pub fn each_of(a: &ObjectTypeAssociation) -> (r: Self)
        ensures
            r@ == each_label(a@),
    {
        let mut each: Vec<ObjectTypeAssociation> = Vec::new();
        each.push(a.clone());
        let r = OCDeclareArcLabel { each, any: Vec::new(), all: Vec::new() };
        assert(r@.each =~= seq![a@]);
        assert(r@.any =~= Seq::empty());
        assert(r@.all =~= Seq::empty());
        r
    }

    /// The label that binds all objects of the association at once.
    pub fn all_of(a: &ObjectTypeAssociation) -> (r: Self)
        ensures
            r@ == all_label(a@),
    {
        let mut all: Vec<ObjectTypeAssociation> = Vec::new();
        all.push(a.clone());
        let r = OCDeclareArcLabel { each: Vec::new(), any: Vec::new(), all };
        assert(r@.all =~= seq![a@]);
        assert(r@.any =~= Seq::empty());
        assert(r@.each =~= Seq::empty());
        r
    }

    /// The number of associations in the label.
    pub fn size(&self) -> (r: u128)
        ensures
            r == label_size(self@),
    {
        (self.each.len() as u128) + (self.any.len() as u128) + (self.all.len() as u128)
    }

    /// Whether the two labels are the same.
    pub fn same_label(&self, other: &Self) -> (r: bool)
        ensures
            r == (self@ == other@),
    {
        same_assocs(&self.each, &other.each) && same_assocs(&self.any, &other.any) && same_assocs(
            &self.all,
            &other.all,
        )
    }

    /// The join of two labels.
    pub fn join_with(&self, other: &Self) -> (r: Self)
        ensures
            r@ == join(self@, other@),
    {
        let r = self.combine(other);
        proof {
            lemma_join_unique(self@, other@, r@, join(self@, other@));
        }
        r
    }

    /// Whether this label is dominated by `other`: every `all` item is in `other`'s `all`,
    /// every `each` item in its `each` or `all`, every `any` item in any of its lists.
    pub fn is_dominated_by(&self, other: &Self) -> (r: bool)
        ensures
            r == dominated_by(self@, other@),
    {
        let mut i: usize = 0;
        while i < self.all.len()
            invariant
                i <= self.all.len(),
                forall|j: int| 0 <= j < i ==> other@.all.contains(#[trigger] self@.all[j]),
            decreases self.all.len() - i,
        {
            if !contains_assoc(&other.all, &self.all[i]) {
                assert(!other@.all.contains(self@.all[i as int]));
                return false;
            }
            i += 1;
        }
        let mut i: usize = 0;
        while i < self.each.len()
            invariant
                i <= self.each.len(),
                forall|j: int|
                    0 <= j < i ==> other@.each.contains(#[trigger] self@.each[j])
                        || other@.all.contains(self@.each[j]),
            decreases self.each.len() - i,
        {
            let x = &self.each[i];
            if !contains_assoc(&other.each, x) && !contains_assoc(&other.all, x) {
                assert(!other@.each.contains(self@.each[i as int]));
                return false;
            }
            i += 1;
        }
        let mut i: usize = 0;
        while i < self.any.len()
            invariant
                i <= self.any.len(),
                forall|j: int|
                    0 <= j < i ==> other@.any.contains(#[trigger] self@.any[j])
                        || other@.each.contains(self@.any[j]) || other@.all.contains(
                        self@.any[j],
                    ),
            decreases self.any.len() - i,
        {
            let x = &self.any[i];
            if !contains_assoc(&other.any, x) && !contains_assoc(&other.each, x) && !contains_assoc(
                &other.all,
                x,
            ) {
                assert(!other@.any.contains(self@.any[i as int]));
                return false;
            }
            i += 1;
        }
        true
    }

    /// The join of two labels.
    pub fn combine(&self, other: &Self) -> (r: Self)
        ensures
            is_join(self@, other@, r@),
    {
        let none: Vec<ObjectTypeAssociation> = Vec::new();
        let mut all: Vec<ObjectTypeAssociation> = Vec::new();
        assert(assoc_views(none@) =~= Seq::empty());
        assert(assoc_views(all@) =~= Seq::empty());
        gather(&mut all, &self.all, &none, &none);
        gather(&mut all, &other.all, &none, &none);
        let mut each: Vec<ObjectTypeAssociation> = Vec::new();
        assert(assoc_views(each@) =~= Seq::empty());
        gather(&mut each, &self.each, &all, &none);
        gather(&mut each, &other.each, &all, &none);
        let mut any: Vec<ObjectTypeAssociation> = Vec::new();
        assert(assoc_views(any@) =~= Seq::empty());
        gather(&mut any, &self.any, &all, &each);
        gather(&mut any, &other.any, &all, &each);
        OCDeclareArcLabel { each, any, all }
    }

    /// The meet of two labels.
    pub fn intersect(&self, other: &Self) -> (r: Self)
        ensures
            r@ == meet(self@, other@),
    {
        let none: Vec<ObjectTypeAssociation> = Vec::new();
        let ghost e = Seq::<AssociationView>::empty();
        assert(assoc_views(none@) =~= e);
        let ghost a = self@;
        let ghost b = other@;
        let mut all: Vec<ObjectTypeAssociation> = Vec::new();
        proof {
            assert(assoc_views(all@) =~= e);
            assert(e.filter(keeps(e, e, b.all, e, e)) =~= e) by {
                reveal(Seq::filter);
            }
        }
        select(&self.all, &none, &none, &other.all, &none, &none, &mut all, Ghost(e));
        proof {
            assert(e + a.all =~= a.all);
            lemma_filter_same(
                a.all,
                keeps(e, e, b.all, e, e),
                |x: AssociationView| b.all.contains(x),
            );
        }
        let ghost va = assoc_views(all@);
        let mut each: Vec<ObjectTypeAssociation> = Vec::new();
        proof {
            assert(assoc_views(each@) =~= e);
            assert(e.filter(keeps(va, e, b.all, b.each, e)) =~= e) by {
                reveal(Seq::filter);
            }
        }
        select(&self.each, &all, &none, &other.all, &other.each, &none, &mut each, Ghost(e));
        proof {
            assert(e + a.each =~= a.each);
        }
        select(&self.all, &all, &none, &other.all, &other.each, &none, &mut each, Ghost(a.each));
        proof {
            lemma_filter_same(
                a.each + a.all,
                keeps(va, e, b.all, b.each, e),
                |x: AssociationView| !va.contains(x) && (b.all.contains(x) || b.each.contains(x)),
            );
        }
        let ghost ve = assoc_views(each@);
        let mut any: Vec<ObjectTypeAssociation> = Vec::new();
        proof {
            assert(assoc_views(any@) =~= e);
            assert(e.filter(keeps(va, ve, b.all, b.each, b.any)) =~= e) by {
                reveal(Seq::filter);
            }
        }
        select(&self.any, &all, &each, &other.all, &other.each, &other.any, &mut any, Ghost(e));
        proof {
            assert(e + a.any =~= a.any);
        }
        select(
            &self.each,
            &all,
            &each,
            &other.all,
            &other.each,
            &other.any,
            &mut any,
            Ghost(a.any),
        );
        select(
            &self.all,
            &all,
            &each,
            &other.all,
            &other.each,
            &other.any,
            &mut any,
            Ghost(a.any + a.each),
        );
        proof {
            lemma_filter_same(
                a.any + a.each + a.all,
                keeps(va, ve, b.all, b.each, b.any),
                |x: AssociationView|
                    !va.contains(x) && !ve.contains(x) && (b.all.contains(x) || b.each.contains(x)
                        || b.any.contains(x)),
            );
        }
        OCDeclareArcLabel { each, any, all }
    }
}

} // verus!
