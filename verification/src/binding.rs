//! Bindings: the concrete object sets that a label asks for at one event.

use vstd::prelude::*;
use crate::association::{assoc_views, AssociationView, ObjectTypeAssociation};
use crate::indices::{
    ascending, holds_index, indices_where, insert_ascending, lemma_is_indices_where,
    lemma_prefix_step,
};
use crate::label::{LabelView, OCDeclareArcLabel};
use crate::log::{copy_indices, well_formed, IndexedLog, LogView};
use crate::text::same_text;

verus! {

/// A condition on the set of objects of an event.
#[derive(Debug, PartialEq, Eq)]
pub enum SetFilter {
    /// One of the objects must be in the set.
    Any(Vec<usize>),
    /// Each of the objects must be in the set.
    All(Vec<usize>),
}

/// The mathematical value of a [`SetFilter`].
pub enum FilterView {
    Any(Seq<usize>),
    All(Seq<usize>),
}

impl View for SetFilter {
    type V = FilterView;

    open spec fn view(&self) -> FilterView {
        match self {
            SetFilter::Any(items) => FilterView::Any(items@),
            SetFilter::All(items) => FilterView::All(items@),
        }
    }
}

/// Whether the set `s` meets the filter.
pub open spec fn filter_holds(f: FilterView, s: Seq<usize>) -> bool {
    match f {
        FilterView::Any(items) => exists|i: int|
            0 <= i < items.len() && s.contains(#[trigger] items[i]),
        FilterView::All(items) => forall|i: int|
            0 <= i < items.len() ==> s.contains(#[trigger] items[i]),
    }
}

/// The views of a list of filters, in order.
pub open spec fn filter_views(s: Seq<SetFilter>) -> Seq<FilterView> {
    s.map_values(|f: SetFilter| f@)
}

/// The views of a list of bindings, in order.
pub open spec fn binding_views(s: Seq<Vec<SetFilter>>) -> Seq<Seq<FilterView>> {
    s.map_values(|b: Vec<SetFilter>| filter_views(b@))
}

/// The views of a list of lists of indices, in order.
pub open spec fn lists(s: Seq<Vec<usize>>) -> Seq<Seq<usize>> {
    s.map_values(|l: Vec<usize>| l@)
}

/// Whether object `p` links to object `o`, or `o` to `p` when `reversed`.
pub open spec fn hop(v: LogView, p: usize, o: usize, reversed: bool) -> bool {
    if reversed {
        v.objects[o as int].related.contains(p)
    } else {
        v.objects[p as int].related.contains(o)
    }
}

/// Whether one of the first `k` of `from`, being of type `first`, is one hop away from `o`.
pub open spec fn hop_from(
    v: LogView,
    from: Seq<usize>,
    k: int,
    first: Seq<char>,
    reversed: bool,
    o: usize,
) -> bool {
    exists|i: int|
        0 <= i < k && v.objects[(#[trigger] from[i]) as int].object_type == first && hop(
            v,
            from[i],
            o,
            reversed,
        )
}

/// Whether association `a` leads from event `e` to object `o`.
pub open spec fn reaches(v: LogView, e: int, a: AssociationView, o: usize) -> bool {
    match a {
        AssociationView::Simple { object_type } => v.events[e].objects.contains(o)
            && v.objects[o as int].object_type == object_type,
        AssociationView::O2O { first, second, reversed } => v.objects[o as int].object_type
            == second && hop_from(
            v,
            v.events[e].objects,
            v.events[e].objects.len() as int,
            first,
            reversed,
            o,
        ),
    }
}

/// The objects that association `a` leads to from event `e`, ascending.
pub open spec fn assoc_objects(v: LogView, e: int, a: AssociationView) -> Seq<usize> {
    indices_where(v.objects.len(), |o: usize| reaches(v, e, a, o))
}

/// Each of `prefixes`, in order, followed by each item of `set`, in order.
pub open spec fn extend_all(prefixes: Seq<Seq<usize>>, set: Seq<usize>) -> Seq<Seq<usize>>
    decreases prefixes.len(),
{
    if prefixes.len() == 0 {
        Seq::empty()
    } else {
        extend_all(prefixes.drop_last(), set) + set.map_values(
            |x: usize| prefixes.last().push(x),
        )
    }
}

/// The Cartesian product of `sets`: every choice of one item from each set, in
/// lexicographic order of the positions, the last set changing fastest. The product of no
/// sets is the one empty choice.
pub open spec fn product(sets: Seq<Seq<usize>>) -> Seq<Seq<usize>>
    decreases sets.len(),
{
    if sets.len() == 0 {
        seq![Seq::empty()]
    } else {
        extend_all(product(sets.drop_last()), sets.last())
    }
}

/// `x` put into `sorted` behind every list that is no longer than `x`.
pub open spec fn insert_by_size(sorted: Seq<Seq<usize>>, x: Seq<usize>) -> Seq<Seq<usize>>
    decreases sorted.len(),
{
    if sorted.len() == 0 {
        seq![x]
    } else if sorted.last().len() <= x.len() {
        sorted.push(x)
    } else {
        insert_by_size(sorted.drop_last(), x).push(sorted.last())
    }
}

/// The lists in order of ascending length; lists of one length keep their order.
pub open spec fn by_size(s: Seq<Seq<usize>>) -> Seq<Seq<usize>>
    decreases s.len(),
{
    if s.len() == 0 {
        Seq::empty()
    } else {
        insert_by_size(by_size(s.drop_last()), s.last())
    }
}

/// The object sets of the associations `s` at event `e`, in order.
pub open spec fn assoc_sets(v: LogView, e: int, s: Seq<AssociationView>) -> Seq<Seq<usize>> {
    s.map_values(|a: AssociationView| assoc_objects(v, e, a))
}

/// The binding of one choice of `each` objects: an `All` filter for every `all`
/// association, an `All` filter over the choice unless it is empty, and an `Any` filter
/// for every `any` association, the smallest object set first.
pub open spec fn binding_of(
    alls: Seq<Seq<usize>>,
    choice: Seq<usize>,
    anys: Seq<Seq<usize>>,
) -> Seq<FilterView> {
    alls.map_values(|s: Seq<usize>| FilterView::All(s)) + (if choice.len() > 0 {
        seq![FilterView::All(choice)]
    } else {
        Seq::empty()
    }) + anys.map_values(|s: Seq<usize>| FilterView::Any(s))
}

/// The bindings of label `l` at event `e`: one for each choice of one object per `each`
/// association. There is none where an `each` association leads to no object.
pub open spec fn bindings(v: LogView, e: int, l: LabelView) -> Seq<Seq<FilterView>> {
    let alls = assoc_sets(v, e, l.all);
    let anys = by_size(assoc_sets(v, e, l.any));
    product(assoc_sets(v, e, l.each)).map_values(
        |choice: Seq<usize>| binding_of(alls, choice, anys),
    )
}

/// For a label with a single direct `each` association and nothing else, the bindings of
/// an event are its related objects of that type, one binding per object.
pub proof fn lemma_single_each_bindings(v: LogView, e: int, object_type: Seq<char>)
    ensures
        ({
            let a = AssociationView::Simple { object_type };
            let l = LabelView { each: seq![a], any: Seq::empty(), all: Seq::empty() };
            bindings(v, e, l) == assoc_objects(v, e, a).map_values(
                |o: usize| seq![FilterView::All(seq![o])],
            )
        }),
{
    let a = AssociationView::Simple { object_type };
    let l = LabelView { each: seq![a], any: Seq::empty(), all: Seq::empty() };
    let objs = assoc_objects(v, e, a);
    let sets = assoc_sets(v, e, l.each);
    assert(sets =~= seq![objs]);
    assert(sets.drop_last() =~= Seq::empty());
    assert(product(sets.drop_last()) =~= seq![Seq::<usize>::empty()]) by {
        reveal_with_fuel(product, 2);
    }
    let one = seq![Seq::<usize>::empty()];
    assert(one.drop_last() =~= Seq::empty());
    assert(extend_all(one, objs) =~= objs.map_values(|x: usize| seq![x])) by {
        reveal_with_fuel(extend_all, 2);
        assert(extend_all(one.drop_last(), objs) =~= Seq::empty());
        let mapped = objs.map_values(|x: usize| one.last().push(x));
        assert forall|i: int| 0 <= i < objs.len() implies (#[trigger] mapped[i]) == seq![
            objs[i],
        ] by {
            assert(one.last().push(objs[i]) =~= seq![objs[i]]);
        }
    }
    assert(product(sets) == extend_all(product(sets.drop_last()), sets.last()));
    let alls = assoc_sets(v, e, l.all);
    let anys = by_size(assoc_sets(v, e, l.any));
    assert(alls =~= Seq::empty());
    assert(assoc_sets(v, e, l.any) =~= Seq::empty());
    assert(anys =~= Seq::empty());
    assert forall|i: int| 0 <= i < objs.len() implies binding_of(alls, seq![#[trigger] objs[i]], anys)
        == seq![FilterView::All(seq![objs[i]])] by {
        assert(binding_of(alls, seq![objs[i]], anys) =~= seq![FilterView::All(seq![objs[i]])]);
    }
    assert(bindings(v, e, l) =~= objs.map_values(|o: usize| seq![FilterView::All(seq![o])]));
}

proof fn lemma_insert_by_size(sorted: Seq<Seq<usize>>, x: Seq<usize>, j: int)
    requires
        0 <= j <= sorted.len(),
        forall|i: int| j <= i < sorted.len() ==> sorted[i].len() > x.len(),
        j > 0 ==> sorted[j - 1].len() <= x.len(),
    ensures
        insert_by_size(sorted, x) == sorted.insert(j, x),
    decreases sorted.len(),
{
    if sorted.len() == 0 {
        assert(sorted.insert(0, x) =~= seq![x]);
    } else if j == sorted.len() {
        assert(sorted.insert(j, x) =~= sorted.push(x));
    } else {
        lemma_insert_by_size(sorted.drop_last(), x, j);
        assert(sorted.insert(j, x) =~= sorted.drop_last().insert(j, x).push(sorted.last()));
    }
}

impl SetFilter {
    /// Whether the set `s` meets the filter.
    pub fn check(&self, s: &Vec<usize>) -> (r: bool)
        ensures
            r == filter_holds(self@, s@),
    {
        match self {
            SetFilter::Any(items) => {
                let mut i: usize = 0;
                while i < items.len()
                    invariant
                        i <= items.len(),
                        self@ == FilterView::Any(items@),
                        forall|j: int| 0 <= j < i ==> !s@.contains(#[trigger] items@[j]),
                    decreases items.len() - i,
                {
                    if holds_index(s, items[i]) {
                        assert(s@.contains(items@[i as int]));
                        assert(self@->Any_0 == items@);
                        return true;
                    }
                    i += 1;
                }
                assert(self@->Any_0 == items@);
                false
            },
            SetFilter::All(items) => {
                let mut i: usize = 0;
                while i < items.len()
                    invariant
                        i <= items.len(),
                        self@ == FilterView::All(items@),
                        forall|j: int| 0 <= j < i ==> s@.contains(#[trigger] items@[j]),
                    decreases items.len() - i,
                {
                    if !holds_index(s, items[i]) {
                        assert(!s@.contains(items@[i as int]));
                        assert(self@->All_0 == items@);
                        return false;
                    }
                    i += 1;
                }
                assert(self@->All_0 == items@);
                true
            },
        }
    }
}

impl Clone for SetFilter {
    fn clone(&self) -> (r: Self)
        ensures
            r@ == self@,
    {
        match self {
            SetFilter::Any(items) => SetFilter::Any(copy_indices(items)),
            SetFilter::All(items) => SetFilter::All(copy_indices(items)),
        }
    }
}

impl ObjectTypeAssociation {
    /// The objects that the association leads to from event `ev`, ascending.
    pub fn get_for_ev(&self, ev: usize, log: &IndexedLog) -> (r: Vec<usize>)
        requires
            ev < log@.events.len(),
        ensures
            r@ == assoc_objects(log@, ev as int, self@),
    {
        let ghost v = log@;
        let m: usize = log.object_count();
        let objs = &log.event(ev).objects;
        let mut r: Vec<usize> = Vec::new();
        match self {
            ObjectTypeAssociation::Simple { object_type } => {
                let mut k: usize = 0;
                while k < objs.len()
                    invariant
                        k <= objs.len(),
                        v == log@,
                        well_formed(v),
                        ev < v.events.len(),
                        objs@ == v.events[ev as int].objects,
                        ascending(r@),
                        forall|x: usize|
                            r@.contains(x) <==> objs@.subrange(0, k as int).contains(x)
                                && v.objects[x as int].object_type == object_type@,
                    decreases objs.len() - k,
                {
                    let o: usize = objs[k];
                    let ghost before = r@;
                    proof {
                        lemma_prefix_step(objs@, k as int);
                    }
                    if same_text(&log.object(o).object_type, object_type) {
                        insert_ascending(&mut r, o);
                    }
                    proof {
                        assert forall|x: usize|
                            r@.contains(x) <==> objs@.subrange(0, k as int + 1).contains(x)
                                && v.objects[x as int].object_type == object_type@ by {
                            assert(before.contains(x) <==> objs@.subrange(0, k as int).contains(x)
                                && v.objects[x as int].object_type == object_type@);
                            assert(objs@.subrange(0, k as int + 1).contains(x) <==> objs@.subrange(
                                0,
                                k as int,
                            ).contains(x) || x == o);
                        }
                    }
                    k += 1;
                }
                proof {
                    assert(objs@.subrange(0, k as int) =~= objs@);
                    let p = |o: usize| reaches(v, ev as int, self@, o);
                    assert forall|x: usize| r@.contains(x) <==> x < m && p(x) by {
                        if objs@.contains(x) {
                            let j = choose|j: int| 0 <= j < objs@.len() && objs@[j] == x;
                            assert(x < m);
                        }
                    }
                    lemma_is_indices_where(r@, m as nat, p);
                }
            },
            ObjectTypeAssociation::O2O { first, second, reversed } => {
                let mut k: usize = 0;
                while k < objs.len()
                    invariant
                        k <= objs.len(),
                        v == log@,
                        well_formed(v),
                        m == v.objects.len(),
                        ev < v.events.len(),
                        objs@ == v.events[ev as int].objects,
                        ascending(r@),
                        forall|x: usize|
                            r@.contains(x) <==> x < m && v.objects[x as int].object_type == second@
                                && hop_from(v, objs@, k as int, first@, *reversed, x),
                    decreases objs.len() - k,
                {
                    let p: usize = objs[k];
                    assert(p < m);
                    if same_text(&log.object(p).object_type, first) {
                        let list = if *reversed {
                            log.linked_from(p)
                        } else {
                            &log.object(p).related
                        };
                        proof {
                            assert forall|x: usize| list@.contains(x) <==> x < m && hop(
                                v,
                                p,
                                x,
                                *reversed,
                            ) by {
                                if !*reversed && list@.contains(x) {
                                    let j = choose|j: int| 0 <= j < list@.len() && list@[j] == x;
                                    assert(v.objects[p as int].related[j] < m);
                                }
                            }
                        }
                        let mut j: usize = 0;
                        while j < list.len()
                            invariant
                                j <= list.len(),
                                k < objs.len(),
                                p == objs@[k as int],
                                p < m,
                                v == log@,
                                m == v.objects.len(),
                                v.objects[p as int].object_type == first@,
                                forall|x: usize|
                                    list@.contains(x) <==> x < m && hop(v, p, x, *reversed),
                                ascending(r@),
                                forall|x: usize|
                                    r@.contains(x) <==> x < m && v.objects[x as int].object_type
                                        == second@ && (hop_from(
                                        v,
                                        objs@,
                                        k as int,
                                        first@,
                                        *reversed,
                                        x,
                                    ) || list@.subrange(0, j as int).contains(x)),
                            decreases list.len() - j,
                        {
                            let x: usize = list[j];
                            let ghost before = r@;
                            proof {
                                lemma_prefix_step(list@, j as int);
                                assert(list@.contains(x));
                            }
                            if same_text(&log.object(x).object_type, second) {
                                insert_ascending(&mut r, x);
                            }
                            proof {
                                assert forall|y: usize|
                                    r@.contains(y) <==> y < m && v.objects[y as int].object_type
                                        == second@ && (hop_from(
                                        v,
                                        objs@,
                                        k as int,
                                        first@,
                                        *reversed,
                                        y,
                                    ) || list@.subrange(0, j as int + 1).contains(y)) by {
                                    assert(before.contains(y) <==> y < m
                                        && v.objects[y as int].object_type == second@ && (hop_from(
                                        v,
                                        objs@,
                                        k as int,
                                        first@,
                                        *reversed,
                                        y,
                                    ) || list@.subrange(0, j as int).contains(y)));
                                    assert(list@.subrange(0, j as int + 1).contains(y)
                                        <==> list@.subrange(0, j as int).contains(y) || y == x);
                                }
                            }
                            j += 1;
                        }
                        proof {
                            assert(list@.subrange(0, j as int) =~= list@);
                            assert forall|x: usize|
                                hop_from(v, objs@, k as int + 1, first@, *reversed, x)
                                    <==> hop_from(v, objs@, k as int, first@, *reversed, x) || (x < m
                                    && list@.contains(x)) || (x >= m && hop(
                                    v,
                                    p,
                                    x,
                                    *reversed,
                                )) by {
                                if hop_from(v, objs@, k as int + 1, first@, *reversed, x) {
                                    let i = choose|i: int|
                                        0 <= i < k + 1 && v.objects[(#[trigger] objs@[i]) as int].object_type
                                            == first@ && hop(v, objs@[i], x, *reversed);
                                    if i < k {
                                        assert(hop_from(v, objs@, k as int, first@, *reversed, x));
                                    }
                                }
                                if hop_from(v, objs@, k as int, first@, *reversed, x) {
                                    let i = choose|i: int|
                                        0 <= i < k && v.objects[(#[trigger] objs@[i]) as int].object_type
                                            == first@ && hop(v, objs@[i], x, *reversed);
                                    assert(hop_from(v, objs@, k as int + 1, first@, *reversed, x));
                                }
                                if hop(v, p, x, *reversed) {
                                    assert(objs@[k as int] == p);
                                    assert(hop_from(v, objs@, k as int + 1, first@, *reversed, x));
                                }
                            }
                        }
                    } else {
                        proof {
                            assert forall|x: usize|
                                hop_from(v, objs@, k as int + 1, first@, *reversed, x)
                                    <==> hop_from(v, objs@, k as int, first@, *reversed, x) by {
                                if hop_from(v, objs@, k as int + 1, first@, *reversed, x) {
                                    let i = choose|i: int|
                                        0 <= i < k + 1 && v.objects[(#[trigger] objs@[i]) as int].object_type
                                            == first@ && hop(v, objs@[i], x, *reversed);
                                    assert(i < k);
                                    assert(hop_from(v, objs@, k as int, first@, *reversed, x));
                                }
                                if hop_from(v, objs@, k as int, first@, *reversed, x) {
                                    let i = choose|i: int|
                                        0 <= i < k && v.objects[(#[trigger] objs@[i]) as int].object_type
                                            == first@ && hop(v, objs@[i], x, *reversed);
                                    assert(hop_from(v, objs@, k as int + 1, first@, *reversed, x));
                                }
                            }
                        }
                    }
                    k += 1;
                }
                proof {
                    let p = |o: usize| reaches(v, ev as int, self@, o);
                    assert forall|x: usize| r@.contains(x) <==> x < m && p(x) by {}
                    lemma_is_indices_where(r@, m as nat, p);
                }
            },
        }
        r
    }
}

/// The object sets of the associations at event `ev`, in order.
fn sets_for(list: &Vec<ObjectTypeAssociation>, ev: usize, log: &IndexedLog) -> (r: Vec<Vec<usize>>)
    requires
        ev < log@.events.len(),
    ensures
        lists(r@) == assoc_sets(log@, ev as int, assoc_views(list@)),
{
    let mut r: Vec<Vec<usize>> = Vec::new();
    let mut i: usize = 0;
    while i < list.len()
        invariant
            i <= list.len(),
            ev < log@.events.len(),
            r@.len() == i,
            forall|j: int| 0 <= j < i ==> (#[trigger] r@[j])@ == assoc_objects(
                log@,
                ev as int,
                list@[j]@,
            ),
        decreases list.len() - i,
    {
        r.push(list[i].get_for_ev(ev, log));
        i += 1;
    }
    assert(lists(r@) =~= assoc_sets(log@, ev as int, assoc_views(list@)));
    r
}

/// The Cartesian product of `sets`.
pub fn cartesian_product(sets: &Vec<Vec<usize>>) -> (r: Vec<Vec<usize>>)
    ensures
        lists(r@) == product(lists(sets@)),
{
    let ghost all = lists(sets@);
    let mut acc: Vec<Vec<usize>> = Vec::new();
    acc.push(Vec::new());
    let mut s: usize = 0;
    assert(all.subrange(0, 0) =~= Seq::empty());
    assert(lists(acc@) =~= seq![Seq::<usize>::empty()]);
    while s < sets.len()
        invariant
            s <= sets.len(),
            all == lists(sets@),
            lists(acc@) == product(all.subrange(0, s as int)),
        decreases sets.len() - s,
    {
        let set = &sets[s];
        let ghost prefixes = lists(acc@);
        let mut next: Vec<Vec<usize>> = Vec::new();
        let mut p: usize = 0;
        assert(prefixes.subrange(0, 0) =~= Seq::empty());
        assert(lists(next@) =~= Seq::empty());
        while p < acc.len()
            invariant
                p <= acc.len(),
                prefixes == lists(acc@),
                lists(next@) == extend_all(prefixes.subrange(0, p as int), set@),
            decreases acc.len() - p,
        {
            let ghost done = lists(next@);
            let ghost prefix = acc@[p as int]@;
            let mut x: usize = 0;
            while x < set.len()
                invariant
                    x <= set.len(),
                    p < acc.len(),
                    prefix == acc@[p as int]@,
                    lists(next@) =~= done + set@.subrange(0, x as int).map_values(
                        |y: usize| prefix.push(y),
                    ),
                decreases set.len() - x,
            {
                let ghost before = lists(next@);
                let mut t = copy_indices(&acc[p]);
                t.push(set[x]);
                proof {
                    lemma_prefix_step(set@, x as int);
                    assert(t@ == prefix.push(set@[x as int]));
                }
                next.push(t);
                proof {
                    assert(lists(next@) =~= before.push(prefix.push(set@[x as int])));
                    assert(set@.subrange(0, x as int + 1).map_values(|y: usize| prefix.push(y))
                        =~= set@.subrange(0, x as int).map_values(|y: usize| prefix.push(y)).push(
                        prefix.push(set@[x as int]),
                    ));
                }
                x += 1;
            }
            proof {
                assert(set@.subrange(0, x as int) =~= set@);
                let q = prefixes.subrange(0, p as int + 1);
                assert(q.drop_last() =~= prefixes.subrange(0, p as int));
                assert(q.last() == prefix);
                assert(lists(next@) =~= extend_all(q, set@));
            }
            p += 1;
        }
        proof {
            assert(prefixes.subrange(0, p as int) =~= prefixes);
            let q = all.subrange(0, s as int + 1);
            assert(q.drop_last() =~= all.subrange(0, s as int));
            assert(q.last() == set@);
        }
        acc = next;
        s += 1;
    }
    assert(all.subrange(0, s as int) =~= all);
    acc
}

/// The lists in order of ascending length; lists of one length keep their order.
pub fn sort_by_size(sets: &Vec<Vec<usize>>) -> (r: Vec<Vec<usize>>)
    ensures
        lists(r@) == by_size(lists(sets@)),
{
    let ghost all = lists(sets@);
    let mut r: Vec<Vec<usize>> = Vec::new();
    let mut i: usize = 0;
    assert(all.subrange(0, 0) =~= Seq::empty());
    assert(lists(r@) =~= Seq::empty());
    while i < sets.len()
        invariant
            i <= sets.len(),
            all == lists(sets@),
            lists(r@) == by_size(all.subrange(0, i as int)),
        decreases sets.len() - i,
    {
        let x = copy_indices(&sets[i]);
        let ghost sorted = lists(r@);
        let mut j: usize = r.len();
        while j > 0 && r[j - 1].len() > x.len()
            invariant
                j <= r.len(),
                sorted == lists(r@),
                forall|k: int| j <= k < sorted.len() ==> sorted[k].len() > x@.len(),
            decreases j,
        {
            j -= 1;
        }
        proof {
            lemma_insert_by_size(sorted, x@, j as int);
            let q = all.subrange(0, i as int + 1);
            assert(q.drop_last() =~= all.subrange(0, i as int));
            assert(q.last() == x@);
        }
        r.insert(j, x);
        assert(lists(r@) =~= sorted.insert(j as int, x@));
        i += 1;
    }
    assert(all.subrange(0, i as int) =~= all);
    r
}

impl OCDeclareArcLabel {
    /// The bindings of the label at event `ev`.
    pub fn get_bindings(&self, ev: usize, log: &IndexedLog) -> (r: Vec<Vec<SetFilter>>)
        requires
            ev < log@.events.len(),
        ensures
            binding_views(r@) == bindings(log@, ev as int, self@),
    {
        let each_sets = sets_for(&self.each, ev, log);
        let all_sets = sets_for(&self.all, ev, log);
        let any_sets = sets_for(&self.any, ev, log);
        let any_sorted = sort_by_size(&any_sets);
        let choices = cartesian_product(&each_sets);
        let ghost alls = lists(all_sets@);
        let ghost anys = lists(any_sorted@);
        let mut r: Vec<Vec<SetFilter>> = Vec::new();
        let mut c: usize = 0;
        while c < choices.len()
            invariant
                c <= choices.len(),
                alls == lists(all_sets@),
                anys == lists(any_sorted@),
                r@.len() == c,
                forall|i: int| 0 <= i < c ==> filter_views((#[trigger] r@[i])@) == binding_of(
                    alls,
                    choices@[i]@,
                    anys,
                ),
            decreases choices.len() - c,
        {
            let choice = &choices[c];
            let mut b: Vec<SetFilter> = Vec::new();
            let mut i: usize = 0;
            while i < all_sets.len()
                invariant
                    i <= all_sets.len(),
                    alls == lists(all_sets@),
                    b@.len() == i,
                    forall|j: int| 0 <= j < i ==> (#[trigger] b@[j])@ == FilterView::All(alls[j]),
                decreases all_sets.len() - i,
            {
                b.push(SetFilter::All(copy_indices(&all_sets[i])));
                i += 1;
            }
            if choice.len() > 0 {
                b.push(SetFilter::All(copy_indices(choice)));
            }
            let ghost head = filter_views(b@);
            let ghost base = b@.len();
            let mut i: usize = 0;
            while i < any_sorted.len()
                invariant
                    i <= any_sorted.len(),
                    anys == lists(any_sorted@),
                    base <= b@.len(),
                    b@.len() == base + i,
                    filter_views(b@).subrange(0, base as int) == head,
                    forall|j: int|
                        0 <= j < i ==> (#[trigger] b@[base + j])@ == FilterView::Any(anys[j]),
                decreases any_sorted.len() - i,
            {
                let ghost before = filter_views(b@);
                b.push(SetFilter::Any(copy_indices(&any_sorted[i])));
                assert(filter_views(b@).subrange(0, base as int) =~= before.subrange(
                    0,
                    base as int,
                ));
                i += 1;
            }
            assert(filter_views(b@) =~= binding_of(alls, choice@, anys)) by {
                let fv = filter_views(b@);
                assert(fv.len() == base + anys.len());
                assert forall|j: int| 0 <= j < base implies fv[j] == head[j] by {
                    assert(fv.subrange(0, base as int)[j] == fv[j]);
                }
                assert forall|j: int| base <= j < fv.len() implies fv[j] == FilterView::Any(
                    anys[j - base],
                ) by {
                    assert(b@[base + (j - base)]@ == FilterView::Any(anys[j - base]));
                }
                assert(head =~= alls.map_values(|s: Seq<usize>| FilterView::All(s)) + (
                if choice@.len() > 0 {
                    seq![FilterView::All(choice@)]
                } else {
                    Seq::empty()
                }));
                assert(filter_views(b@) =~= head + anys.map_values(
                    |s: Seq<usize>| FilterView::Any(s),
                ));
            }
            r.push(b);
            c += 1;
        }
        assert(binding_views(r@) =~= bindings(log@, ev as int, self@));
        r
    }
}

} // verus!

