//! Involvement: how many objects of each type the events of an activity, or the objects
//! of a type, are related to.

use vstd::prelude::*;
use crate::indices::{count_in, indices_where, lemma_indices_where, lemma_is_indices_where};
use crate::log::{
    events_with_activity, objects_with_type, text_views, well_formed, IndexedLog, LogView,
};
use crate::text::same_str;

verus! {

/// The least and the greatest number of objects of one type that one source is related
/// to, over the sources that are related to any. Where no source is related to any,
/// `min` is `usize::MAX` and `max` is 0.
#[derive(Debug, Clone, Copy, PartialEq, Eq, Structural)]
pub struct ObjectInvolvementCounts {
    pub min: usize,
    pub max: usize,
}

impl Default for ObjectInvolvementCounts {
    fn default() -> (r: Self)
        ensures
            r.min == usize::MAX,
            r.max == 0,
    {
        ObjectInvolvementCounts { min: usize::MAX, max: 0 }
    }
}

/// The relation that involvement is counted along.
#[derive(Debug, Clone, Copy, PartialEq, Eq, Structural)]
pub enum Relation {
    /// From the events of an activity to their objects.
    EventObjects,
    /// From the objects of a type to the objects they link to.
    ObjectLinks,
    /// From the objects of a type to the objects that link to them.
    ObjectLinksReversed,
}

/// The names that the sources of a relation are grouped by: the declared activities, or
/// the declared object types.
pub open spec fn row_names(v: LogView, rel: Relation) -> Seq<Seq<char>> {
    match rel {
        Relation::EventObjects => v.event_types,
        _ => v.object_types,
    }
}

/// The sources of one group: the events of the activity, or the objects of the type.
pub open spec fn rows_of(v: LogView, rel: Relation, name: Seq<char>) -> Seq<usize> {
    match rel {
        Relation::EventObjects => events_with_activity(v, name),
        _ => objects_with_type(v, name),
    }
}

/// The objects that source `i` is related to.
pub open spec fn row_objects(v: LogView, rel: Relation, i: usize) -> Seq<usize> {
    match rel {
        Relation::EventObjects => v.events[i as int].objects,
        Relation::ObjectLinks => v.objects[i as int].related,
        Relation::ObjectLinksReversed => indices_where(
            v.objects.len(),
            |p: usize| v.objects[p as int].related.contains(i),
        ),
    }
}

/// The number of objects of type `u` among `objs`.
pub open spec fn typed_count(v: LogView, objs: Seq<usize>, u: Seq<char>) -> nat {
    count_in(objs, |o: usize| v.objects[o as int].object_type == u)
}

/// The greatest number of objects of type `u` that one of `rows` is related to.
pub open spec fn max_count(v: LogView, rel: Relation, rows: Seq<usize>, u: Seq<char>) -> nat
    decreases rows.len(),
{
    if rows.len() == 0 {
        0
    } else {
        let rest = max_count(v, rel, rows.drop_last(), u);
        let c = typed_count(v, row_objects(v, rel, rows.last()), u);
        if c > rest {
            c
        } else {
            rest
        }
    }
}

/// The least number of objects of type `u` that one of `rows` is related to, over those
/// related to any; `usize::MAX` where there is none.
pub open spec fn min_count(v: LogView, rel: Relation, rows: Seq<usize>, u: Seq<char>) -> nat
    decreases rows.len(),
{
    if rows.len() == 0 {
        usize::MAX as nat
    } else {
        let rest = min_count(v, rel, rows.drop_last(), u);
        let c = typed_count(v, row_objects(v, rel, rows.last()), u);
        if 1 <= c < rest {
            c
        } else {
            rest
        }
    }
}

/// Whether the table holds, for each group of the relation and each declared object
/// type, the least and the greatest involvement.
pub open spec fn is_involvement_table(
    v: LogView,
    rel: Relation,
    table: Seq<Vec<ObjectInvolvementCounts>>,
) -> bool {
    &&& table.len() == row_names(v, rel).len()
    &&& forall|t: int|
        0 <= t < table.len() ==> (#[trigger] table[t])@.len() == v.object_types.len()
    &&& forall|t: int, u: int|
        0 <= t < table.len() && 0 <= u < v.object_types.len() ==> {
            &&& (#[trigger] table[t]@[u]).max == max_count(
                v,
                rel,
                rows_of(v, rel, row_names(v, rel)[t]),
                v.object_types[u],
            )
            &&& table[t]@[u].min == min_count(
                v,
                rel,
                rows_of(v, rel, row_names(v, rel)[t]),
                v.object_types[u],
            )
        }
}

/// The number of objects of type `u` among `objs`.
pub fn count_typed(log: &IndexedLog, objs: &Vec<usize>, u: &str) -> (r: usize)
    requires
        forall|i: int| 0 <= i < objs@.len() ==> objs@[i] < log@.objects.len(),
    ensures
        r == typed_count(log@, objs@, u@),
{
    let ghost v = log@;
    let ghost q = |o: usize| v.objects[o as int].object_type == u@;
    let mut c: usize = 0;
    let mut i: usize = 0;
    assert(objs@.subrange(0, 0) =~= Seq::empty());
    while i < objs.len()
        invariant
            i <= objs.len(),
            v == log@,
            q == |o: usize| v.objects[o as int].object_type == u@,
            forall|i: int| 0 <= i < objs@.len() ==> objs@[i] < v.objects.len(),
            c <= i,
            c == count_in(objs@.subrange(0, i as int), q),
        decreases objs.len() - i,
    {
        proof {
            assert(objs@.subrange(0, i as int + 1).drop_last() =~= objs@.subrange(0, i as int));
            assert(objs@.subrange(0, i as int + 1).last() == objs@[i as int]);
        }
        if same_str(log.object(objs[i]).object_type.as_str(), u) {
            c += 1;
        }
        i += 1;
    }
    assert(objs@.subrange(0, i as int) =~= objs@);
    c
}

/// The number of objects of type `u` that source `i` of the relation is related to.
fn row_typed_count(log: &IndexedLog, rel: Relation, i: usize, u: &str) -> (r: usize)
    requires
        match rel {
            Relation::EventObjects => i < log@.events.len(),
            _ => i < log@.objects.len(),
        },
    ensures
        r == typed_count(log@, row_objects(log@, rel, i), u@),
{
    let ghost v = log@;
    let m: usize = log.object_count();
    match rel {
        Relation::EventObjects => count_typed(log, &log.event(i).objects, u),
        Relation::ObjectLinks => count_typed(log, &log.object(i).related, u),
        Relation::ObjectLinksReversed => {
            let list = log.linked_from(i);
            proof {
                lemma_is_indices_where(
                    list@,
                    m as nat,
                    |p: usize| v.objects[p as int].related.contains(i),
                );
                assert forall|k: int| 0 <= k < list@.len() implies list@[k] < m by {
                    assert(list@.contains(list@[k]));
                }
            }
            count_typed(log, list, u)
        },
    }
}

/// The least and the greatest number of objects of type `ty` that one of `rows` is
/// related to along the relation.
pub fn involvement_entry(log: &IndexedLog, rel: Relation, rows: &Vec<usize>, ty: &str) -> (c:
    ObjectInvolvementCounts)
    requires
        forall|i: int|
            0 <= i < rows@.len() ==> match rel {
                Relation::EventObjects => rows@[i] < log@.events.len(),
                _ => rows@[i] < log@.objects.len(),
            },
    ensures
        c.max == max_count(log@, rel, rows@, ty@),
        c.min == min_count(log@, rel, rows@, ty@),
{
    let ghost v = log@;
    let mut c = ObjectInvolvementCounts::default();
    let mut i: usize = 0;
    assert(rows@.subrange(0, 0) =~= Seq::empty());
    while i < rows.len()
        invariant
            i <= rows.len(),
            v == log@,
            forall|i: int|
                0 <= i < rows@.len() ==> match rel {
                    Relation::EventObjects => rows@[i] < v.events.len(),
                    _ => rows@[i] < v.objects.len(),
                },
            c.max == max_count(v, rel, rows@.subrange(0, i as int), ty@),
            c.min == min_count(v, rel, rows@.subrange(0, i as int), ty@),
        decreases rows.len() - i,
    {
        proof {
            assert(rows@.subrange(0, i as int + 1).drop_last() =~= rows@.subrange(0, i as int));
            assert(rows@.subrange(0, i as int + 1).last() == rows@[i as int]);
        }
        let count = row_typed_count(log, rel, rows[i], ty);
        if count > c.max {
            c.max = count;
        }
        if count >= 1 && count < c.min {
            c.min = count;
        }
        i += 1;
    }
    assert(rows@.subrange(0, i as int) =~= rows@);
    c
}

/// The involvement table of a relation: a row for each group, in the order of the
/// declared names, and in each row an entry for each declared object type.
pub fn involvements(log: &IndexedLog, rel: Relation) -> (r: Vec<Vec<ObjectInvolvementCounts>>)
    ensures
        is_involvement_table(log@, rel, r@),
{
    let ghost v = log@;
    let n: usize = log.event_count();
    let m: usize = log.object_count();
    let names = match rel {
        Relation::EventObjects => log.event_types(),
        _ => log.object_types(),
    };
    let types = log.object_types();
    let mut r: Vec<Vec<ObjectInvolvementCounts>> = Vec::new();
    let mut t: usize = 0;
    while t < names.len()
        invariant
            t <= names.len(),
            v == log@,
            well_formed(v),
            n == v.events.len(),
            m == v.objects.len(),
            text_views(names@) == row_names(v, rel),
            text_views(types@) == v.object_types,
            r@.len() == t,
            forall|a: int| 0 <= a < t ==> (#[trigger] r@[a])@.len() == v.object_types.len(),
            forall|a: int, u: int|
                0 <= a < t && 0 <= u < v.object_types.len() ==> {
                    &&& (#[trigger] r@[a]@[u]).max == max_count(
                        v,
                        rel,
                        rows_of(v, rel, row_names(v, rel)[a]),
                        v.object_types[u],
                    )
                    &&& r@[a]@[u].min == min_count(
                        v,
                        rel,
                        rows_of(v, rel, row_names(v, rel)[a]),
                        v.object_types[u],
                    )
                },
        decreases names.len() - t,
    {
        let name = names[t].as_str();
        assert(text_views(names@)[t as int] == name@);
        let rows = match rel {
            Relation::EventObjects => log.events_of(name),
            _ => log.objects_of(name),
        };
        proof {
            match rel {
                Relation::EventObjects => {
                    lemma_indices_where(
                        n as nat,
                        |e: usize| v.events[e as int].activity == name@,
                    );
                },
                _ => {
                    lemma_indices_where(
                        m as nat,
                        |o: usize| v.objects[o as int].object_type == name@,
                    );
                },
            }
            assert forall|i: int| 0 <= i < rows@.len() implies match rel {
                Relation::EventObjects => rows@[i] < n,
                _ => rows@[i] < m,
            } by {
                assert(rows@.contains(rows@[i]));
            }
        }
        let mut row: Vec<ObjectInvolvementCounts> = Vec::new();
        let mut u: usize = 0;
        while u < types.len()
            invariant
                u <= types.len(),
                v == log@,
                n == v.events.len(),
                m == v.objects.len(),
                text_views(types@) == v.object_types,
                rows@ == rows_of(v, rel, name@),
                forall|i: int|
                    0 <= i < rows@.len() ==> match rel {
                        Relation::EventObjects => rows@[i] < n,
                        _ => rows@[i] < m,
                    },
                row@.len() == u,
                forall|b: int|
                    0 <= b < u ==> {
                        &&& (#[trigger] row@[b]).max == max_count(v, rel, rows@, v.object_types[b])
                        &&& row@[b].min == min_count(v, rel, rows@, v.object_types[b])
                    },
            decreases types.len() - u,
        {
            let ty = types[u].as_str();
            assert(text_views(types@)[u as int] == ty@);
            let c = involvement_entry(log, rel, &rows, ty);
            row.push(c);
            u += 1;
        }
        r.push(row);
        t += 1;
    }
    r
}

/// For each declared activity and object type, how many objects of the type an event of
/// the activity is related to.
pub fn get_activity_object_involvements(log: &IndexedLog) -> (r: Vec<
    Vec<ObjectInvolvementCounts>,
>)
    ensures
        is_involvement_table(log@, Relation::EventObjects, r@),
{
    involvements(log, Relation::EventObjects)
}

/// For each pair of declared object types, how many objects of the second type an object
/// of the first links to.
pub fn get_object_to_object_involvements(log: &IndexedLog) -> (r: Vec<
    Vec<ObjectInvolvementCounts>,
>)
    ensures
        is_involvement_table(log@, Relation::ObjectLinks, r@),
{
    involvements(log, Relation::ObjectLinks)
}

/// For each pair of declared object types, how many objects of the second type link to
/// an object of the first.
pub fn get_rev_object_to_object_involvements(log: &IndexedLog) -> (r: Vec<
    Vec<ObjectInvolvementCounts>,
>)
    ensures
        is_involvement_table(log@, Relation::ObjectLinksReversed, r@),
{
    involvements(log, Relation::ObjectLinksReversed)
}

} // verus!
