//! The indexed event log: events in their total order, objects, and the links between them.

use vstd::prelude::*;
use vstd::string::*;
use crate::indices::{
    ascending, indices_where, insert_ascending, is_ascending_below, lemma_is_indices_where,
    reverse_index,
};
use crate::text::{same_str, same_text};

verus! {

/// An event: its identifier, its activity and the objects it is related to, as ascending
/// object indices.
#[derive(Debug, PartialEq, Eq)]
pub struct LogEvent {
    pub id: String,
    pub activity: String,
    pub objects: Vec<usize>,
}

/// An object: its identifier, its type and the objects it links to, as ascending object
/// indices.
#[derive(Debug, PartialEq, Eq)]
pub struct LogObject {
    pub id: String,
    pub object_type: String,
    pub related: Vec<usize>,
}

/// The mathematical value of a [`LogEvent`].
pub struct EventView {
    pub id: Seq<char>,
    pub activity: Seq<char>,
    pub objects: Seq<usize>,
}

/// The mathematical value of a [`LogObject`].
pub struct ObjectView {
    pub id: Seq<char>,
    pub object_type: Seq<char>,
    pub related: Seq<usize>,
}

impl View for LogEvent {
    type V = EventView;

    open spec fn view(&self) -> EventView {
        EventView { id: self.id@, activity: self.activity@, objects: self.objects@ }
    }
}

impl View for LogObject {
    type V = ObjectView;

    open spec fn view(&self) -> ObjectView {
        ObjectView { id: self.id@, object_type: self.object_type@, related: self.related@ }
    }
}

/// The mathematical value of a log: the declared activities and object types, the events
/// in their total order and the objects. An event or object is named by its position.
pub struct LogView {
    pub event_types: Seq<Seq<char>>,
    pub object_types: Seq<Seq<char>>,
    pub events: Seq<EventView>,
    pub objects: Seq<ObjectView>,
}

/// The views of a list of names, in order.
pub open spec fn text_views(s: Seq<String>) -> Seq<Seq<char>> {
    s.map_values(|t: String| t@)
}

/// The log that the four lists describe.
pub open spec fn log_view(
    event_types: Seq<String>,
    object_types: Seq<String>,
    events: Seq<LogEvent>,
    objects: Seq<LogObject>,
) -> LogView {
    LogView {
        event_types: text_views(event_types),
        object_types: text_views(object_types),
        events: events.map_values(|e: LogEvent| e@),
        objects: objects.map_values(|o: LogObject| o@),
    }
}

/// A log without dangling references: no type is declared twice, every event names a
/// declared activity and every object a declared type, and every list of related
/// objects is ascending and names objects of the log.
pub open spec fn well_formed(v: LogView) -> bool {
    &&& v.events.len() <= usize::MAX
    &&& v.objects.len() <= usize::MAX
    &&& v.event_types.no_duplicates()
    &&& v.object_types.no_duplicates()
    &&& forall|e: int|
        0 <= e < v.events.len() ==> {
            &&& v.event_types.contains((#[trigger] v.events[e]).activity)
            &&& ascending(v.events[e].objects)
            &&& forall|k: int|
                0 <= k < v.events[e].objects.len() ==> v.events[e].objects[k] < v.objects.len()
        }
    &&& forall|o: int|
        0 <= o < v.objects.len() ==> {
            &&& v.object_types.contains((#[trigger] v.objects[o]).object_type)
            &&& ascending(v.objects[o].related)
            &&& forall|k: int|
                0 <= k < v.objects[o].related.len() ==> v.objects[o].related[k] < v.objects.len()
        }
}

/// The events of one activity, ascending.
pub open spec fn events_with_activity(v: LogView, activity: Seq<char>) -> Seq<usize> {
    indices_where(v.events.len(), |e: usize| v.events[e as int].activity == activity)
}

/// The objects of one type, ascending.
pub open spec fn objects_with_type(v: LogView, object_type: Seq<char>) -> Seq<usize> {
    indices_where(v.objects.len(), |o: usize| v.objects[o as int].object_type == object_type)
}

/// The position of the first name in `list` that equals `name`.
pub fn find_text(list: &Vec<String>, name: &str) -> (r: Option<usize>)
    ensures
        match r {
            Some(i) => i < list@.len() && list@[i as int]@ == name@ && forall|j: int|
                0 <= j < i ==> list@[j]@ != name@,
            None => !text_views(list@).contains(name@),
        },
{
    let mut i: usize = 0;
    while i < list.len()
        invariant
            i <= list.len(),
            forall|j: int| 0 <= j < i ==> list@[j]@ != name@,
        decreases list.len() - i,
    {
        if same_str(list[i].as_str(), name) {
            return Some(i);
        }
        i += 1;
    }
    proof {
        if text_views(list@).contains(name@) {
            let j = choose|j: int|
                0 <= j < text_views(list@).len() && text_views(list@)[j] == name@;
            assert(list@[j]@ == name@);
        }
    }
    None
}

/// Whether no name occurs twice in `list`.
pub fn distinct_texts(list: &Vec<String>) -> (r: bool)
    ensures
        r == text_views(list@).no_duplicates(),
{
    let ghost tv = text_views(list@);
    let mut i: usize = 0;
    while i < list.len()
        invariant
            i <= list.len(),
            tv == text_views(list@),
            forall|a: int, b: int| 0 <= a < b < i ==> tv[a] != tv[b],
        decreases list.len() - i,
    {
        let mut j: usize = 0;
        while j < i
            invariant
                j <= i,
                i < list.len(),
                tv == text_views(list@),
                forall|a: int| 0 <= a < j ==> tv[a] != tv[i as int],
            decreases i - j,
        {
            if same_text(&list[j], &list[i]) {
                assert(tv[j as int] == tv[i as int]);
                return false;
            }
            j += 1;
        }
        i += 1;
    }
    true
}

/// A copy of a list of names.
pub fn clone_texts(list: &Vec<String>) -> (r: Vec<String>)
    ensures
        text_views(r@) == text_views(list@),
{
    let mut r: Vec<String> = Vec::new();
    let mut i: usize = 0;
    while i < list.len()
        invariant
            i <= list.len(),
            r@.len() == i,
            forall|j: int| 0 <= j < i ==> (#[trigger] r@[j])@ == list@[j]@,
        decreases list.len() - i,
    {
        r.push(list[i].clone());
        i += 1;
    }
    assert(text_views(r@) =~= text_views(list@));
    r
}

/// A copy of a list of indices.
pub fn copy_indices(list: &Vec<usize>) -> (r: Vec<usize>)
    ensures
        r@ == list@,
{
    let mut r: Vec<usize> = Vec::new();
    let mut i: usize = 0;
    while i < list.len()
        invariant
            i <= list.len(),
            r@ == list@.subrange(0, i as int),
        decreases list.len() - i,
    {
        r.push(list[i]);
        assert(list@.subrange(0, i as int).push(list@[i as int]) =~= list@.subrange(
            0,
            i as int + 1,
        ));
        i += 1;
    }
    assert(list@.subrange(0, i as int) =~= list@);
    r
}

/// An event log with its lookups: for each object the events it takes part in, for each
/// object the objects that link to it, and for each declared activity its events.
pub struct IndexedLog {
    event_types: Vec<String>,
    object_types: Vec<String>,
    events: Vec<LogEvent>,
    objects: Vec<LogObject>,
    object_events: Vec<Vec<usize>>,
    related_rev: Vec<Vec<usize>>,
    activity_events: Vec<Vec<usize>>,
}

impl View for IndexedLog {
    type V = LogView;

    closed spec fn view(&self) -> LogView {
        log_view(self.event_types@, self.object_types@, self.events@, self.objects@)
    }
}

impl IndexedLog {
    #[verifier::type_invariant]
    spec fn inv(self) -> bool {
        &&& well_formed(self@)
        &&& self.object_events@.len() == self.objects@.len()
        &&& self.related_rev@.len() == self.objects@.len()
        &&& self.activity_events@.len() == self.event_types@.len()
        &&& forall|o: int|
            0 <= o < self.objects@.len() ==> ascending(#[trigger] self.object_events@[o]@)
                && forall|x: usize|
                self.object_events@[o]@.contains(x) <==> x < self.events@.len()
                    && self.events@[x as int].objects@.contains(o as usize)
        &&& forall|o: int|
            0 <= o < self.objects@.len() ==> ascending(#[trigger] self.related_rev@[o]@)
                && forall|x: usize|
                self.related_rev@[o]@.contains(x) <==> x < self.objects@.len()
                    && self.objects@[x as int].related@.contains(o as usize)
        &&& forall|t: int|
            0 <= t < self.event_types@.len() ==> ascending(#[trigger] self.activity_events@[t]@)
                && forall|x: usize|
                self.activity_events@[t]@.contains(x) <==> x < self.events@.len()
                    && self.events@[x as int].activity@ == self.event_types@[t]@
    }

    /// Builds the log and its lookups from the declared types, the events in their total
    /// order and the objects. There is no log where a reference dangles.
    pub fn new(
        event_types: Vec<String>,
        object_types: Vec<String>,
        events: Vec<LogEvent>,
        objects: Vec<LogObject>,
    ) -> (r: Option<IndexedLog>)
        ensures
            r is Some <==> well_formed(log_view(event_types@, object_types@, events@, objects@)),
            r is Some ==> r->0@ == log_view(event_types@, object_types@, events@, objects@),
    {
        let ghost v = log_view(event_types@, object_types@, events@, objects@);
        if !distinct_texts(&event_types) || !distinct_texts(&object_types) {
            return None;
        }
        let n: usize = events.len();
        let m: usize = objects.len();
        let mut e2o: Vec<Vec<usize>> = Vec::new();
        let mut e2t: Vec<Vec<usize>> = Vec::new();
        let mut e: usize = 0;
        while e < n
            invariant
                e <= n,
                n == events@.len(),
                m == objects@.len(),
                v == log_view(event_types@, object_types@, events@, objects@),
                e2o@.len() == e,
                e2t@.len() == e,
                forall|i: int|
                    0 <= i < e ==> {
                        &&& v.event_types.contains((#[trigger] v.events[i]).activity)
                        &&& ascending(v.events[i].objects)
                        &&& forall|k: int|
                            0 <= k < v.events[i].objects.len() ==> v.events[i].objects[k] < m
                    },
                forall|i: int| 0 <= i < e ==> (#[trigger] e2o@[i])@ == events@[i].objects@,
                forall|i: int|
                    0 <= i < e ==> (#[trigger] e2t@[i])@.len() == 1 && e2t@[i]@[0]
                        < event_types@.len() && event_types@[e2t@[i]@[0] as int]@
                        == events@[i].activity@,
            decreases n - e,
        {
            let ev = &events[e];
            assert(v.events[e as int] == ev@);
            if !is_ascending_below(&ev.objects, m) {
                return None;
            }
            match find_text(&event_types, ev.activity.as_str()) {
                None => {
                    return None;
                },
                Some(t) => {
                    assert(v.event_types[t as int] == ev.activity@);
                    e2o.push(copy_indices(&ev.objects));
                    let mut one: Vec<usize> = Vec::new();
                    one.push(t);
                    e2t.push(one);
                },
            }
            e += 1;
        }
        let mut o2o: Vec<Vec<usize>> = Vec::new();
        let mut o: usize = 0;
        while o < m
            invariant
                o <= m,
                m == objects@.len(),
                v == log_view(event_types@, object_types@, events@, objects@),
                o2o@.len() == o,
                n == events@.len(),
                e2o@.len() == n,
                e2t@.len() == n,
                forall|i: int|
                    0 <= i < n ==> {
                        &&& v.event_types.contains((#[trigger] v.events[i]).activity)
                        &&& ascending(v.events[i].objects)
                        &&& forall|k: int|
                            0 <= k < v.events[i].objects.len() ==> v.events[i].objects[k] < m
                    },
                forall|i: int| 0 <= i < n ==> (#[trigger] e2o@[i])@ == events@[i].objects@,
                forall|i: int|
                    0 <= i < n ==> (#[trigger] e2t@[i])@.len() == 1 && e2t@[i]@[0]
                        < event_types@.len() && event_types@[e2t@[i]@[0] as int]@
                        == events@[i].activity@,
                forall|i: int|
                    0 <= i < o ==> {
                        &&& v.object_types.contains((#[trigger] v.objects[i]).object_type)
                        &&& ascending(v.objects[i].related)
                        &&& forall|k: int|
                            0 <= k < v.objects[i].related.len() ==> v.objects[i].related[k] < m
                    },
                forall|i: int| 0 <= i < o ==> (#[trigger] o2o@[i])@ == objects@[i].related@,
            decreases m - o,
        {
            let ob = &objects[o];
            assert(v.objects[o as int] == ob@);
            if !is_ascending_below(&ob.related, m) {
                return None;
            }
            match find_text(&object_types, ob.object_type.as_str()) {
                None => {
                    return None;
                },
                Some(t) => {
                    assert(v.object_types[t as int] == ob.object_type@);
                },
            }
            o2o.push(copy_indices(&ob.related));
            o += 1;
        }
        assert(well_formed(v));
        proof {
            assert forall|i: int| 0 <= i < e2o@.len() implies ascending(#[trigger] e2o@[i]@)
                && forall|k: int| 0 <= k < e2o@[i]@.len() ==> e2o@[i]@[k] < m by {
                assert(e2o@[i]@ == v.events[i].objects);
            }
            assert forall|i: int| 0 <= i < o2o@.len() implies ascending(#[trigger] o2o@[i]@)
                && forall|k: int| 0 <= k < o2o@[i]@.len() ==> o2o@[i]@[k] < m by {
                assert(o2o@[i]@ == v.objects[i].related);
            }
            assert forall|i: int| 0 <= i < e2t@.len() implies ascending(#[trigger] e2t@[i]@)
                && forall|k: int| 0 <= k < e2t@[i]@.len() ==> e2t@[i]@[k] < event_types@.len() by {
                assert(e2t@[i]@.len() == 1);
            }
        }
        let object_events = reverse_index(&e2o, m);
        let related_rev = reverse_index(&o2o, m);
        let activity_events = reverse_index(&e2t, event_types.len());
        proof {
            assert forall|t: int| 0 <= t < event_types@.len() implies ascending(
                #[trigger] activity_events@[t]@,
            ) && forall|x: usize|
                activity_events@[t]@.contains(x) <==> x < events@.len() && events@[x as int].activity@
                    == event_types@[t]@ by {
                assert forall|x: usize|
                    activity_events@[t]@.contains(x) <==> x < events@.len()
                        && events@[x as int].activity@ == event_types@[t]@ by {
                    if x < events@.len() {
                        let one = e2t@[x as int]@;
                        let ti = one[0];
                        assert(one.len() == 1);
                        if one.contains(t as usize) {
                            let j = choose|j: int| 0 <= j < one.len() && one[j] == t as usize;
                            assert(ti == t);
                        }
                        if events@[x as int].activity@ == event_types@[t]@ {
                            assert(v.event_types[ti as int] == v.event_types[t]);
                            assert(ti == t);
                            assert(one[0] == t as usize);
                        }
                    }
                }
            }
            assert forall|o: int| 0 <= o < objects@.len() implies ascending(
                #[trigger] object_events@[o]@,
            ) && forall|x: usize|
                object_events@[o]@.contains(x) <==> x < events@.len()
                    && events@[x as int].objects@.contains(o as usize) by {
                assert(ascending(object_events@[o]@));
            }
            assert forall|o: int| 0 <= o < objects@.len() implies ascending(
                #[trigger] related_rev@[o]@,
            ) && forall|x: usize|
                related_rev@[o]@.contains(x) <==> x < objects@.len()
                    && objects@[x as int].related@.contains(o as usize) by {
                assert(ascending(related_rev@[o]@));
            }
        }
        Some(
            IndexedLog {
                event_types,
                object_types,
                events,
                objects,
                object_events,
                related_rev,
                activity_events,
            },
        )
    }

    /// The number of events.
    pub fn event_count(&self) -> (r: usize)
        ensures
            r == self@.events.len(),
            well_formed(self@),
    {
        proof {
            use_type_invariant(self);
        }
        self.events.len()
    }

    /// The number of objects.
    pub fn object_count(&self) -> (r: usize)
        ensures
            r == self@.objects.len(),
            well_formed(self@),
    {
        proof {
            use_type_invariant(self);
        }
        self.objects.len()
    }

    /// The declared activities.
    pub fn event_types(&self) -> (r: &Vec<String>)
        ensures
            text_views(r@) == self@.event_types,
    {
        &self.event_types
    }

    /// The declared object types.
    pub fn object_types(&self) -> (r: &Vec<String>)
        ensures
            text_views(r@) == self@.object_types,
    {
        &self.object_types
    }

    /// The event at position `e`.
    pub fn event(&self, e: usize) -> (r: &LogEvent)
        requires
            e < self@.events.len(),
        ensures
            r@ == self@.events[e as int],
    {
        &self.events[e]
    }

    /// The object at position `o`.
    pub fn object(&self, o: usize) -> (r: &LogObject)
        requires
            o < self@.objects.len(),
        ensures
            r@ == self@.objects[o as int],
    {
        &self.objects[o]
    }

    /// The events that object `o` takes part in, ascending.
    pub fn object_events(&self, o: usize) -> (r: &Vec<usize>)
        requires
            o < self@.objects.len(),
        ensures
            ascending(r@),
            forall|x: usize|
                r@.contains(x) <==> x < self@.events.len() && self@.events[x as int].objects.contains(
                    o,
                ),
    {
        proof {
            use_type_invariant(self);
            assert(ascending(self.object_events@[o as int]@));
        }
        &self.object_events[o]
    }

    /// The objects that link to object `o`, ascending.
    pub fn linked_from(&self, o: usize) -> (r: &Vec<usize>)
        requires
            o < self@.objects.len(),
        ensures
            ascending(r@),
            forall|x: usize|
                r@.contains(x) <==> x < self@.objects.len() && self@.objects[x as int].related.contains(
                    o,
                ),
    {
        proof {
            use_type_invariant(self);
            assert(ascending(self.related_rev@[o as int]@));
        }
        &self.related_rev[o]
    }

    /// The objects of `object_type`, ascending.
    pub fn objects_of(&self, object_type: &str) -> (r: Vec<usize>)
        ensures
            r@ == objects_with_type(self@, object_type@),
            well_formed(self@),
    {
        proof {
            use_type_invariant(self);
        }
        let ghost v = self@;
        let ghost p = |o: usize| v.objects[o as int].object_type == object_type@;
        let m: usize = self.objects.len();
        let mut r: Vec<usize> = Vec::new();
        let mut o: usize = 0;
        while o < m
            invariant
                o <= m,
                m == self.objects@.len(),
                v == self@,
                m == v.objects.len(),
                forall|x: usize|
                    x < m ==> v.objects[x as int].object_type == self.objects@[x as int].object_type@,
                ascending(r@),
                forall|x: usize|
                    r@.contains(x) <==> x < o && v.objects[x as int].object_type == object_type@,
            decreases m - o,
        {
            let ghost before = r@;
            if same_str(self.objects[o].object_type.as_str(), object_type) {
                insert_ascending(&mut r, o);
            }
            proof {
                assert forall|x: usize|
                    r@.contains(x) <==> x < o + 1 && v.objects[x as int].object_type
                        == object_type@ by {
                    assert(before.contains(x) <==> x < o && v.objects[x as int].object_type
                        == object_type@);
                }
            }
            o += 1;
        }
        proof {
            assert forall|x: usize| r@.contains(x) <==> x < m && p(x) by {}
            lemma_is_indices_where(r@, m as nat, p);
        }
        r
    }

    /// The events of `activity`, ascending.
    pub fn events_of(&self, activity: &str) -> (r: Vec<usize>)
        ensures
            r@ == events_with_activity(self@, activity@),
            well_formed(self@),
    {
        proof {
            use_type_invariant(self);
        }
        let ghost v = self@;
        let ghost p = |e: usize| v.events[e as int].activity == activity@;
        match find_text(&self.event_types, activity) {
            Some(t) => {
                let r = copy_indices(&self.activity_events[t]);
                proof {
                    assert(ascending(self.activity_events@[t as int]@));
                    assert forall|x: usize| r@.contains(x) <==> x < v.events.len() && p(x) by {
                        if x < v.events.len() {
                            assert(v.events[x as int].activity == self.events@[x as int].activity@);
                        }
                    }
                    lemma_is_indices_where(r@, v.events.len(), p);
                }
                r
            },
            None => {
                let r: Vec<usize> = Vec::new();
                proof {
                    assert forall|x: usize| r@.contains(x) <==> x < v.events.len() && p(x) by {
                        if x < v.events.len() && p(x) {
                            assert(v.event_types.contains(v.events[x as int].activity));
                        }
                    }
                    lemma_is_indices_where(r@, v.events.len(), p);
                }
                r
            },
        }
    }
}

} // verus!
