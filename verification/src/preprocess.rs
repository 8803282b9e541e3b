//! Preprocessing: giving every object a first and a last event, and putting the events
//! into their total order.

use vstd::prelude::*;
use vstd::string::*;
use crate::indices::lemma_prefix_step;
use crate::text::{exit_prefix, init_prefix};
use crate::log::{
    clone_texts, copy_indices, text_views, well_formed, EventView, IndexedLog, LogEvent,
    LogObject, LogView, ObjectView,
};

verus! {

/// An event with the time at which it occurred, in nanoseconds.
#[derive(Debug, PartialEq, Eq)]
pub struct TimedEvent {
    pub id: String,
    pub activity: String,
    pub time: i64,
    pub objects: Vec<usize>,
}

/// The mathematical value of a [`TimedEvent`].
pub struct TimedView {
    pub time: i64,
    pub event: EventView,
}

impl View for TimedEvent {
    type V = TimedView;

    open spec fn view(&self) -> TimedView {
        TimedView {
            time: self.time,
            event: EventView { id: self.id@, activity: self.activity@, objects: self.objects@ },
        }
    }
}

/// The views of a list of timed events, in order.
pub open spec fn timed_views(s: Seq<TimedEvent>) -> Seq<TimedView> {
    s.map_values(|e: TimedEvent| e@)
}

/// The earlier of a time, if any, and `t`.
pub open spec fn earlier(r: Option<i64>, t: i64) -> Option<i64> {
    match r {
        Some(x) => if x <= t {
            Some(x)
        } else {
            Some(t)
        },
        None => Some(t),
    }
}

/// The later of a time, if any, and `t`.
pub open spec fn later(r: Option<i64>, t: i64) -> Option<i64> {
    match r {
        Some(x) => if x >= t {
            Some(x)
        } else {
            Some(t)
        },
        None => Some(t),
    }
}

/// The earliest time among the first `k` events that object `o` takes part in.
pub open spec fn first_time(evs: Seq<TimedView>, o: usize, k: nat) -> Option<i64>
    decreases k,
{
    if k == 0 {
        None
    } else {
        let r = first_time(evs, o, (k - 1) as nat);
        if evs[k - 1].event.objects.contains(o) {
            earlier(r, evs[k - 1].time)
        } else {
            r
        }
    }
}

/// The latest time among the first `k` events that object `o` takes part in.
pub open spec fn last_time(evs: Seq<TimedView>, o: usize, k: nat) -> Option<i64>
    decreases k,
{
    if k == 0 {
        None
    } else {
        let r = last_time(evs, o, (k - 1) as nat);
        if evs[k - 1].event.objects.contains(o) {
            later(r, evs[k - 1].time)
        } else {
            r
        }
    }
}

/// The time of the first event of an object: one nanosecond before its earliest event,
/// as far as times reach; one nanosecond before time 0 for an object without events.
pub open spec fn init_time(first: Option<i64>) -> i64 {
    match first {
        Some(t) => if t > i64::MIN {
            (t - 1) as i64
        } else {
            i64::MIN
        },
        None => -1i64,
    }
}

/// The time of the last event of an object: one nanosecond after its latest event, as
/// far as times reach; one nanosecond after time 0 for an object without events.
pub open spec fn exit_time(last: Option<i64>) -> i64 {
    match last {
        Some(t) => if t < i64::MAX {
            (t + 1) as i64
        } else {
            i64::MAX
        },
        None => 1i64,
    }
}

/// The bookend of object `o` with the given prefix and time: its activity is the prefix,
/// a blank and the object's type; its identifier the prefix, the type and the object's
/// identifier with `_` in between; its one object is `o`.
pub open spec fn bookend_event(prefix: Seq<char>, ob: ObjectView, o: usize, time: i64) -> TimedView {
    TimedView {
        time,
        event: EventView {
            id: prefix + seq!['_'] + ob.object_type + seq!['_'] + ob.id,
            activity: prefix + seq![' '] + ob.object_type,
            objects: seq![o],
        },
    }
}

/// The bookends of the first `k` objects: for each object its first and its last event.
pub open spec fn bookends(evs: Seq<TimedView>, objects: Seq<ObjectView>, k: nat) -> Seq<TimedView>
    decreases k,
{
    if k == 0 {
        Seq::empty()
    } else {
        let o = (k - 1) as usize;
        bookends(evs, objects, (k - 1) as nat).push(
            bookend_event(
                init_prefix(),
                objects[k - 1],
                o,
                init_time(first_time(evs, o, evs.len())),
            ),
        ).push(
            bookend_event(
                exit_prefix(),
                objects[k - 1],
                o,
                exit_time(last_time(evs, o, evs.len())),
            ),
        )
    }
}

/// The activities of the bookends of the first `k` object types.
pub open spec fn bookend_types(object_types: Seq<Seq<char>>, k: nat) -> Seq<Seq<char>>
    decreases k,
{
    if k == 0 {
        Seq::empty()
    } else {
        bookend_types(object_types, (k - 1) as nat).push(
            init_prefix() + seq![' '] + object_types[k - 1],
        ).push(exit_prefix() + seq![' '] + object_types[k - 1])
    }
}

/// `x` put into `sorted` behind every event that is no later than `x`.
pub open spec fn insert_by_time(sorted: Seq<TimedView>, x: TimedView) -> Seq<TimedView>
    decreases sorted.len(),
{
    if sorted.len() == 0 {
        seq![x]
    } else if sorted.last().time <= x.time {
        sorted.push(x)
    } else {
        insert_by_time(sorted.drop_last(), x).push(sorted.last())
    }
}

/// The events in the order of their times; events of one time keep their order.
pub open spec fn by_time(s: Seq<TimedView>) -> Seq<TimedView>
    decreases s.len(),
{
    if s.len() == 0 {
        Seq::empty()
    } else {
        insert_by_time(by_time(s.drop_last()), s.last())
    }
}

/// The log of the events with their bookends: the declared activities and those of the
/// bookends of every object type, and the events and the bookends of every object in
/// the order of their times.
pub open spec fn preprocessed(
    event_types: Seq<Seq<char>>,
    object_types: Seq<Seq<char>>,
    events: Seq<TimedView>,
    objects: Seq<ObjectView>,
) -> LogView {
    LogView {
        event_types: event_types + bookend_types(object_types, object_types.len()),
        object_types,
        events: by_time(events + bookends(events, objects, objects.len())).map_values(
            |e: TimedView| e.event,
        ),
        objects,
    }
}

/// Whether the two lists hold the times and the events of `order`, in order.
pub open spec fn in_order(times: Seq<i64>, sorted: Seq<LogEvent>, order: Seq<TimedView>) -> bool {
    &&& times.len() == order.len()
    &&& sorted.len() == order.len()
    &&& forall|i: int| 0 <= i < order.len() ==> #[trigger] times[i] == order[i].time
    &&& forall|i: int| 0 <= i < order.len() ==> (#[trigger] sorted[i])@ == order[i].event
}

proof fn lemma_insert_by_time(sorted: Seq<TimedView>, x: TimedView, j: int)
    requires
        0 <= j <= sorted.len(),
        forall|i: int| j <= i < sorted.len() ==> sorted[i].time > x.time,
        j > 0 ==> sorted[j - 1].time <= x.time,
    ensures
        insert_by_time(sorted, x) == sorted.insert(j, x),
    decreases sorted.len(),
{
    if sorted.len() == 0 {
        assert(sorted.insert(0, x) =~= seq![x]);
    } else if j == sorted.len() {
        assert(sorted.insert(j, x) =~= sorted.push(x));
    } else {
        lemma_insert_by_time(sorted.drop_last(), x, j);
        assert(sorted.insert(j, x) =~= sorted.drop_last().insert(j, x).push(sorted.last()));
    }
}

/// The earliest and the latest time of the events of each of `m` objects.
fn life_spans(events: &Vec<TimedEvent>, m: usize) -> (r: (Vec<Option<i64>>, Vec<Option<i64>>))
    ensures
        r.0@.len() == m,
        r.1@.len() == m,
        forall|o: int|
            0 <= o < m ==> r.0@[o] == first_time(
                timed_views(events@),
                o as usize,
                events@.len(),
            ) && r.1@[o] == last_time(timed_views(events@), o as usize, events@.len()),
{
    let ghost evs = timed_views(events@);
    let mut first: Vec<Option<i64>> = Vec::new();
    let mut last: Vec<Option<i64>> = Vec::new();
    let mut o: usize = 0;
    while o < m
        invariant
            o <= m,
            first@.len() == o,
            last@.len() == o,
            forall|i: int| 0 <= i < o ==> first@[i] is None && last@[i] is None,
        decreases m - o,
    {
        first.push(None);
        last.push(None);
        o += 1;
    }
    let mut k: usize = 0;
    while k < events.len()
        invariant
            k <= events.len(),
            evs == timed_views(events@),
            first@.len() == m,
            last@.len() == m,
            forall|o: int|
                0 <= o < m ==> first@[o] == first_time(evs, o as usize, k as nat) && last@[o]
                    == last_time(evs, o as usize, k as nat),
        decreases events.len() - k,
    {
        let ev = &events[k];
        let t: i64 = ev.time;
        assert(evs[k as int] == ev@);
        let mut j: usize = 0;
        while j < ev.objects.len()
            invariant
                j <= ev.objects.len(),
                k < events.len(),
                evs == timed_views(events@),
                evs[k as int] == ev@,
                t == ev.time,
                first@.len() == m,
                last@.len() == m,
                forall|o: int|
                    0 <= o < m ==> first@[o] == (if ev.objects@.subrange(0, j as int).contains(
                        o as usize,
                    ) {
                        earlier(first_time(evs, o as usize, k as nat), t)
                    } else {
                        first_time(evs, o as usize, k as nat)
                    }) && last@[o] == (if ev.objects@.subrange(0, j as int).contains(o as usize) {
                        later(last_time(evs, o as usize, k as nat), t)
                    } else {
                        last_time(evs, o as usize, k as nat)
                    }),
            decreases ev.objects.len() - j,
        {
            let ob: usize = ev.objects[j];
            proof {
                lemma_prefix_step(ev.objects@, j as int);
            }
            if ob < m {
                let f = match first[ob] {
                    Some(x) => if x <= t {
                        Some(x)
                    } else {
                        Some(t)
                    },
                    None => Some(t),
                };
                let l = match last[ob] {
                    Some(x) => if x >= t {
                        Some(x)
                    } else {
                        Some(t)
                    },
                    None => Some(t),
                };
                first.set(ob, f);
                last.set(ob, l);
            }
            j += 1;
        }
        assert(ev.objects@.subrange(0, j as int) =~= ev.objects@);
        k += 1;
    }
    (first, last)
}

fn bookend_of(prefix: &str, ob: &LogObject, o: usize, time: i64) -> (r: TimedEvent)
    ensures
        r@ == bookend_event(prefix@, ob@, o, time),
{
    proof {
        reveal_strlit("_");
        reveal_strlit(" ");
    }
    let mut id = String::from_str(prefix);
    id.append("_");
    id.append(ob.object_type.as_str());
    id.append("_");
    id.append(ob.id.as_str());
    let mut activity = String::from_str(prefix);
    activity.append(" ");
    activity.append(ob.object_type.as_str());
    let mut objects: Vec<usize> = Vec::new();
    objects.push(o);
    let r = TimedEvent { id, activity, time, objects };
    proof {
        let want = bookend_event(prefix@, ob@, o, time);
        assert(r@.event.id =~= want.event.id);
        assert(r@.event.activity =~= want.event.activity);
        assert(r@.event.objects =~= want.event.objects);
    }
    r
}

/// The log of the events with their bookends, if no reference in it dangles and no
/// activity is declared twice.
pub fn preprocess_ocel(
    event_types: Vec<String>,
    object_types: Vec<String>,
    events: Vec<TimedEvent>,
    objects: Vec<LogObject>,
) -> (r: Option<IndexedLog>)
    ensures
        r is Some <==> well_formed(
            preprocessed(
                text_views(event_types@),
                text_views(object_types@),
                timed_views(events@),
                objects@.map_values(|o: LogObject| o@),
            ),
        ),
        r is Some ==> r->0@ == preprocessed(
            text_views(event_types@),
            text_views(object_types@),
            timed_views(events@),
            objects@.map_values(|o: LogObject| o@),
        ),
{
    proof {
        reveal_strlit("<init>");
        reveal_strlit("<exit>");
        reveal_strlit(" ");
        assert("<init>"@ =~= init_prefix());
        assert("<exit>"@ =~= exit_prefix());
    }
    let ghost evs = timed_views(events@);
    let ghost obs = objects@.map_values(|o: LogObject| o@);
    let ghost ots = text_views(object_types@);
    let m: usize = objects.len();
    let (first, last) = life_spans(&events, m);
    // The activities: the declared ones, and the bookends of every object type.
    let mut all_types = clone_texts(&event_types);
    let ghost declared = text_views(event_types@);
    let mut u: usize = 0;
    assert(declared + bookend_types(ots, 0) =~= declared);
    while u < object_types.len()
        invariant
            u <= object_types.len(),
            ots == text_views(object_types@),
            "<init>"@ == init_prefix(),
            "<exit>"@ == exit_prefix(),
            " "@ == seq![' '],
            text_views(all_types@) == declared + bookend_types(ots, u as nat),
        decreases object_types.len() - u,
    {
        let ot = object_types[u].as_str();
        assert(ots[u as int] == ot@);
        let ghost before = text_views(all_types@);
        let mut init = String::from_str("<init>");
        init.append(" ");
        init.append(ot);
        let mut exit = String::from_str("<exit>");
        exit.append(" ");
        exit.append(ot);
        let ghost iv = init@;
        let ghost xv = exit@;
        assert(iv =~= init_prefix() + seq![' '] + ot@);
        assert(xv =~= exit_prefix() + seq![' '] + ot@);
        all_types.push(init);
        all_types.push(exit);
        assert(text_views(all_types@) =~= before.push(iv).push(xv));
        assert(declared + bookend_types(ots, u as nat + 1) =~= before.push(iv).push(xv));
        u += 1;
    }
    // The events: the given ones and then the bookends, each put in by its time.
    let mut times: Vec<i64> = Vec::new();
    let mut sorted: Vec<LogEvent> = Vec::new();
    let ghost mut done: Seq<TimedView> = Seq::empty();
    let ghost mut order: Seq<TimedView> = Seq::empty();
    let mut k: usize = 0;
    while k < events.len()
        invariant
            k <= events.len(),
            evs == timed_views(events@),
            done == evs.subrange(0, k as int),
            order == by_time(done),
            in_order(times@, sorted@, order),
        decreases events.len() - k,
    {
        let ev = &events[k];
        assert(evs[k as int] == ev@);
        let item = LogEvent {
            id: ev.id.clone(),
            activity: ev.activity.clone(),
            objects: copy_indices(&ev.objects),
        };
        proof {
            assert(evs.subrange(0, k as int + 1).drop_last() =~= done);
            assert(evs.subrange(0, k as int + 1).last() == ev@);
        }
        put_by_time(&mut times, &mut sorted, ev.time, item, Ghost(order), Ghost(ev@));
        proof {
            done = evs.subrange(0, k as int + 1);
            order = by_time(done);
        }
        k += 1;
    }
    assert(done =~= evs);
    let mut o: usize = 0;
    assert(evs + bookends(evs, obs, 0) =~= evs);
    while o < m
        invariant
            o <= m,
            m == objects@.len(),
            evs == timed_views(events@),
            obs == objects@.map_values(|o: LogObject| o@),
            "<init>"@ == init_prefix(),
            "<exit>"@ == exit_prefix(),
            first@.len() == m,
            last@.len() == m,
            forall|o: int|
                0 <= o < m ==> first@[o] == first_time(evs, o as usize, evs.len()) && last@[o]
                    == last_time(evs, o as usize, evs.len()),
            done == evs + bookends(evs, obs, o as nat),
            order == by_time(done),
            in_order(times@, sorted@, order),
        decreases m - o,
    {
        let ob = &objects[o];
        assert(obs[o as int] == ob@);
        let before: i64 = match first[o] {
            Some(t) => if t > i64::MIN {
                t - 1
            } else {
                i64::MIN
            },
            None => -1,
        };
        let after: i64 = match last[o] {
            Some(t) => if t < i64::MAX {
                t + 1
            } else {
                i64::MAX
            },
            None => 1,
        };
        let init = bookend_of("<init>", ob, o, before);
        let exit = bookend_of("<exit>", ob, o, after);
        let ghost iv = init@;
        let ghost xv = exit@;
        proof {
            assert(done.push(iv).drop_last() =~= done);
            assert(done.push(iv).push(xv).drop_last() =~= done.push(iv));
            assert(evs + bookends(evs, obs, o as nat + 1) =~= done.push(iv).push(xv));
        }
        let init_item = LogEvent { id: init.id, activity: init.activity, objects: init.objects };
        put_by_time(&mut times, &mut sorted, before, init_item, Ghost(order), Ghost(iv));
        proof {
            order = by_time(done.push(iv));
        }
        let exit_item = LogEvent { id: exit.id, activity: exit.activity, objects: exit.objects };
        put_by_time(&mut times, &mut sorted, after, exit_item, Ghost(order), Ghost(xv));
        proof {
            done = done.push(iv).push(xv);
            order = by_time(done);
        }
        o += 1;
    }
    proof {
        assert(sorted@.map_values(|e: LogEvent| e@) =~= order.map_values(|e: TimedView| e.event));
    }
    IndexedLog::new(all_types, object_types, sorted, objects)
}

/// Puts the event into the list, which is in the order of `order`, by its time.
fn put_by_time(
    times: &mut Vec<i64>,
    sorted: &mut Vec<LogEvent>,
    time: i64,
    item: LogEvent,
    Ghost(order): Ghost<Seq<TimedView>>,
    Ghost(x): Ghost<TimedView>,
)
    requires
        x.time == time,
        x.event == item@,
        in_order(old(times)@, old(sorted)@, order),
    ensures
        in_order(final(times)@, final(sorted)@, insert_by_time(order, x)),
{
    let mut j: usize = times.len();
    while j > 0 && times[j - 1] > time
        invariant
            j <= times.len(),
            times@ == old(times)@,
            in_order(times@, old(sorted)@, order),
            forall|i: int| j <= i < order.len() ==> (#[trigger] order[i]).time > time,
        decreases j,
    {
        j -= 1;
        assert(times@[j as int] == order[j as int].time);
    }
    proof {
        if j > 0 {
            assert(times@[j as int - 1] == order[j as int - 1].time);
        }
        lemma_insert_by_time(order, x, j as int);
    }
    let ghost before_times = times@;
    let ghost before_sorted = sorted@;
    times.insert(j, time);
    sorted.insert(j, item);
    proof {
        let after = order.insert(j as int, x);
        assert forall|i: int| 0 <= i < after.len() implies #[trigger] times@[i] == after[i].time by {
            if i < j {
                assert(before_times[i] == order[i].time);
            } else if i > j {
                assert(before_times[i - 1] == order[i - 1].time);
            }
        }
        assert forall|i: int| 0 <= i < after.len() implies (#[trigger] sorted@[i])@
            == after[i].event by {
            if i < j {
                assert(before_sorted[i]@ == order[i].event);
            } else if i > j {
                assert(before_sorted[i - 1]@ == order[i - 1].event);
            }
        }
    }
}

} // verus!
