use oc_declare::arc::OCDeclareArcType;
use oc_declare::association::ObjectTypeAssociation;
use oc_declare::binding::SetFilter;
use oc_declare::discovery::discover;
use oc_declare::label::OCDeclareArcLabel;
use oc_declare::log::{IndexedLog, LogEvent, LogObject};
use oc_declare::perf::{
    get_for_all_evs_perf, get_for_all_evs_perf_thresh, get_for_ev_perf, NoiseThreshold,
};
use oc_declare::reduction::reduce_oc_arcs;

/// A small generator of numbers that repeats itself for a seed.
struct Numbers(u64);

impl Numbers {
    fn next(&mut self, below: usize) -> usize {
        self.0 = self.0.wrapping_mul(6364136223846793005).wrapping_add(1442695040888963407);
        ((self.0 >> 33) as usize) % below
    }
}

const ACTIVITIES: [&str; 3] = ["a", "b", "c"];
const TYPES: [&str; 2] = ["t", "u"];

struct Plain {
    events: Vec<(usize, Vec<usize>)>,
    objects: Vec<(usize, Vec<usize>)>,
}

fn plain_log(numbers: &mut Numbers) -> Plain {
    let object_count = 1 + numbers.next(5);
    let objects: Vec<(usize, Vec<usize>)> = (0..object_count)
        .map(|_| {
            let related = (0..object_count).filter(|_| numbers.next(4) == 0).collect();
            (numbers.next(TYPES.len()), related)
        })
        .collect();
    let events = (0..numbers.next(9))
        .map(|_| {
            let related = (0..object_count).filter(|_| numbers.next(3) == 0).collect();
            (numbers.next(ACTIVITIES.len()), related)
        })
        .collect();
    Plain { events, objects }
}

fn indexed(plain: &Plain) -> IndexedLog {
    IndexedLog::new(
        ACTIVITIES.iter().map(|s| s.to_string()).collect(),
        TYPES.iter().map(|s| s.to_string()).collect(),
        plain
            .events
            .iter()
            .enumerate()
            .map(|(i, (a, obs))| LogEvent {
                id: format!("e{}", i),
                activity: ACTIVITIES[*a].to_string(),
                objects: obs.clone(),
            })
            .collect(),
        plain
            .objects
            .iter()
            .enumerate()
            .map(|(i, (t, related))| LogObject {
                id: format!("o{}", i),
                object_type: TYPES[*t].to_string(),
                related: related.clone(),
            })
            .collect(),
    )
    .unwrap()
}

fn objects_of(plain: &Plain, e: usize, t: usize) -> Vec<usize> {
    plain.events[e].1.iter().copied().filter(|o| plain.objects[*o].0 == t).collect()
}

fn meets(plain: &Plain, e: usize, binding: &[SetFilter]) -> bool {
    let has = |o: &usize| plain.events[e].1.contains(o);
    binding.iter().all(|f| match f {
        SetFilter::Any(items) => items.iter().any(has),
        SetFilter::All(items) => items.iter().all(has),
    })
}

/// The count by the plain reading of the arc types, looking at every event.
fn plain_count(plain: &Plain, src: usize, to: usize, t: OCDeclareArcType, binding: &[SetFilter]) -> usize {
    let n = plain.events.len();
    let related: Vec<usize> = (0..n).filter(|e| meets(plain, *e, binding)).collect();
    let after: Vec<usize> = related.iter().copied().filter(|e| *e > src).collect();
    let before: Vec<usize> = related.iter().copied().filter(|e| *e < src).rev().collect();
    let is_to = |e: &usize| plain.events[*e].0 == to;
    let chain = |walk: &Vec<usize>| {
        walk.iter().take_while(|e| plain.events[**e].0 != plain.events[src].0).filter(|e| is_to(e)).count()
    };
    match t {
        OCDeclareArcType::ASS => related.iter().filter(|e| is_to(e)).count(),
        OCDeclareArcType::EF => after.iter().filter(|e| is_to(e)).count(),
        OCDeclareArcType::EFREV => before.iter().filter(|e| is_to(e)).count(),
        OCDeclareArcType::DF => after.first().filter(|e| is_to(e)).map_or(0, |_| 1),
        OCDeclareArcType::DFREV => before.first().filter(|e| is_to(e)).map_or(0, |_| 1),
        OCDeclareArcType::ALTEF => chain(&after),
        OCDeclareArcType::ALTEFREV => chain(&before),
    }
}

/// Whether the event breaks the constraint for a label of direct associations, by the
/// plain reading: one binding for each choice of one object per `each` type.
fn plain_violated(
    plain: &Plain,
    src: usize,
    to: usize,
    t: OCDeclareArcType,
    counts: (Option<usize>, Option<usize>),
    each: &[usize],
    any: &[usize],
    all: &[usize],
) -> bool {
    let mut choices: Vec<Vec<usize>> = vec![vec![]];
    for ty in each {
        let mut next = Vec::new();
        for choice in &choices {
            for o in objects_of(plain, src, *ty) {
                let mut longer = choice.clone();
                longer.push(o);
                next.push(longer);
            }
        }
        choices = next;
    }
    choices.iter().any(|choice| {
        let mut binding: Vec<SetFilter> =
            all.iter().map(|ty| SetFilter::All(objects_of(plain, src, *ty))).collect();
        binding.push(SetFilter::All(choice.clone()));
        binding.extend(any.iter().map(|ty| SetFilter::Any(objects_of(plain, src, *ty))));
        let count = plain_count(plain, src, to, t, &binding);
        counts.0.is_some_and(|min| count < min) || counts.1.is_some_and(|max| count > max)
    })
}

fn label(each: &[usize], any: &[usize], all: &[usize]) -> OCDeclareArcLabel {
    let list = |types: &[usize]| {
        types.iter().map(|t| ObjectTypeAssociation::new_simple(TYPES[*t])).collect()
    };
    OCDeclareArcLabel { each: list(each), any: list(any), all: list(all) }
}

const ARC_TYPES: [OCDeclareArcType; 7] = [
    OCDeclareArcType::ASS,
    OCDeclareArcType::EF,
    OCDeclareArcType::EFREV,
    OCDeclareArcType::DF,
    OCDeclareArcType::DFREV,
    OCDeclareArcType::ALTEF,
    OCDeclareArcType::ALTEFREV,
];

#[test]
fn evaluation_agrees_with_the_plain_reading_on_random_logs() {
    let mut numbers = Numbers(7);
    let shapes: [(&[usize], &[usize], &[usize]); 6] = [
        (&[0], &[], &[]),
        (&[], &[1], &[]),
        (&[], &[], &[0]),
        (&[0, 1], &[], &[]),
        (&[1], &[0], &[1]),
        (&[], &[0, 1], &[0]),
    ];
    let bounds = [(Some(1), None), (Some(1), Some(1)), (None, Some(0)), (Some(2), Some(3))];
    for _ in 0..60 {
        let plain = plain_log(&mut numbers);
        let log = indexed(&plain);
        for (each, any, all) in shapes.iter() {
            let l = label(each, any, all);
            for t in ARC_TYPES.iter() {
                for counts in bounds.iter() {
                    for to in 0..ACTIVITIES.len() {
                        let mut violated = vec![0; ACTIVITIES.len()];
                        let mut total = vec![0; ACTIVITIES.len()];
                        for src in 0..plain.events.len() {
                            let expected = plain_violated(&plain, src, to, *t, *counts, each, any, all);
                            let got = get_for_ev_perf(src, &l, ACTIVITIES[to], t, counts, &log);
                            assert_eq!(got, expected);
                            total[plain.events[src].0] += 1;
                            if expected {
                                violated[plain.events[src].0] += 1;
                            }
                        }
                        for from in 0..ACTIVITIES.len() {
                            let f = get_for_all_evs_perf(
                                ACTIVITIES[from],
                                ACTIVITIES[to],
                                &l,
                                t,
                                counts,
                                &log,
                            );
                            assert_eq!((f.violated, f.total), (violated[from], total[from]));
                            for (num, den) in [(0u64, 1u64), (1, 4), (1, 2), (3, 4), (1, 1)] {
                                let threshold = NoiseThreshold::new(num, den).unwrap();
                                let fast = get_for_all_evs_perf_thresh(
                                    ACTIVITIES[from],
                                    ACTIVITIES[to],
                                    &l,
                                    t,
                                    counts,
                                    &log,
                                    &threshold,
                                );
                                let exact = (f.violated as u64) * den <= num * (f.total as u64);
                                assert_eq!(fast, exact);
                            }
                        }
                    }
                }
            }
        }
    }
}

#[test]
fn what_is_discovered_and_reduced_holds_on_random_logs() {
    let mut numbers = Numbers(11);
    for _ in 0..40 {
        let log = indexed(&plain_log(&mut numbers));
        for (num, den) in [(0u64, 1u64), (1, 5), (1, 2)] {
            let threshold = NoiseThreshold::new(num, den).unwrap();
            let found = discover(&log, &threshold);
            assert!(found.iter().all(|a| a.get_for_all_evs_perf_thresh(&log, &threshold)));
            assert!(found.iter().all(|a| a.counts == (Some(1), None)));
            let again = discover(&log, &threshold);
            assert_eq!(found, again);
            let reduced = reduce_oc_arcs(again);
            assert!(reduced.iter().all(|a| found.contains(a)));
            assert!(reduced.iter().all(|a| a.get_for_all_evs_perf_thresh(&log, &threshold)));
        }
    }
}
