use oc_declare::arc::{OCDeclareArc, OCDeclareArcType, OCDeclareNode, ViolationInfo};
use oc_declare::association::ObjectTypeAssociation;
use oc_declare::binding::SetFilter;
use oc_declare::label::OCDeclareArcLabel;
use oc_declare::log::{IndexedLog, LogEvent, LogObject};
use oc_declare::perf::{
    get_alternate_ef_ep_event_perf, get_df_or_dp_event_perf, get_evs_with_objs,
    get_for_all_evs_perf, get_for_all_evs_perf_thresh, get_for_ev_perf, related_events,
    NoiseThreshold,
};

fn names(list: &[&str]) -> Vec<String> {
    list.iter().map(|s| s.to_string()).collect()
}

fn event(id: &str, activity: &str, objects: &[usize]) -> LogEvent {
    LogEvent { id: id.to_string(), activity: activity.to_string(), objects: objects.to_vec() }
}

fn object(id: &str, object_type: &str, related: &[usize]) -> LogObject {
    LogObject { id: id.to_string(), object_type: object_type.to_string(), related: related.to_vec() }
}

/// Three orders with their items; the third order is never shipped.
fn orders_log() -> IndexedLog {
    IndexedLog::new(
        names(&["place order", "pick item", "ship order"]),
        names(&["orders", "items"]),
        vec![
            event("e0", "place order", &[0, 3, 4]),
            event("e1", "place order", &[1, 5]),
            event("e2", "pick item", &[0, 3]),
            event("e3", "pick item", &[0, 4]),
            event("e4", "ship order", &[0, 3, 4]),
            event("e5", "pick item", &[1, 5]),
            event("e6", "ship order", &[1, 5]),
            event("e7", "place order", &[2, 6]),
            event("e8", "pick item", &[2, 6]),
        ],
        vec![
            object("o0", "orders", &[3, 4]),
            object("o1", "orders", &[5]),
            object("o2", "orders", &[6]),
            object("i3", "items", &[]),
            object("i4", "items", &[]),
            object("i5", "items", &[]),
            object("i6", "items", &[]),
        ],
    )
    .unwrap()
}

fn simple(t: &str) -> ObjectTypeAssociation {
    ObjectTypeAssociation::new_simple(t)
}

fn each(t: &str) -> OCDeclareArcLabel {
    OCDeclareArcLabel { each: vec![simple(t)], any: vec![], all: vec![] }
}

fn arc(
    from: &str,
    to: &str,
    arc_type: OCDeclareArcType,
    label: OCDeclareArcLabel,
    counts: (Option<usize>, Option<usize>),
) -> OCDeclareArc {
    OCDeclareArc { from: OCDeclareNode::new(from), to: OCDeclareNode::new(to), arc_type, label, counts }
}

#[test]
fn association_leads_to_objects_of_the_type() {
    let log = orders_log();
    assert_eq!(simple("items").get_for_ev(0, &log), vec![3, 4]);
    assert_eq!(simple("orders").get_for_ev(0, &log), vec![0]);
    assert_eq!(simple("customers").get_for_ev(0, &log), Vec::<usize>::new());
}

#[test]
fn hop_leads_along_links_in_both_directions() {
    let log = orders_log();
    let forward = ObjectTypeAssociation::new_o2o("orders", "items");
    assert_eq!(forward.get_for_ev(2, &log), vec![3, 4]);
    let backward = ObjectTypeAssociation::new_o2o_rev("items", "orders");
    assert_eq!(backward.get_for_ev(5, &log), vec![1]);
    let nothing = ObjectTypeAssociation::new_o2o("items", "orders");
    assert_eq!(nothing.get_for_ev(5, &log), Vec::<usize>::new());
}

#[test]
fn single_each_gives_one_binding_per_object() {
    let log = orders_log();
    let bindings = each("items").get_bindings(0, &log);
    assert_eq!(bindings, vec![vec![SetFilter::All(vec![3])], vec![SetFilter::All(vec![4])]]);
}

#[test]
fn empty_each_gives_no_binding() {
    let log = orders_log();
    assert!(each("customers").get_bindings(0, &log).is_empty());
}

#[test]
fn empty_label_gives_the_one_empty_binding() {
    let log = orders_log();
    let label = OCDeclareArcLabel { each: vec![], any: vec![], all: vec![] };
    assert_eq!(label.get_bindings(0, &log), vec![Vec::<SetFilter>::new()]);
}

#[test]
fn bindings_are_the_product_with_all_first_and_any_by_size() {
    let log = orders_log();
    let label = OCDeclareArcLabel {
        each: vec![simple("items"), simple("orders")],
        any: vec![simple("items"), simple("orders")],
        all: vec![simple("items")],
    };
    let bindings = label.get_bindings(0, &log);
    assert_eq!(
        bindings,
        vec![
            vec![
                SetFilter::All(vec![3, 4]),
                SetFilter::All(vec![3, 0]),
                SetFilter::Any(vec![0]),
                SetFilter::Any(vec![3, 4]),
            ],
            vec![
                SetFilter::All(vec![3, 4]),
                SetFilter::All(vec![4, 0]),
                SetFilter::Any(vec![0]),
                SetFilter::Any(vec![3, 4]),
            ],
        ]
    );
}

#[test]
fn filter_check_any_and_all() {
    let set = vec![1, 3, 5];
    assert!(SetFilter::Any(vec![2, 3]).check(&set));
    assert!(!SetFilter::Any(vec![2, 4]).check(&set));
    assert!(!SetFilter::Any(vec![]).check(&set));
    assert!(SetFilter::All(vec![1, 5]).check(&set));
    assert!(!SetFilter::All(vec![1, 2]).check(&set));
    assert!(SetFilter::All(vec![]).check(&set));
}

#[test]
fn related_events_meet_every_filter() {
    let log = orders_log();
    assert_eq!(related_events(&vec![SetFilter::All(vec![0])], &log), vec![0, 2, 3, 4]);
    assert_eq!(related_events(&vec![SetFilter::All(vec![0, 4])], &log), vec![0, 3, 4]);
    assert_eq!(related_events(&vec![SetFilter::Any(vec![4, 5])], &log), vec![0, 1, 3, 4, 5, 6]);
    assert_eq!(
        related_events(&vec![SetFilter::Any(vec![4, 5]), SetFilter::All(vec![1])], &log),
        vec![1, 5, 6]
    );
    assert_eq!(related_events(&vec![SetFilter::Any(vec![])], &log), Vec::<usize>::new());
    assert_eq!(related_events(&vec![SetFilter::All(vec![])], &log), vec![0, 1, 2, 3, 4, 5, 6, 7, 8]);
    assert_eq!(related_events(&vec![], &log), vec![0, 1, 2, 3, 4, 5, 6, 7, 8]);
    assert_eq!(related_events(&vec![SetFilter::All(vec![99])], &log), Vec::<usize>::new());
}

#[test]
fn target_events_are_of_the_activity() {
    let log = orders_log();
    assert_eq!(get_evs_with_objs(&vec![SetFilter::All(vec![0])], &log, "pick item"), vec![2, 3]);
    assert_eq!(get_evs_with_objs(&vec![SetFilter::All(vec![0])], &log, "ship order"), vec![4]);
    assert_eq!(
        get_evs_with_objs(&vec![SetFilter::All(vec![0])], &log, "cancel order"),
        Vec::<usize>::new()
    );
}

#[test]
fn nearest_neighbour_in_both_directions() {
    let log = orders_log();
    let binding = vec![SetFilter::All(vec![0])];
    assert_eq!(get_df_or_dp_event_perf(&binding, &log, 0, true), Some(2));
    assert_eq!(get_df_or_dp_event_perf(&binding, &log, 0, false), None);
    assert_eq!(get_df_or_dp_event_perf(&binding, &log, 4, false), Some(3));
    assert_eq!(get_df_or_dp_event_perf(&binding, &log, 4, true), None);
    assert_eq!(get_df_or_dp_event_perf(&binding, &log, 3, true), Some(4));
}

#[test]
fn alternation_counts_until_the_source_activity_recurs() {
    let log = IndexedLog::new(
        names(&["a", "b", "c"]),
        names(&["t"]),
        vec![
            event("e0", "a", &[0]),
            event("e1", "b", &[0]),
            event("e2", "c", &[0]),
            event("e3", "b", &[0]),
            event("e4", "a", &[0]),
            event("e5", "b", &[0]),
        ],
        vec![object("x", "t", &[])],
    )
    .unwrap();
    let binding = vec![SetFilter::All(vec![0])];
    assert_eq!(get_alternate_ef_ep_event_perf(&binding, &log, 0, true, "a", "b"), 2);
    assert_eq!(get_alternate_ef_ep_event_perf(&binding, &log, 4, true, "a", "b"), 1);
    assert_eq!(get_alternate_ef_ep_event_perf(&binding, &log, 4, false, "a", "b"), 2);
    assert_eq!(get_alternate_ef_ep_event_perf(&binding, &log, 5, false, "b", "a"), 1);
    assert_eq!(get_alternate_ef_ep_event_perf(&binding, &log, 3, false, "b", "a"), 0);
    assert_eq!(get_alternate_ef_ep_event_perf(&binding, &log, 0, true, "a", "a"), 0);
}

#[test]
fn event_violation_by_arc_type() {
    let log = orders_log();
    let one = (Some(1), None);
    let label = each("orders");
    assert!(!get_for_ev_perf(0, &label, "ship order", &OCDeclareArcType::EF, &one, &log));
    assert!(get_for_ev_perf(7, &label, "ship order", &OCDeclareArcType::EF, &one, &log));
    assert!(get_for_ev_perf(0, &label, "ship order", &OCDeclareArcType::EFREV, &one, &log));
    assert!(!get_for_ev_perf(4, &label, "place order", &OCDeclareArcType::EFREV, &one, &log));
    assert!(!get_for_ev_perf(0, &label, "ship order", &OCDeclareArcType::ASS, &one, &log));
    assert!(!get_for_ev_perf(4, &label, "place order", &OCDeclareArcType::ASS, &one, &log));
    assert!(!get_for_ev_perf(0, &label, "pick item", &OCDeclareArcType::DF, &one, &log));
    assert!(get_for_ev_perf(0, &label, "ship order", &OCDeclareArcType::DF, &one, &log));
    assert!(!get_for_ev_perf(4, &label, "pick item", &OCDeclareArcType::DFREV, &one, &log));
    assert!(get_for_ev_perf(4, &label, "place order", &OCDeclareArcType::DFREV, &one, &log));
    assert!(!get_for_ev_perf(0, &label, "ship order", &OCDeclareArcType::ALTEF, &one, &log));
    assert!(get_for_ev_perf(7, &label, "ship order", &OCDeclareArcType::ALTEF, &one, &log));
    assert!(!get_for_ev_perf(4, &label, "place order", &OCDeclareArcType::ALTEFREV, &one, &log));
}

#[test]
fn count_bounds_cut_both_ways() {
    let log = orders_log();
    let label = each("orders");
    let t = OCDeclareArcType::EF;
    assert!(!get_for_ev_perf(0, &label, "pick item", &t, &(Some(2), Some(2)), &log));
    assert!(get_for_ev_perf(0, &label, "pick item", &t, &(Some(3), None), &log));
    assert!(get_for_ev_perf(0, &label, "pick item", &t, &(None, Some(1)), &log));
    assert!(!get_for_ev_perf(0, &label, "pick item", &t, &(None, None), &log));
    assert!(!get_for_ev_perf(0, &label, "cancel order", &t, &(None, Some(0)), &log));
}

#[test]
fn event_without_bindings_breaks_nothing() {
    let log = orders_log();
    let label = each("customers");
    assert!(!get_for_ev_perf(0, &label, "ship order", &OCDeclareArcType::EF, &(Some(1), None), &log));
}

#[test]
fn exact_counts_over_an_activity() {
    let log = orders_log();
    let label = each("orders");
    let one = (Some(1), None);
    let f = get_for_all_evs_perf("place order", "ship order", &label, &OCDeclareArcType::EF, &one, &log);
    assert_eq!((f.violated, f.total), (1, 3));
    let f = get_for_all_evs_perf("place order", "pick item", &label, &OCDeclareArcType::DF, &one, &log);
    assert_eq!((f.violated, f.total), (0, 3));
    let f = get_for_all_evs_perf("cancel order", "pick item", &label, &OCDeclareArcType::DF, &one, &log);
    assert_eq!((f.violated, f.total), (0, 0));
    let a = arc("place order", "ship order", OCDeclareArcType::EF, each("orders"), one);
    let f = a.get_for_all_evs_perf(&log);
    assert_eq!((f.violated, f.total), (1, 3));
}

#[test]
fn threshold_test_agrees_with_exact_fraction() {
    let log = orders_log();
    let labels = vec![
        each("orders"),
        each("items"),
        OCDeclareArcLabel { each: vec![], any: vec![simple("items")], all: vec![] },
        OCDeclareArcLabel { each: vec![], any: vec![], all: vec![simple("items")] },
    ];
    let types = [
        OCDeclareArcType::ASS,
        OCDeclareArcType::EF,
        OCDeclareArcType::EFREV,
        OCDeclareArcType::DF,
        OCDeclareArcType::DFREV,
        OCDeclareArcType::ALTEF,
        OCDeclareArcType::ALTEFREV,
    ];
    let acts = ["place order", "pick item", "ship order", "cancel order"];
    let bounds = [(Some(1), None), (Some(1), Some(1)), (None, Some(0)), (Some(2), Some(20))];
    for label in labels.iter() {
        for t in types.iter() {
            for from in acts.iter() {
                for to in acts.iter() {
                    for counts in bounds.iter() {
                        let f = get_for_all_evs_perf(from, to, label, t, counts, &log);
                        for (num, den) in [(0u64, 1u64), (1, 3), (1, 2), (2, 3), (1, 1), (33, 100), (34, 100)] {
                            let threshold = NoiseThreshold::new(num, den).unwrap();
                            let fast = get_for_all_evs_perf_thresh(from, to, label, t, counts, &log, &threshold);
                            let exact = (f.violated as u128) * (den as u128) <= (num as u128) * (f.total as u128);
                            assert_eq!(fast, exact);
                        }
                    }
                }
            }
        }
    }
}

#[test]
fn threshold_is_a_fraction_between_zero_and_one() {
    assert!(NoiseThreshold::new(0, 0).is_none());
    assert!(NoiseThreshold::new(3, 2).is_none());
    let t = NoiseThreshold::new(1, 5).unwrap();
    assert_eq!((t.numerator(), t.denominator()), (1, 5));
    assert_eq!(t.allowance(10), 2);
    assert_eq!(t.allowance(9), 1);
    assert_eq!(t.allowance(0), 0);
    assert_eq!(NoiseThreshold::new(1, 1).unwrap().allowance(7), 7);
    assert_eq!(NoiseThreshold::new(0, 1).unwrap().allowance(7), 0);
}

#[test]
fn diagnostics_name_the_evidence() {
    let log = orders_log();
    let a = arc("place order", "ship order", OCDeclareArcType::EF, each("items"), (Some(1), None));
    let (bindings, found) = a.get_for_ev(0, &log);
    assert_eq!(bindings, 2);
    assert!(found.is_empty());
    let (bindings, found) = a.get_for_ev(7, &log);
    assert_eq!(bindings, 1);
    assert_eq!(
        found,
        vec![ViolationInfo::TooFew {
            source_ev: "e7".to_string(),
            matching_evs: vec![],
            all_obs: vec!["i6".to_string()],
            any_obs: vec![],
            count: 0,
        }]
    );
    let label = OCDeclareArcLabel { each: vec![simple("orders")], any: vec![simple("items")], all: vec![] };
    let b = arc("place order", "pick item", OCDeclareArcType::ASS, label, (None, Some(1)));
    let (bindings, found) = b.get_for_ev(0, &log);
    assert_eq!(bindings, 1);
    assert_eq!(
        found,
        vec![ViolationInfo::TooMany {
            source_ev: "e0".to_string(),
            matching_evs: vec!["e2".to_string(), "e3".to_string()],
            all_obs: vec!["o0".to_string()],
            any_obs: vec![vec!["i3".to_string(), "i4".to_string()]],
            count: 2,
        }]
    );
    let all = a.get_for_all_evs(&log);
    assert_eq!(all.len(), 3);
    assert_eq!(all[0].0, 2);
    assert_eq!(all[1].0, 1);
    assert_eq!(all[2].1.len(), 1);
}

#[test]
fn it_works() {
    let log = orders_log();
    let x = arc(
        "place order",
        "payment reminder",
        OCDeclareArcType::EF,
        OCDeclareArcLabel { each: vec![simple("orders")], any: vec![], all: vec![] },
        (Some(1), None),
    );
    let all_res = x.get_for_all_evs(&log);
    let first: Vec<usize> = all_res.iter().take(10).map(|r| r.0).collect();
    assert_eq!(first, vec![1, 1, 1]);
    assert!(all_res.iter().all(|r| r.1.len() == 1));
}

#[test]
fn grouping_more_can_only_break_more() {
    let log = orders_log();
    let acts = ["place order", "pick item", "ship order"];
    let types = [OCDeclareArcType::ASS, OCDeclareArcType::EF, OCDeclareArcType::EFREV];
    let loose = each("orders");
    let strict =
        OCDeclareArcLabel { each: vec![simple("orders")], any: vec![], all: vec![simple("items")] };
    let wider = OCDeclareArcLabel {
        each: vec![simple("orders"), simple("items")],
        any: vec![],
        all: vec![],
    };
    for from in acts.iter() {
        for to in acts.iter() {
            for t in types.iter() {
                for min in [1, 2, 3] {
                    let counts = (Some(min), None);
                    let a = get_for_all_evs_perf(from, to, &loose, t, &counts, &log);
                    let b = get_for_all_evs_perf(from, to, &strict, t, &counts, &log);
                    let c = get_for_all_evs_perf(from, to, &wider, t, &counts, &log);
                    assert!(a.violated <= b.violated);
                    assert!(a.violated <= c.violated);
                }
            }
        }
    }
    let one = (Some(1), None);
    let a = get_for_all_evs_perf("place order", "pick item", &loose, &OCDeclareArcType::ASS, &one, &log);
    let b = get_for_all_evs_perf("place order", "pick item", &strict, &OCDeclareArcType::ASS, &one, &log);
    assert_eq!((a.violated, b.violated), (0, 1));
}
