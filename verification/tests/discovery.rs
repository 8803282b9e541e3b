use oc_declare::arc::{OCDeclareArc, OCDeclareArcType, OCDeclareNode};
use oc_declare::association::ObjectTypeAssociation;
use oc_declare::discovery::{
    discover, discover_behavior_constraints, discover_pair,
    get_direct_or_indirect_object_involvements,
    get_out_types, get_stricter_arrows_for_as, is_bookend, test_for_resource,
    OCDeclareDiscoveryOptions, O2OMode,
};
use oc_declare::involvement::{
    get_activity_object_involvements, get_object_to_object_involvements,
    get_rev_object_to_object_involvements, ObjectInvolvementCounts,
};
use oc_declare::label::OCDeclareArcLabel;
use oc_declare::log::{IndexedLog, LogEvent, LogObject};
use oc_declare::perf::NoiseThreshold;
use oc_declare::prefilter::oc_pn_prefilter;
use oc_declare::reduction::reduce_oc_arcs;
use oc_declare::sync_group_discovery::{
    add_optional_steps, incoporate_control_flow_and_ensure_fitness, mine_associations,
    perform_sync_group_discovery, perform_transitive_reduction, NetPlace,
};

fn names(list: &[&str]) -> Vec<String> {
    list.iter().map(|s| s.to_string()).collect()
}

fn event(id: String, activity: &str, objects: &[usize]) -> LogEvent {
    LogEvent { id, activity: activity.to_string(), objects: objects.to_vec() }
}

fn object(id: String, object_type: &str, related: &[usize]) -> LogObject {
    LogObject { id, object_type: object_type.to_string(), related: related.to_vec() }
}

/// `orders` orders that are placed, confirmed and shipped, but for the last `unshipped`.
fn shop_log(orders: usize, unshipped: usize) -> IndexedLog {
    let mut events = Vec::new();
    for i in 0..orders {
        events.push(event(format!("place{}", i), "place order", &[i]));
    }
    for i in 0..orders {
        events.push(event(format!("confirm{}", i), "confirm order", &[i]));
    }
    for i in 0..(orders - unshipped) {
        events.push(event(format!("ship{}", i), "ship order", &[i]));
    }
    let objects = (0..orders).map(|i| object(format!("o{}", i), "orders", &[])).collect();
    IndexedLog::new(
        names(&["place order", "confirm order", "ship order"]),
        names(&["orders"]),
        events,
        objects,
    )
    .unwrap()
}

fn each(t: &str) -> OCDeclareArcLabel {
    OCDeclareArcLabel { each: vec![ObjectTypeAssociation::new_simple(t)], any: vec![], all: vec![] }
}

fn all(types: &[&str]) -> OCDeclareArcLabel {
    OCDeclareArcLabel {
        each: vec![],
        any: vec![],
        all: types.iter().map(|t| ObjectTypeAssociation::new_simple(t)).collect(),
    }
}

fn arc(
    from: &str,
    to: &str,
    arc_type: OCDeclareArcType,
    label: OCDeclareArcLabel,
    counts: (Option<usize>, Option<usize>),
) -> OCDeclareArc {
    OCDeclareArc { from: OCDeclareNode::new(from), to: OCDeclareNode::new(to), arc_type, label, counts }
}

fn exactly_one(threshold: NoiseThreshold) -> OCDeclareDiscoveryOptions {
    let mut options = OCDeclareDiscoveryOptions::new(threshold);
    options.counts_for_generation = (Some(1), Some(1));
    options
}

#[test]
fn discovery_finds_the_eventually_follows_arc() {
    let log = shop_log(10, 0);
    let found = discover_behavior_constraints(&log, &exactly_one(NoiseThreshold::new(0, 1).unwrap()));
    let one = (Some(1), Some(1));
    let expected = arc("place order", "ship order", OCDeclareArcType::EF, each("orders"), one);
    assert!(found.contains(&expected));
    assert_eq!(expected.as_template_string(), "EF(place order, ship order, Each(orders),1,1)");
    let f = expected.get_for_all_evs_perf(&log);
    assert_eq!((f.violated, f.total), (0, 10));
    assert_eq!(f.violated as f64 / f.total as f64, 0.0);
    assert_eq!(
        found,
        vec![
            arc("place order", "confirm order", OCDeclareArcType::DF, each("orders"), one),
            arc("place order", "ship order", OCDeclareArcType::EF, each("orders"), one),
            arc("confirm order", "place order", OCDeclareArcType::DFREV, each("orders"), one),
            arc("confirm order", "ship order", OCDeclareArcType::DF, each("orders"), one),
            arc("ship order", "place order", OCDeclareArcType::EFREV, each("orders"), one),
            arc("ship order", "confirm order", OCDeclareArcType::DFREV, each("orders"), one),
        ]
    );
}

#[test]
fn discovery_with_usual_options_leaves_the_count_open() {
    let log = shop_log(10, 0);
    let found = discover(&log, &NoiseThreshold::new(0, 1).unwrap());
    let open = (Some(1), None);
    assert!(found.contains(&arc(
        "place order",
        "ship order",
        OCDeclareArcType::EF,
        each("orders"),
        open
    )));
    assert_eq!(found.len(), 6);
}

#[test]
fn discovery_tolerates_noise_up_to_the_threshold() {
    let log = shop_log(10, 1);
    let one = (Some(1), Some(1));
    let expected = arc("place order", "ship order", OCDeclareArcType::EF, each("orders"), one);
    let f = expected.get_for_all_evs_perf(&log);
    assert_eq!((f.violated, f.total), (1, 10));
    let tolerant = discover_behavior_constraints(&log, &exactly_one(NoiseThreshold::new(1, 5).unwrap()));
    assert!(tolerant.contains(&expected));
    let strict = discover_behavior_constraints(&log, &exactly_one(NoiseThreshold::new(1, 20).unwrap()));
    assert!(!strict.contains(&expected));
    assert!(!strict
        .iter()
        .any(|a| a.from.as_str() == "place order" && a.to.as_str() == "ship order"));
    let exact = discover_behavior_constraints(&log, &exactly_one(NoiseThreshold::new(1, 10).unwrap()));
    assert!(exact.contains(&expected));
}

#[test]
fn reduction_keeps_what_discovery_accepted() {
    let log = shop_log(10, 1);
    let threshold = NoiseThreshold::new(1, 5).unwrap();
    let found = discover(&log, &threshold);
    let reduced = reduce_oc_arcs(discover(&log, &threshold));
    assert!(reduced.iter().all(|a| found.contains(a)));
    assert!(reduced.iter().all(|a| a.get_for_all_evs_perf_thresh(&log, &threshold)));
}

#[test]
fn stricter_arrows_fall_back_to_the_association() {
    let log = IndexedLog::new(
        names(&["a", "b"]),
        names(&["t"]),
        vec![
            event("e0".to_string(), "a", &[0]),
            event("e1".to_string(), "b", &[0]),
            event("e2".to_string(), "b", &[1]),
            event("e3".to_string(), "a", &[1]),
        ],
        vec![object("x".to_string(), "t", &[]), object("y".to_string(), "t", &[])],
    )
    .unwrap();
    let threshold = NoiseThreshold::new(0, 1).unwrap();
    let open = (Some(1), None);
    let found = get_stricter_arrows_for_as(
        arc("a", "b", OCDeclareArcType::ASS, each("t"), open),
        &threshold,
        &log,
    );
    assert_eq!(found, vec![arc("a", "b", OCDeclareArcType::ASS, each("t"), open)]);
    let found = get_stricter_arrows_for_as(
        arc("a", "a", OCDeclareArcType::ASS, each("t"), open),
        &threshold,
        &log,
    );
    assert!(found.is_empty());
    let half = NoiseThreshold::new(1, 2).unwrap();
    let found = get_stricter_arrows_for_as(
        arc("a", "b", OCDeclareArcType::ASS, each("t"), open),
        &half,
        &log,
    );
    assert_eq!(
        found,
        vec![
            arc("a", "b", OCDeclareArcType::DF, each("t"), open),
            arc("a", "b", OCDeclareArcType::DFREV, each("t"), open),
        ]
    );
}

/// Orders with one or two items each; every order is placed with its items and packed.
fn items_log() -> IndexedLog {
    IndexedLog::new(
        names(&["place order", "pack order", "<init> orders"]),
        names(&["orders", "items", "customers"]),
        vec![
            event("e0".to_string(), "<init> orders", &[0]),
            event("e1".to_string(), "place order", &[0, 2, 3]),
            event("e2".to_string(), "place order", &[1, 4]),
            event("e3".to_string(), "pack order", &[0, 2, 3]),
            event("e4".to_string(), "pack order", &[1, 4]),
        ],
        vec![
            object("o0".to_string(), "orders", &[2, 3]),
            object("o1".to_string(), "orders", &[4]),
            object("i2".to_string(), "items", &[]),
            object("i3".to_string(), "items", &[]),
            object("i4".to_string(), "items", &[]),
        ],
    )
    .unwrap()
}

#[test]
fn involvement_counts_least_and_most() {
    let log = items_log();
    let none = ObjectInvolvementCounts { min: usize::MAX, max: 0 };
    let one = ObjectInvolvementCounts { min: 1, max: 1 };
    let some = ObjectInvolvementCounts { min: 1, max: 2 };
    assert_eq!(ObjectInvolvementCounts::default(), none);
    assert_eq!(
        get_activity_object_involvements(&log),
        vec![vec![one, some, none], vec![one, some, none], vec![one, none, none]]
    );
    assert_eq!(
        get_object_to_object_involvements(&log),
        vec![vec![none, some, none], vec![none, none, none], vec![none, none, none]]
    );
    assert_eq!(
        get_rev_object_to_object_involvements(&log),
        vec![vec![none, none, none], vec![one, none, none], vec![none, none, none]]
    );
}

#[test]
fn test_obj_involvements() {
    let log = items_log();
    let act_ob_inv = get_activity_object_involvements(&log);
    let ob_ob_inv = get_object_to_object_involvements(&log);
    let ob_ob_inv_rev = get_rev_object_to_object_involvements(&log);
    let res = get_direct_or_indirect_object_involvements(
        "place order",
        "pack order",
        &log,
        &act_ob_inv,
        &ob_ob_inv,
        &ob_ob_inv_rev,
        O2OMode::Off,
    );
    assert_eq!(
        res,
        vec![
            (ObjectTypeAssociation::new_simple("orders"), false),
            (ObjectTypeAssociation::new_simple("items"), true),
        ]
    );
    let res = get_direct_or_indirect_object_involvements(
        "place order",
        "pack order",
        &log,
        &act_ob_inv,
        &ob_ob_inv,
        &ob_ob_inv_rev,
        O2OMode::Bidirectional,
    );
    assert_eq!(
        res,
        vec![
            (ObjectTypeAssociation::new_simple("orders"), false),
            (ObjectTypeAssociation::new_simple("items"), true),
            (ObjectTypeAssociation::new_o2o("orders", "items"), true),
            (ObjectTypeAssociation::new_o2o_rev("items", "orders"), true),
        ]
    );
}

#[test]
fn discovery_groups_and_combines_labels() {
    let log = items_log();
    let found = discover(&log, &NoiseThreshold::new(0, 1).unwrap());
    let open = (Some(1), None);
    let label = OCDeclareArcLabel {
        each: vec![ObjectTypeAssociation::new_simple("orders")],
        any: vec![],
        all: vec![ObjectTypeAssociation::new_simple("items")],
    };
    assert_eq!(
        found,
        vec![
            arc("place order", "pack order", OCDeclareArcType::DF, label.clone(), open),
            arc("pack order", "place order", OCDeclareArcType::DFREV, label, open),
        ]
    );
    assert!(is_bookend("<init> orders"));
    assert!(is_bookend("<exit> orders"));
    assert!(!is_bookend("init orders"));
}

#[test]
fn discovery_tries_hops_when_asked() {
    let log = items_log();
    let mut options = OCDeclareDiscoveryOptions::new(NoiseThreshold::new(0, 1).unwrap());
    options.o2o_mode = O2OMode::Direct;
    let found = discover_behavior_constraints(&log, &options);
    let hop = ObjectTypeAssociation::new_o2o("orders", "items");
    assert!(found.iter().any(|a| a.label.all.contains(&hop) || a.label.each.contains(&hop)));
}

#[test]
fn reduction_drops_what_a_chain_implies() {
    let open = (Some(1), None);
    let ef = OCDeclareArcType::EF;
    let arcs = vec![
        arc("a", "b", ef, each("t"), open),
        arc("b", "c", ef, each("t"), open),
        arc("a", "c", ef, each("t"), open),
        arc("a", "c", OCDeclareArcType::EFREV, each("t"), open),
        arc("a", "c", ef, each("u"), open),
    ];
    let reduced = reduce_oc_arcs(arcs);
    assert_eq!(
        reduced,
        vec![
            arc("a", "b", ef, each("t"), open),
            arc("b", "c", ef, each("t"), open),
            arc("a", "c", OCDeclareArcType::EFREV, each("t"), open),
            arc("a", "c", ef, each("u"), open),
        ]
    );
}

fn any(t: &str) -> OCDeclareArcLabel {
    OCDeclareArcLabel { each: vec![], any: vec![ObjectTypeAssociation::new_simple(t)], all: vec![] }
}

#[test]
fn reduction_looks_at_one_side_of_the_chain_for_any_items() {
    let open = (Some(1), None);
    let ef = OCDeclareArcType::EF;
    let kept = reduce_oc_arcs(vec![
        arc("a", "b", ef, each("t"), open),
        arc("b", "c", ef, any("t"), open),
        arc("a", "c", ef, any("t"), open),
    ]);
    assert_eq!(kept.len(), 3);
    let dropped = reduce_oc_arcs(vec![
        arc("a", "b", ef, any("t"), open),
        arc("b", "c", ef, each("t"), open),
        arc("a", "c", ef, any("t"), open),
    ]);
    assert_eq!(dropped.len(), 2);
    let rev = OCDeclareArcType::EFREV;
    let kept = reduce_oc_arcs(vec![
        arc("a", "b", rev, any("t"), open),
        arc("b", "c", rev, each("t"), open),
        arc("a", "c", rev, any("t"), open),
    ]);
    assert_eq!(kept.len(), 3);
    let dropped = reduce_oc_arcs(vec![
        arc("a", "b", rev, each("t"), open),
        arc("b", "c", rev, any("t"), open),
        arc("a", "c", rev, any("t"), open),
    ]);
    assert_eq!(dropped.len(), 2);
}

/// Tickets that are created and closed; every other ticket is reviewed in between.
fn tickets_log() -> IndexedLog {
    let mut events = Vec::new();
    for i in 0..4 {
        events.push(event(format!("create{}", i), "create", &[i]));
        if i % 2 == 0 {
            events.push(event(format!("review{}", i), "review", &[i]));
        }
        events.push(event(format!("close{}", i), "close", &[i]));
    }
    let objects = (0..4).map(|i| object(format!("t{}", i), "tickets", &[])).collect();
    IndexedLog::new(names(&["create", "review", "close"]), names(&["tickets"]), events, objects)
        .unwrap()
}

fn edge(from: &str, to: &str, label: OCDeclareArcLabel) -> (String, String, OCDeclareArcLabel) {
    (from.to_string(), to.to_string(), label)
}

#[test]
fn associations_are_mined_grouped() {
    let log = tickets_log();
    let found = mine_associations(&log, &NoiseThreshold::new(0, 1).unwrap());
    assert_eq!(
        found,
        vec![
            edge("create", "create", all(&["tickets"])),
            edge("create", "close", all(&["tickets"])),
            edge("review", "create", all(&["tickets"])),
            edge("review", "review", all(&["tickets"])),
            edge("review", "close", all(&["tickets"])),
            edge("close", "create", all(&["tickets"])),
            edge("close", "close", all(&["tickets"])),
        ]
    );
}

#[test]
fn synchronization_needs_both_directions_and_alternation() {
    let log = tickets_log();
    let threshold = NoiseThreshold::new(0, 1).unwrap();
    let mined = mine_associations(&log, &threshold);
    let fit = incoporate_control_flow_and_ensure_fitness(&log, &threshold, mined);
    assert_eq!(fit, vec![edge("create", "close", all(&["tickets"]))]);
    let steps = add_optional_steps(&log, &threshold, fit);
    assert_eq!(
        steps,
        vec![(
            "create".to_string(),
            "close".to_string(),
            all(&["tickets"]),
            vec!["review".to_string()]
        )]
    );
}

#[test]
fn transitive_reduction_of_associations() {
    let kept = perform_transitive_reduction(vec![
        edge("a", "b", all(&["t", "u"])),
        edge("b", "c", all(&["t"])),
        edge("a", "c", all(&["t"])),
        edge("a", "c", all(&["u"])),
    ]);
    assert_eq!(
        kept,
        vec![
            edge("a", "b", all(&["t", "u"])),
            edge("b", "c", all(&["t"])),
            edge("a", "c", all(&["u"])),
        ]
    );
    assert!(perform_transitive_reduction(vec![edge("a", "a", all(&["t"]))]).is_empty());
}

#[test]
fn sync_group_discovery_eval_table() {
    let log = tickets_log();
    let (steps, net) = perform_sync_group_discovery(&log, &NoiseThreshold::new(0, 1).unwrap());
    assert_eq!(steps.len(), 1);
    assert_eq!(net.transitions, names(&["create", "review", "close"]));
    assert_eq!(
        net.places,
        vec![NetPlace {
            object_type: "tickets".to_string(),
            group: Some(0),
            inputs: vec![(0, Some(1)), (1, Some(1))],
            outputs: vec![(2, Some(1)), (1, Some(1))],
        }]
    );
}

#[test]
fn test_reduction() {
    let log = shop_log(10, 1);
    let threshold = NoiseThreshold::new(1, 10).unwrap();
    let res = discover(&log, &threshold);
    let reduced = reduce_oc_arcs(discover(&log, &threshold));
    assert_eq!(res.len(), 6);
    assert!(reduced.len() <= res.len());
    let (steps, net) = perform_sync_group_discovery(&log, &threshold);
    assert_eq!(net.transitions.len(), 3);
    assert_eq!(net.places.len(), steps.len());
}

#[test]
fn pairs_of_arcs_make_groups_of_places() {
    let log = tickets_log();
    let threshold = NoiseThreshold::new(0, 1).unwrap();
    let found = discover(&log, &threshold);
    let open = (Some(1), None);
    assert_eq!(
        found,
        vec![
            arc("create", "close", OCDeclareArcType::EF, each("tickets"), open),
            arc("review", "create", OCDeclareArcType::DFREV, each("tickets"), open),
            arc("review", "close", OCDeclareArcType::DF, each("tickets"), open),
            arc("close", "create", OCDeclareArcType::EFREV, each("tickets"), open),
        ]
    );
    let net = oc_pn_prefilter(found, &log, &threshold);
    assert_eq!(net.transitions, names(&["create", "review", "close"]));
    assert_eq!(
        net.places,
        vec![NetPlace {
            object_type: "tickets".to_string(),
            group: Some(0),
            inputs: vec![(0, Some(1))],
            outputs: vec![(2, Some(1))],
        }]
    );
}

#[test]
fn activities_in_between_loop_at_the_place() {
    let log = tickets_log();
    let threshold = NoiseThreshold::new(0, 1).unwrap();
    let open = (Some(1), None);
    let arcs = vec![
        arc("create", "close", OCDeclareArcType::EF, all(&["tickets"]), open),
        arc("close", "create", OCDeclareArcType::EFREV, all(&["tickets"]), open),
        arc("review", "create", OCDeclareArcType::EFREV, all(&["tickets"]), open),
        arc("review", "close", OCDeclareArcType::EF, all(&["tickets"]), open),
    ];
    let net = oc_pn_prefilter(arcs, &log, &threshold);
    assert_eq!(
        net.places,
        vec![NetPlace {
            object_type: "tickets".to_string(),
            group: Some(0),
            inputs: vec![(0, Some(10)), (1, Some(10))],
            outputs: vec![(2, Some(10)), (1, Some(10))],
        }]
    );
    let arcs = vec![
        arc("create", "close", OCDeclareArcType::EF, all(&["tickets"]), open),
        arc("close", "create", OCDeclareArcType::EFREV, all(&["tickets"]), open),
        arc("review", "create", OCDeclareArcType::EFREV, all(&["tickets"]), open),
        arc("review", "close", OCDeclareArcType::EF, all(&["tickets"]), open),
        arc("create", "review", OCDeclareArcType::EF, all(&["tickets"]), open),
    ];
    let net = oc_pn_prefilter(arcs, &log, &threshold);
    assert_eq!(net.places[0].inputs, vec![(0, Some(10))]);
    assert!(oc_pn_prefilter(vec![], &log, &threshold).places.is_empty());
}

#[test]
fn usual_options_tolerate_a_fifth() {
    let options = OCDeclareDiscoveryOptions::default();
    assert_eq!(
        (options.noise_threshold.numerator(), options.noise_threshold.denominator()),
        (1, 5)
    );
    assert_eq!(options.o2o_mode, O2OMode::Off);
    assert_eq!(options.counts_for_generation, (Some(1), None));
    assert_eq!(options.counts_for_filter, (Some(1), Some(20)));
}

#[test]
fn discovery_is_the_discovery_of_each_pair() {
    let log = shop_log(10, 1);
    let options = OCDeclareDiscoveryOptions::new(NoiseThreshold::new(1, 5).unwrap());
    let act_ob = get_activity_object_involvements(&log);
    let ob_ob = get_object_to_object_involvements(&log);
    let ob_ob_rev = get_rev_object_to_object_involvements(&log);
    let mut by_pair = Vec::new();
    for from in log.event_types() {
        for to in log.event_types() {
            by_pair.extend(discover_pair(from, to, &log, &options, &act_ob, &ob_ob, &ob_ob_rev));
        }
    }
    assert_eq!(by_pair, discover_behavior_constraints(&log, &options));
}

#[test]
fn labels_about_resources_only_are_told_apart() {
    let orders = ObjectTypeAssociation::new_simple("orders");
    let products = ObjectTypeAssociation::new_simple("products");
    let hop = ObjectTypeAssociation::new_o2o("orders", "employees");
    assert_eq!(
        get_out_types(&vec![orders.clone(), hop.clone(), products.clone()]),
        names(&["orders", "employees", "products"])
    );
    let mixed = vec![(orders.clone(), false), (products.clone(), true)];
    let resources = vec![(products.clone(), true), (hop.clone(), false)];
    assert!(test_for_resource(&each("orders"), &mixed));
    assert!(!test_for_resource(&each("products"), &mixed));
    assert!(!test_for_resource(&all(&["customers", "employees"]), &mixed));
    assert!(test_for_resource(&each("products"), &resources));
    assert!(test_for_resource(&all(&[]), &vec![]));
    assert!(!test_for_resource(&all(&[]), &mixed));
}
