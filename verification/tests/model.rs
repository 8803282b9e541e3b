use oc_declare::arc::{OCDeclareArc, OCDeclareArcType, OCDeclareNode};
use oc_declare::association::ObjectTypeAssociation;
use oc_declare::label::OCDeclareArcLabel;
use oc_declare::log::{IndexedLog, LogEvent, LogObject};
use oc_declare::preprocess::{preprocess_ocel, TimedEvent};
use oc_declare::text::{decimal_string, has_prefix, same_str, str_less};

fn names(list: &[&str]) -> Vec<String> {
    list.iter().map(|s| s.to_string()).collect()
}

fn simple(t: &str) -> ObjectTypeAssociation {
    ObjectTypeAssociation::new_simple(t)
}

fn label(each: &[&str], any: &[&str], all: &[&str]) -> OCDeclareArcLabel {
    OCDeclareArcLabel {
        each: each.iter().map(|t| simple(t)).collect(),
        any: any.iter().map(|t| simple(t)).collect(),
        all: all.iter().map(|t| simple(t)).collect(),
    }
}

#[test]
fn names_are_ordered_by_their_bytes() {
    assert!(str_less("a", "b"));
    assert!(!str_less("b", "a"));
    assert!(!str_less("a", "a"));
    assert!(str_less("", "a"));
    assert!(str_less("ab", "abc"));
    assert!(str_less("Z", "a"));
    assert!(str_less("z", "é"));
    for (a, b) in [("items", "orders"), ("a", "ab"), ("é", "z"), ("", ""), ("x", "x")] {
        assert_eq!(str_less(a, b), a < b);
        assert_eq!(str_less(b, a), b < a);
        assert_eq!(same_str(a, b), a == b);
    }
}

#[test]
fn prefixes_and_numerals() {
    assert!(has_prefix("<init> orders", "<init>"));
    assert!(!has_prefix("<ini", "<init>"));
    assert!(has_prefix("abc", ""));
    assert!(has_prefix("é1", "é"));
    assert_eq!(decimal_string(0), "0");
    assert_eq!(decimal_string(7), "7");
    assert_eq!(decimal_string(10), "10");
    assert_eq!(decimal_string(12345), "12345");
    assert_eq!(decimal_string(usize::MAX), usize::MAX.to_string());
}

#[test]
fn associations_compare_like_their_parts() {
    let list = vec![
        simple("a"),
        simple("b"),
        ObjectTypeAssociation::new_o2o("a", "a"),
        ObjectTypeAssociation::new_o2o_rev("a", "a"),
        ObjectTypeAssociation::new_o2o("a", "b"),
        ObjectTypeAssociation::new_o2o("b", "a"),
    ];
    for (i, x) in list.iter().enumerate() {
        for (j, y) in list.iter().enumerate() {
            assert_eq!(x.less_than(y), i < j);
            assert_eq!(x.less_than(y), x < y);
            assert_eq!(x.same_as(y), i == j);
        }
    }
    assert_eq!(simple("orders").as_template_string(), "orders");
    assert_eq!(ObjectTypeAssociation::new_o2o("orders", "items").as_template_string(), "orders>items");
    assert_eq!(
        ObjectTypeAssociation::new_o2o_rev("orders", "items").as_template_string(),
        "orders<items"
    );
    assert_eq!(simple("orders").clone(), simple("orders"));
}

#[test]
fn domination_follows_the_strictness_of_the_lists() {
    let a = label(&["x"], &["y"], &["z"]);
    assert!(a.is_dominated_by(&a));
    assert!(label(&[], &["x"], &[]).is_dominated_by(&label(&["x"], &[], &[])));
    assert!(label(&[], &["x"], &[]).is_dominated_by(&label(&[], &[], &["x"])));
    assert!(label(&["x"], &[], &[]).is_dominated_by(&label(&[], &[], &["x"])));
    assert!(!label(&["x"], &[], &[]).is_dominated_by(&label(&[], &["x"], &[])));
    assert!(!label(&[], &[], &["x"]).is_dominated_by(&label(&["x"], &[], &[])));
    assert!(label(&[], &[], &[]).is_dominated_by(&a));
    assert!(!a.is_dominated_by(&label(&[], &[], &[])));
    let b = label(&["x"], &[], &["y", "z"]);
    let c = label(&[], &[], &["x", "y", "z", "w"]);
    assert!(a.is_dominated_by(&b));
    assert!(b.is_dominated_by(&c));
    assert!(a.is_dominated_by(&c));
}

#[test]
fn combine_is_canonical() {
    let a = label(&["b", "a"], &["c", "a"], &["d"]);
    let b = label(&["d", "a"], &["e", "b"], &["c"]);
    let c = a.combine(&b);
    assert_eq!(c, label(&["a", "b"], &["e"], &["c", "d"]));
    assert_eq!(b.combine(&a), c);
    assert!(a.is_dominated_by(&c));
    assert!(b.is_dominated_by(&c));
    assert_eq!(c.combine(&c), c);
    assert_eq!(a.join_with(&b), c);
    assert_eq!(c.size(), 5);
    assert!(c.same_label(&b.combine(&a)));
    assert!(!c.same_label(&a));
}

#[test]
fn intersect_keeps_what_both_ask_for() {
    let a = label(&["e1", "e2"], &["n1", "n2"], &["l1", "l2", "l3"]);
    let b = label(&["l2", "e1", "n1"], &["l3", "e2", "n2"], &["l1"]);
    let c = a.intersect(&b);
    assert_eq!(c, label(&["e1", "l2"], &["n1", "n2", "e2", "l3"], &["l1"]));
    let d = a.intersect(&label(&["l2"], &["e1"], &[]));
    assert_eq!(d, label(&["l2"], &["e1"], &[]));
    let nothing = a.intersect(&label(&[], &[], &[]));
    assert_eq!(nothing, label(&[], &[], &[]));
    assert_eq!(a.intersect(&a), a);
}

#[test]
fn labels_render_their_groups() {
    assert_eq!(label(&[], &[], &[]).as_template_string(), "");
    assert_eq!(label(&["a"], &[], &[]).as_template_string(), "Each(a)");
    assert_eq!(label(&["a", "b"], &[], &["c"]).as_template_string(), "Each(a,b), All(c)");
    assert_eq!(label(&[], &[], &["c", "d"]).as_template_string(), "All(c,d)");
    assert_eq!(label(&["a"], &["e"], &["c"]).as_template_string(), "Each(a), All(c), Any(e)");
    assert_eq!(label(&[], &["e"], &[]).as_template_string(), ", Any(e)");
}

#[test]
fn arcs_render_as_templates() {
    let a = OCDeclareArc {
        from: OCDeclareNode::new("place order"),
        to: OCDeclareNode::new_act("ship order"),
        arc_type: OCDeclareArcType::EF,
        label: label(&["orders"], &[], &[]),
        counts: (Some(1), None),
    };
    assert_eq!(a.as_template_string(), "EF(place order, ship order, Each(orders),1,∞)");
    let b = a.clone_with_arc_type(OCDeclareArcType::DFREV);
    assert_eq!(b.arc_type, OCDeclareArcType::DFREV);
    assert_eq!(b.label, a.label);
    let c = OCDeclareArc { counts: (None, Some(20)), ..b };
    assert_eq!(c.as_template_string(), "DP(place order, ship order, Each(orders),0,20)");
    let names: Vec<&str> = [
        OCDeclareArcType::ASS,
        OCDeclareArcType::EF,
        OCDeclareArcType::EFREV,
        OCDeclareArcType::DF,
        OCDeclareArcType::DFREV,
        OCDeclareArcType::ALTEF,
        OCDeclareArcType::ALTEFREV,
    ]
    .iter()
    .map(|t| t.get_name())
    .collect();
    assert_eq!(names, vec!["AS", "EF", "EP", "DF", "DP", "AF", "AP"]);
    assert_eq!(OCDeclareNode::new_ob_init("orders").as_str(), "<init> orders");
    assert_eq!(OCDeclareNode::new_ob_end("orders").as_str(), "<exit> orders");
}

fn event(activity: &str, objects: &[usize]) -> LogEvent {
    LogEvent { id: "e".to_string(), activity: activity.to_string(), objects: objects.to_vec() }
}

fn object(object_type: &str, related: &[usize]) -> LogObject {
    LogObject { id: "o".to_string(), object_type: object_type.to_string(), related: related.to_vec() }
}

#[test]
fn a_log_has_no_dangling_references() {
    let build = |event_types: &[&str], object_types: &[&str], events: Vec<LogEvent>, objects: Vec<LogObject>| {
        IndexedLog::new(names(event_types), names(object_types), events, objects)
    };
    assert!(build(&["a"], &["t"], vec![event("a", &[0])], vec![object("t", &[])]).is_some());
    assert!(build(&[], &[], vec![], vec![]).is_some());
    assert!(build(&["a"], &["t"], vec![event("a", &[1])], vec![object("t", &[])]).is_none());
    assert!(build(&["a"], &["t"], vec![event("b", &[0])], vec![object("t", &[])]).is_none());
    assert!(build(&["a"], &["t"], vec![event("a", &[0])], vec![object("u", &[])]).is_none());
    assert!(build(&["a"], &["t"], vec![event("a", &[0, 0])], vec![object("t", &[])]).is_none());
    assert!(build(
        &["a"],
        &["t"],
        vec![event("a", &[1, 0])],
        vec![object("t", &[]), object("t", &[])]
    )
    .is_none());
    assert!(build(&["a"], &["t"], vec![], vec![object("t", &[1])]).is_none());
    assert!(build(&["a", "a"], &["t"], vec![], vec![]).is_none());
    assert!(build(&["a"], &["t", "t"], vec![], vec![]).is_none());
}

#[test]
fn a_log_answers_lookups() {
    let log = IndexedLog::new(
        names(&["a", "b"]),
        names(&["t", "u"]),
        vec![event("a", &[0, 1]), event("b", &[1]), event("a", &[2])],
        vec![object("t", &[1, 2]), object("u", &[]), object("u", &[1])],
    )
    .unwrap();
    assert_eq!(log.event_count(), 3);
    assert_eq!(log.object_count(), 3);
    assert_eq!(log.event_types(), &names(&["a", "b"]));
    assert_eq!(log.object_types(), &names(&["t", "u"]));
    assert_eq!(log.events_of("a"), vec![0, 2]);
    assert_eq!(log.events_of("c"), Vec::<usize>::new());
    assert_eq!(log.objects_of("u"), vec![1, 2]);
    assert_eq!(log.object_events(1), &vec![0, 1]);
    assert_eq!(log.object_events(2), &vec![2]);
    assert_eq!(log.linked_from(1), &vec![0, 2]);
    assert_eq!(log.linked_from(0), &Vec::<usize>::new());
    assert_eq!(log.event(1).activity, "b");
    assert_eq!(log.object(0).related, vec![1, 2]);
}

fn timed(id: &str, activity: &str, time: i64, objects: &[usize]) -> TimedEvent {
    TimedEvent { id: id.to_string(), activity: activity.to_string(), time, objects: objects.to_vec() }
}

fn named(id: &str, object_type: &str) -> LogObject {
    LogObject { id: id.to_string(), object_type: object_type.to_string(), related: vec![] }
}

#[test]
fn preprocessing_adds_bookends_in_the_order_of_time() {
    let log = preprocess_ocel(
        names(&["place", "ship", "other"]),
        names(&["orders", "items"]),
        vec![
            timed("e1", "ship", 20, &[0]),
            timed("e0", "place", 10, &[0]),
            timed("e2", "other", 9, &[]),
            timed("e3", "other", 21, &[]),
        ],
        vec![named("o0", "orders"), named("i1", "items")],
    )
    .unwrap();
    assert_eq!(
        log.event_types(),
        &names(&[
            "place",
            "ship",
            "other",
            "<init> orders",
            "<exit> orders",
            "<init> items",
            "<exit> items"
        ])
    );
    let seen: Vec<(String, String, Vec<usize>)> = (0..log.event_count())
        .map(|e| {
            let ev = log.event(e);
            (ev.id.clone(), ev.activity.clone(), ev.objects.clone())
        })
        .collect();
    let expected: Vec<(String, String, Vec<usize>)> = [
        ("<init>_items_i1", "<init> items", vec![1]),
        ("<exit>_items_i1", "<exit> items", vec![1]),
        ("e2", "other", vec![]),
        ("<init>_orders_o0", "<init> orders", vec![0]),
        ("e0", "place", vec![0]),
        ("e1", "ship", vec![0]),
        ("e3", "other", vec![]),
        ("<exit>_orders_o0", "<exit> orders", vec![0]),
    ]
    .iter()
    .map(|(id, act, obs)| (id.to_string(), act.to_string(), obs.clone()))
    .collect();
    assert_eq!(seen, expected);
    assert_eq!(log.object_events(0), &vec![3, 4, 5, 7]);
}

#[test]
fn preprocessing_stops_at_the_ends_of_time() {
    let log = preprocess_ocel(
        names(&["a"]),
        names(&["t"]),
        vec![timed("e0", "a", i64::MIN, &[0]), timed("e1", "a", i64::MAX, &[0])],
        vec![named("x", "t")],
    )
    .unwrap();
    let ids: Vec<String> = (0..4).map(|e| log.event(e).id.clone()).collect();
    assert_eq!(ids, vec!["e0", "<init>_t_x", "e1", "<exit>_t_x"]);
}

#[test]
fn preprocessing_refuses_what_is_no_log() {
    assert!(preprocess_ocel(
        names(&["a", "<init> t"]),
        names(&["t"]),
        vec![],
        vec![named("x", "t")]
    )
    .is_none());
    assert!(preprocess_ocel(names(&["a"]), names(&["t"]), vec![timed("e", "a", 0, &[3])], vec![])
        .is_none());
    assert!(preprocess_ocel(names(&["a"]), names(&["t"]), vec![], vec![named("x", "u")]).is_none());
}
