use oc_declare::arc::{OCDeclareArc, OCDeclareArcType, OCDeclareNode};
use oc_declare::association::ObjectTypeAssociation;
use oc_declare::interchange::{get_member, get_text, Json};
use oc_declare::label::OCDeclareArcLabel;

fn text(s: &str) -> Json {
    Json::Text(s.to_string())
}

fn object(members: Vec<(&str, Json)>) -> Json {
    Json::Object(members.into_iter().map(|(k, v)| (k.to_string(), v)).collect())
}

fn sample_label() -> OCDeclareArcLabel {
    OCDeclareArcLabel {
        each: vec![ObjectTypeAssociation::new_simple("orders")],
        any: vec![],
        all: vec![ObjectTypeAssociation::new_o2o_rev("orders", "items")],
    }
}

fn sample_arc() -> OCDeclareArc {
    OCDeclareArc {
        from: OCDeclareNode::new("place order"),
        to: OCDeclareNode::new("ship order"),
        arc_type: OCDeclareArcType::EF,
        label: sample_label(),
        counts: (Some(1), None),
    }
}

fn sample_tree() -> Json {
    object(vec![
        ("from", text("place order")),
        ("to", text("ship order")),
        ("arc_type", text("EF")),
        (
            "label",
            object(vec![
                (
                    "each",
                    Json::Array(vec![object(vec![
                        ("type", text("Simple")),
                        ("object_type", text("orders")),
                    ])]),
                ),
                ("any", Json::Array(vec![])),
                (
                    "all",
                    Json::Array(vec![object(vec![
                        ("type", text("O2O")),
                        ("first", text("orders")),
                        ("second", text("items")),
                        ("reversed", Json::Bool(true)),
                    ])]),
                ),
            ]),
        ),
        ("counts", Json::Array(vec![Json::Number(1), Json::Null])),
    ])
}

#[test]
fn arcs_are_written_as_tagged_objects() {
    assert_eq!(sample_arc().to_json(), sample_tree());
}

#[test]
fn arcs_are_read_back() {
    assert_eq!(OCDeclareArc::from_json(&sample_tree()), Some(sample_arc()));
}

#[test]
fn every_arc_survives_the_round_trip() {
    let types = [
        OCDeclareArcType::ASS,
        OCDeclareArcType::EF,
        OCDeclareArcType::EFREV,
        OCDeclareArcType::DF,
        OCDeclareArcType::DFREV,
        OCDeclareArcType::ALTEF,
        OCDeclareArcType::ALTEFREV,
    ];
    let bounds = [(None, None), (Some(0), None), (None, Some(20)), (Some(1), Some(usize::MAX))];
    let labels = [
        OCDeclareArcLabel { each: vec![], any: vec![], all: vec![] },
        sample_label(),
        OCDeclareArcLabel {
            each: vec![ObjectTypeAssociation::new_o2o("a", "b")],
            any: vec![ObjectTypeAssociation::new_simple("c"), ObjectTypeAssociation::new_simple("c")],
            all: vec![],
        },
    ];
    for t in types.iter() {
        for counts in bounds.iter() {
            for label in labels.iter() {
                let arc = OCDeclareArc {
                    from: OCDeclareNode::new("a \"quoted\" activity"),
                    to: OCDeclareNode::new(""),
                    arc_type: *t,
                    label: label.clone(),
                    counts: *counts,
                };
                assert_eq!(OCDeclareArc::from_json(&arc.to_json()), Some(arc));
            }
        }
    }
}

#[test]
fn reading_passes_over_other_members_and_takes_any_order() {
    let tree = object(vec![
        ("counts", Json::Array(vec![Json::Null, Json::Number(3)])),
        ("comment", text("kept by hand")),
        ("label", sample_label().to_json()),
        ("arc_type", text("ALTEFREV")),
        ("to", text("b")),
        ("from", text("a")),
    ]);
    let arc = OCDeclareArc::from_json(&tree).unwrap();
    assert_eq!(arc.arc_type, OCDeclareArcType::ALTEFREV);
    assert_eq!(arc.counts, (None, Some(3)));
    assert_eq!(arc.from.as_str(), "a");
    assert_eq!(arc.label, sample_label());
}

fn without(tree: &Json, key: &str) -> Json {
    match tree {
        Json::Object(members) => Json::Object(
            members
                .iter()
                .filter(|(k, _)| k != key)
                .map(|(k, v)| (k.clone(), copy(v)))
                .collect(),
        ),
        other => copy(other),
    }
}

fn copy(tree: &Json) -> Json {
    match tree {
        Json::Null => Json::Null,
        Json::Bool(b) => Json::Bool(*b),
        Json::Number(n) => Json::Number(*n),
        Json::OtherNumber => Json::OtherNumber,
        Json::Text(s) => Json::Text(s.clone()),
        Json::Array(items) => Json::Array(items.iter().map(copy).collect()),
        Json::Object(members) => {
            Json::Object(members.iter().map(|(k, v)| (k.clone(), copy(v))).collect())
        }
    }
}

fn with(tree: &Json, key: &str, value: Json) -> Json {
    match without(tree, key) {
        Json::Object(mut members) => {
            members.push((key.to_string(), value));
            Json::Object(members)
        }
        other => other,
    }
}

#[test]
fn malformed_definitions_are_refused() {
    let good = sample_tree();
    for key in ["from", "to", "arc_type", "label", "counts"] {
        assert_eq!(OCDeclareArc::from_json(&without(&good, key)), None);
    }
    assert_eq!(OCDeclareArc::from_json(&with(&good, "arc_type", text("XF"))), None);
    assert_eq!(OCDeclareArc::from_json(&with(&good, "from", Json::Number(1))), None);
    assert_eq!(
        OCDeclareArc::from_json(&with(&good, "counts", Json::Array(vec![Json::Number(1)]))),
        None
    );
    assert_eq!(
        OCDeclareArc::from_json(&with(
            &good,
            "counts",
            Json::Array(vec![Json::OtherNumber, Json::Null])
        )),
        None
    );
    assert_eq!(
        OCDeclareArc::from_json(&with(&good, "counts", Json::Array(vec![text("1"), Json::Null]))),
        None
    );
    assert_eq!(OCDeclareArc::from_json(&Json::Array(vec![])), None);
    assert_eq!(OCDeclareArc::from_json(&Json::Null), None);
    let label = sample_label().to_json();
    assert_eq!(OCDeclareArcLabel::from_json(&without(&label, "any")), None);
    assert_eq!(OCDeclareArcLabel::from_json(&with(&label, "any", Json::Null)), None);
    assert_eq!(
        OCDeclareArcLabel::from_json(&with(&label, "any", Json::Array(vec![Json::Null]))),
        None
    );
    let hop = ObjectTypeAssociation::new_o2o("a", "b").to_json();
    assert_eq!(ObjectTypeAssociation::from_json(&without(&hop, "reversed")), None);
    assert_eq!(ObjectTypeAssociation::from_json(&with(&hop, "type", text("Hop"))), None);
    assert_eq!(
        ObjectTypeAssociation::from_json(&with(&hop, "type", text("Simple"))),
        None
    );
}

#[test]
fn members_are_found_by_name() {
    let tree = object(vec![("a", Json::Number(1)), ("b", text("x")), ("a", Json::Number(2))]);
    assert_eq!(get_member(&tree, "a"), Some(&Json::Number(1)));
    assert_eq!(get_member(&tree, "c"), None);
    assert_eq!(get_text(&tree, "b"), Some(&"x".to_string()));
    assert_eq!(get_text(&tree, "a"), None);
    assert_eq!(get_member(&Json::Null, "a"), None);
    assert_eq!(OCDeclareArcType::from_tag("DFREV"), Some(OCDeclareArcType::DFREV));
    assert_eq!(OCDeclareArcType::from_tag("dfrev"), None);
    assert_eq!(OCDeclareArcType::ALTEF.tag(), "ALTEF");
}
