//! The interchange form of constraints: a tree of tagged, named values that callers
//! read and write as JSON.

use vstd::prelude::*;
use vstd::string::*;
use crate::arc::{ArcView, OCDeclareArc, OCDeclareArcType, OCDeclareNode};
use crate::association::{assoc_views, AssociationView, ObjectTypeAssociation};
use crate::label::{LabelView, OCDeclareArcLabel};
use crate::text::same_str;

verus! {

/// A value of the interchange form.
#[derive(Debug, PartialEq, Eq)]
pub enum Json {
    Null,
    Bool(bool),
    /// A number that is a count.
    Number(usize),
    /// A number that is no count.
    OtherNumber,
    Text(String),
    Array(Vec<Json>),
    /// The named members of an object, in order.
    Object(Vec<(String, Json)>),
}

/// The mathematical value of a [`Json`].
pub enum JsonView {
    Null,
    Bool(bool),
    Number(usize),
    OtherNumber,
    Text(Seq<char>),
    Array(Seq<JsonView>),
    Object(Seq<(Seq<char>, JsonView)>),
}

impl Json {
    /// The mathematical value of the tree.
    pub open spec fn value(self) -> JsonView
        decreases self,
    {
        match self {
            Json::Null => JsonView::Null,
            Json::Bool(b) => JsonView::Bool(b),
            Json::Number(n) => JsonView::Number(n),
            Json::OtherNumber => JsonView::OtherNumber,
            Json::Text(s) => JsonView::Text(s@),
            Json::Array(v) => JsonView::Array(
                Seq::new(
                    v@.len(),
                    |i: int|
                        if 0 <= i < v@.len() {
                            v@[i].value()
                        } else {
                            JsonView::Null
                        },
                ),
            ),
            Json::Object(v) => JsonView::Object(
                Seq::new(
                    v@.len(),
                    |i: int|
                        if 0 <= i < v@.len() {
                            (v@[i].0@, v@[i].1.value())
                        } else {
                            (Seq::empty(), JsonView::Null)
                        },
                ),
            ),
        }
    }
}

/// The tag of an arc type.
pub open spec fn type_tag(t: OCDeclareArcType) -> Seq<char> {
    match t {
        OCDeclareArcType::ASS => "ASS"@,
        OCDeclareArcType::EF => "EF"@,
        OCDeclareArcType::EFREV => "EFREV"@,
        OCDeclareArcType::DF => "DF"@,
        OCDeclareArcType::DFREV => "DFREV"@,
        OCDeclareArcType::ALTEF => "ALTEF"@,
        OCDeclareArcType::ALTEFREV => "ALTEFREV"@,
    }
}

/// The interchange form of an association: an object with the member `type`, which is
/// `Simple` or `O2O`, and the parts of the association as members.
pub open spec fn assoc_json(a: AssociationView) -> JsonView {
    match a {
        AssociationView::Simple { object_type } => JsonView::Object(
            seq![("type"@, JsonView::Text("Simple"@)), ("object_type"@, JsonView::Text(object_type))],
        ),
        AssociationView::O2O { first, second, reversed } => JsonView::Object(
            seq![
                ("type"@, JsonView::Text("O2O"@)),
                ("first"@, JsonView::Text(first)),
                ("second"@, JsonView::Text(second)),
                ("reversed"@, JsonView::Bool(reversed)),
            ],
        ),
    }
}

/// The interchange form of a list of associations: the array of their forms.
pub open spec fn assocs_json(s: Seq<AssociationView>) -> JsonView {
    JsonView::Array(s.map_values(|a: AssociationView| assoc_json(a)))
}

/// The interchange form of a label: an object with the members `each`, `any` and `all`.
pub open spec fn label_json(l: LabelView) -> JsonView {
    JsonView::Object(
        seq![
            ("each"@, assocs_json(l.each)),
            ("any"@, assocs_json(l.any)),
            ("all"@, assocs_json(l.all)),
        ],
    )
}

/// The interchange form of a bound: the number, or null where the end is open.
pub open spec fn count_json(c: Option<usize>) -> JsonView {
    match c {
        Some(n) => JsonView::Number(n),
        None => JsonView::Null,
    }
}

/// The interchange form of an arc: an object with the members `from`, `to`, `arc_type`,
/// `label` and `counts`, the last an array of the lower and the upper bound.
pub open spec fn arc_json(a: ArcView) -> JsonView {
    JsonView::Object(
        seq![
            ("from"@, JsonView::Text(a.from)),
            ("to"@, JsonView::Text(a.to)),
            ("arc_type"@, JsonView::Text(type_tag(a.arc_type))),
            ("label"@, label_json(a.label)),
            ("counts"@, JsonView::Array(seq![count_json(a.counts.0), count_json(a.counts.1)])),
        ],
    )
}

/// The first member of the name `key` among the first `k` members.
pub open spec fn member(fields: Seq<(Seq<char>, JsonView)>, key: Seq<char>, k: nat) -> Option<
    JsonView,
>
    decreases k,
{
    if k == 0 {
        None
    } else {
        match member(fields, key, (k - 1) as nat) {
            Some(x) => Some(x),
            None => if fields[k - 1].0 == key {
                Some(fields[k - 1].1)
            } else {
                None
            },
        }
    }
}

/// The member of the name `key` of an object, if the value is an object that has one.
pub open spec fn field(j: JsonView, key: Seq<char>) -> Option<JsonView> {
    match j {
        JsonView::Object(fields) => member(fields, key, fields.len()),
        _ => None,
    }
}

/// The text that the member `key` holds, if it holds one.
pub open spec fn text_field(j: JsonView, key: Seq<char>) -> Option<Seq<char>> {
    match field(j, key) {
        Some(JsonView::Text(s)) => Some(s),
        _ => None,
    }
}

/// The association that a value is the interchange form of, if any.
pub open spec fn json_assoc(j: JsonView) -> Option<AssociationView> {
    match text_field(j, "type"@) {
        Some(tag) => if tag == "Simple"@ {
            match text_field(j, "object_type"@) {
                Some(object_type) => Some(AssociationView::Simple { object_type }),
                None => None,
            }
        } else if tag == "O2O"@ {
            match (text_field(j, "first"@), text_field(j, "second"@), field(j, "reversed"@)) {
                (Some(first), Some(second), Some(JsonView::Bool(reversed))) => Some(
                    AssociationView::O2O { first, second, reversed },
                ),
                _ => None,
            }
        } else {
            None
        },
        None => None,
    }
}

/// The associations that the first `k` values are the interchange forms of, if each is
/// one.
pub open spec fn json_assoc_items(items: Seq<JsonView>, k: nat) -> Option<Seq<AssociationView>>
    decreases k,
{
    if k == 0 {
        Some(Seq::empty())
    } else {
        match (json_assoc_items(items, (k - 1) as nat), json_assoc(items[k - 1])) {
            (Some(rest), Some(a)) => Some(rest.push(a)),
            _ => None,
        }
    }
}

/// The list of associations that the member `key` holds, if it holds one.
pub open spec fn assocs_field(j: JsonView, key: Seq<char>) -> Option<Seq<AssociationView>> {
    match field(j, key) {
        Some(JsonView::Array(items)) => json_assoc_items(items, items.len()),
        _ => None,
    }
}

/// The label that a value is the interchange form of, if any.
pub open spec fn json_label(j: JsonView) -> Option<LabelView> {
    match (assocs_field(j, "each"@), assocs_field(j, "any"@), assocs_field(j, "all"@)) {
        (Some(each), Some(any), Some(all)) => Some(LabelView { each, any, all }),
        _ => None,
    }
}

/// The arc type of a tag, if it is one.
pub open spec fn tag_type(tag: Seq<char>) -> Option<OCDeclareArcType> {
    if tag == "ASS"@ {
        Some(OCDeclareArcType::ASS)
    } else if tag == "EF"@ {
        Some(OCDeclareArcType::EF)
    } else if tag == "EFREV"@ {
        Some(OCDeclareArcType::EFREV)
    } else if tag == "DF"@ {
        Some(OCDeclareArcType::DF)
    } else if tag == "DFREV"@ {
        Some(OCDeclareArcType::DFREV)
    } else if tag == "ALTEF"@ {
        Some(OCDeclareArcType::ALTEF)
    } else if tag == "ALTEFREV"@ {
        Some(OCDeclareArcType::ALTEFREV)
    } else {
        None
    }
}

/// The bound that a value is the interchange form of, if any.
pub open spec fn json_count(j: JsonView) -> Option<Option<usize>> {
    match j {
        JsonView::Number(n) => Some(Some(n)),
        JsonView::Null => Some(None),
        _ => None,
    }
}

/// The bounds that a value is the interchange form of, if any.
pub open spec fn json_counts(j: JsonView) -> Option<(Option<usize>, Option<usize>)> {
    match j {
        JsonView::Array(items) => if items.len() == 2 {
            match (json_count(items[0]), json_count(items[1])) {
                (Some(min), Some(max)) => Some((min, max)),
                _ => None,
            }
        } else {
            None
        },
        _ => None,
    }
}

/// The arc that a value is the interchange form of, if any. Members of other names are
/// passed over.
pub open spec fn json_arc(j: JsonView) -> Option<ArcView> {
    match (text_field(j, "from"@), text_field(j, "to"@), text_field(j, "arc_type"@)) {
        (Some(from), Some(to), Some(tag)) => match (
            tag_type(tag),
            field(j, "label"@),
            field(j, "counts"@),
        ) {
            (Some(arc_type), Some(l), Some(c)) => match (json_label(l), json_counts(c)) {
                (Some(label), Some(counts)) => Some(ArcView { from, to, arc_type, label, counts }),
                _ => None,
            },
            _ => None,
        },
        _ => None,
    }
}

proof fn reveal_names()
    ensures
        "type"@ == seq!['t', 'y', 'p', 'e'],
        "Simple"@ == seq!['S', 'i', 'm', 'p', 'l', 'e'],
        "O2O"@ == seq!['O', '2', 'O'],
        "object_type"@ == seq!['o', 'b', 'j', 'e', 'c', 't', '_', 't', 'y', 'p', 'e'],
        "first"@ == seq!['f', 'i', 'r', 's', 't'],
        "second"@ == seq!['s', 'e', 'c', 'o', 'n', 'd'],
        "reversed"@ == seq!['r', 'e', 'v', 'e', 'r', 's', 'e', 'd'],
        "each"@ == seq!['e', 'a', 'c', 'h'],
        "any"@ == seq!['a', 'n', 'y'],
        "all"@ == seq!['a', 'l', 'l'],
        "from"@ == seq!['f', 'r', 'o', 'm'],
        "to"@ == seq!['t', 'o'],
        "arc_type"@ == seq!['a', 'r', 'c', '_', 't', 'y', 'p', 'e'],
        "label"@ == seq!['l', 'a', 'b', 'e', 'l'],
        "counts"@ == seq!['c', 'o', 'u', 'n', 't', 's'],
        "ASS"@ == seq!['A', 'S', 'S'],
        "EF"@ == seq!['E', 'F'],
        "EFREV"@ == seq!['E', 'F', 'R', 'E', 'V'],
        "DF"@ == seq!['D', 'F'],
        "DFREV"@ == seq!['D', 'F', 'R', 'E', 'V'],
        "ALTEF"@ == seq!['A', 'L', 'T', 'E', 'F'],
        "ALTEFREV"@ == seq!['A', 'L', 'T', 'E', 'F', 'R', 'E', 'V'],
{
    reveal_strlit("type");
    reveal_strlit("Simple");
    reveal_strlit("O2O");
    reveal_strlit("object_type");
    reveal_strlit("first");
    reveal_strlit("second");
    reveal_strlit("reversed");
    reveal_strlit("each");
    reveal_strlit("any");
    reveal_strlit("all");
    reveal_strlit("from");
    reveal_strlit("to");
    reveal_strlit("arc_type");
    reveal_strlit("label");
    reveal_strlit("counts");
    reveal_strlit("ASS");
    reveal_strlit("EF");
    reveal_strlit("EFREV");
    reveal_strlit("DF");
    reveal_strlit("DFREV");
    reveal_strlit("ALTEF");
    reveal_strlit("ALTEFREV");
    assert("type"@ =~= seq!['t', 'y', 'p', 'e']);
    assert("Simple"@ =~= seq!['S', 'i', 'm', 'p', 'l', 'e']);
    assert("O2O"@ =~= seq!['O', '2', 'O']);
    assert("object_type"@ =~= seq!['o', 'b', 'j', 'e', 'c', 't', '_', 't', 'y', 'p', 'e']);
    assert("first"@ =~= seq!['f', 'i', 'r', 's', 't']);
    assert("second"@ =~= seq!['s', 'e', 'c', 'o', 'n', 'd']);
    assert("reversed"@ =~= seq!['r', 'e', 'v', 'e', 'r', 's', 'e', 'd']);
    assert("each"@ =~= seq!['e', 'a', 'c', 'h']);
    assert("any"@ =~= seq!['a', 'n', 'y']);
    assert("all"@ =~= seq!['a', 'l', 'l']);
    assert("from"@ =~= seq!['f', 'r', 'o', 'm']);
    assert("to"@ =~= seq!['t', 'o']);
    assert("arc_type"@ =~= seq!['a', 'r', 'c', '_', 't', 'y', 'p', 'e']);
    assert("label"@ =~= seq!['l', 'a', 'b', 'e', 'l']);
    assert("counts"@ =~= seq!['c', 'o', 'u', 'n', 't', 's']);
    assert("ASS"@ =~= seq!['A', 'S', 'S']);
    assert("EF"@ =~= seq!['E', 'F']);
    assert("EFREV"@ =~= seq!['E', 'F', 'R', 'E', 'V']);
    assert("DF"@ =~= seq!['D', 'F']);
    assert("DFREV"@ =~= seq!['D', 'F', 'R', 'E', 'V']);
    assert("ALTEF"@ =~= seq!['A', 'L', 'T', 'E', 'F']);
    assert("ALTEFREV"@ =~= seq!['A', 'L', 'T', 'E', 'F', 'R', 'E', 'V']);
}

proof fn lemma_differ(a: Seq<char>, b: Seq<char>, i: int)
    requires
        a.len() != b.len() || (0 <= i < a.len() && a[i] != b[i]),
    ensures
        a != b,
{
}

/// Reading the interchange form of an association gives the association.
pub proof fn lemma_assoc_round_trip(a: AssociationView)
    ensures
        json_assoc(assoc_json(a)) == Some(a),
{
    reveal_names();
    reveal_with_fuel(member, 5);
    lemma_differ("type"@, "object_type"@, 0);
    lemma_differ("type"@, "first"@, 0);
    lemma_differ("type"@, "second"@, 0);
    lemma_differ("type"@, "reversed"@, 0);
    lemma_differ("first"@, "second"@, 0);
    lemma_differ("first"@, "reversed"@, 0);
    lemma_differ("second"@, "reversed"@, 0);
    lemma_differ("Simple"@, "O2O"@, 0);
}

proof fn lemma_assoc_items_round_trip(s: Seq<AssociationView>, k: nat)
    requires
        k <= s.len(),
    ensures
        json_assoc_items(s.map_values(|a: AssociationView| assoc_json(a)), k) == Some(
            s.subrange(0, k as int),
        ),
    decreases k,
{
    let items = s.map_values(|a: AssociationView| assoc_json(a));
    if k == 0 {
        assert(s.subrange(0, 0) =~= Seq::empty());
    } else {
        lemma_assoc_items_round_trip(s, (k - 1) as nat);
        lemma_assoc_round_trip(s[k - 1]);
        assert(s.subrange(0, k as int) =~= s.subrange(0, k - 1).push(s[k - 1]));
    }
}

/// Reading the interchange form of a label gives the label.
pub proof fn lemma_label_round_trip(l: LabelView)
    ensures
        json_label(label_json(l)) == Some(l),
{
    reveal_names();
    reveal_with_fuel(member, 4);
    lemma_differ("each"@, "any"@, 0);
    lemma_differ("each"@, "all"@, 0);
    lemma_differ("any"@, "all"@, 1);
    lemma_assoc_items_round_trip(l.each, l.each.len());
    lemma_assoc_items_round_trip(l.any, l.any.len());
    lemma_assoc_items_round_trip(l.all, l.all.len());
    assert(l.each.subrange(0, l.each.len() as int) =~= l.each);
    assert(l.any.subrange(0, l.any.len() as int) =~= l.any);
    assert(l.all.subrange(0, l.all.len() as int) =~= l.all);
}

proof fn lemma_tag_round_trip(t: OCDeclareArcType)
    ensures
        tag_type(type_tag(t)) == Some(t),
{
    reveal_names();
    lemma_differ("ASS"@, "EF"@, 0);
    lemma_differ("EF"@, "EFREV"@, 0);
    lemma_differ("EF"@, "DF"@, 0);
    lemma_differ("EFREV"@, "DFREV"@, 0);
    lemma_differ("EFREV"@, "ALTEF"@, 0);
    lemma_differ("DFREV"@, "ALTEF"@, 0);
    lemma_differ("ASS"@, "DF"@, 0);
    lemma_differ("ASS"@, "EFREV"@, 0);
    lemma_differ("ASS"@, "DFREV"@, 0);
    lemma_differ("ASS"@, "ALTEF"@, 0);
    lemma_differ("ASS"@, "ALTEFREV"@, 0);
    lemma_differ("EF"@, "ALTEFREV"@, 0);
    lemma_differ("DF"@, "ALTEFREV"@, 0);
}

/// Writing an arc in the interchange form and reading it back gives the arc: for every
/// arc type, bounds with open or closed ends, and every label.
pub proof fn lemma_arc_round_trip(a: ArcView)
    ensures
        json_arc(arc_json(a)) == Some(a),
{
    reveal_names();
    reveal_with_fuel(member, 6);
    lemma_differ("from"@, "to"@, 0);
    lemma_differ("from"@, "arc_type"@, 0);
    lemma_differ("from"@, "label"@, 0);
    lemma_differ("from"@, "counts"@, 0);
    lemma_differ("to"@, "arc_type"@, 0);
    lemma_differ("to"@, "label"@, 0);
    lemma_differ("to"@, "counts"@, 0);
    lemma_differ("arc_type"@, "label"@, 0);
    lemma_differ("arc_type"@, "counts"@, 0);
    lemma_differ("label"@, "counts"@, 0);
    lemma_tag_round_trip(a.arc_type);
    lemma_label_round_trip(a.label);
    let c = JsonView::Array(seq![count_json(a.counts.0), count_json(a.counts.1)]);
    assert(json_counts(c) == Some(a.counts));
}

proof fn lemma_member_stays(fields: Seq<(Seq<char>, JsonView)>, key: Seq<char>, k: nat, n: nat)
    requires
        k <= n,
        member(fields, key, k) is Some,
    ensures
        member(fields, key, n) == member(fields, key, k),
    decreases n,
{
    if n > k {
        lemma_member_stays(fields, key, k, (n - 1) as nat);
    }
}

fn text_json(s: &str) -> (r: Json)
    ensures
        r.value() == JsonView::Text(s@),
{
    Json::Text(String::from_str(s))
}

fn named(key: &str, value: Json) -> (r: (String, Json))
    ensures
        r.0@ == key@,
        r.1 == value,
{
    (String::from_str(key), value)
}

/// The member of the name `key` of an object.
pub fn get_member<'a>(j: &'a Json, key: &str) -> (r: Option<&'a Json>)
    ensures
        match r {
            Some(x) => field(j.value(), key@) == Some(x.value()),
            None => field(j.value(), key@) is None,
        },
{
    match j {
        Json::Object(fields) => {
            let ghost fv = j.value()->Object_0;
            let mut k: usize = 0;
            while k < fields.len()
                invariant
                    k <= fields.len(),
                    j.value() == JsonView::Object(fv),
                    fv.len() == fields@.len(),
                    forall|i: int|
                        0 <= i < fields@.len() ==> (#[trigger] fv[i]) == (
                            fields@[i].0@,
                            fields@[i].1.value(),
                        ),
                    member(fv, key@, k as nat) is None,
                decreases fields.len() - k,
            {
                if same_str(fields[k].0.as_str(), key) {
                    proof {
                        assert(fv[k as int] == (fields@[k as int].0@, fields@[k as int].1.value()));
                        assert(member(fv, key@, k as nat + 1) == Some(fv[k as int].1));
                        lemma_member_stays(fv, key@, k as nat + 1, fv.len());
                    }
                    return Some(&fields[k].1);
                }
                proof {
                    assert(fv[k as int] == (fields@[k as int].0@, fields@[k as int].1.value()));
                }
                k += 1;
            }
            None
        },
        _ => None,
    }
}

/// The text that the member `key` holds.
pub fn get_text<'a>(j: &'a Json, key: &str) -> (r: Option<&'a String>)
    ensures
        match r {
            Some(s) => text_field(j.value(), key@) == Some(s@),
            None => text_field(j.value(), key@) is None,
        },
{
    match get_member(j, key) {
        Some(Json::Text(s)) => Some(s),
        _ => None,
    }
}

impl ObjectTypeAssociation {
    /// The association in the interchange form.
    pub fn to_json(&self) -> (r: Json)
        ensures
            r.value() == assoc_json(self@),
    {
        let mut fields: Vec<(String, Json)> = Vec::new();
        match self {
            ObjectTypeAssociation::Simple { object_type } => {
                fields.push(named("type", text_json("Simple")));
                fields.push(named("object_type", text_json(object_type.as_str())));
            },
            ObjectTypeAssociation::O2O { first, second, reversed } => {
                fields.push(named("type", text_json("O2O")));
                fields.push(named("first", text_json(first.as_str())));
                fields.push(named("second", text_json(second.as_str())));
                fields.push(named("reversed", Json::Bool(*reversed)));
            },
        }
        let r = Json::Object(fields);
        proof {
            reveal_with_fuel(Json::value, 2);
            assert(r.value()->Object_0 =~= assoc_json(self@)->Object_0);
        }
        r
    }

    /// The association that a value is the interchange form of, if any.
    pub fn from_json(j: &Json) -> (r: Option<ObjectTypeAssociation>)
        ensures
            match r {
                Some(a) => json_assoc(j.value()) == Some(a@),
                None => json_assoc(j.value()) is None,
            },
    {
        match get_text(j, "type") {
            Some(tag) => {
                if same_str(tag.as_str(), "Simple") {
                    match get_text(j, "object_type") {
                        Some(object_type) => Some(
                            ObjectTypeAssociation::Simple { object_type: object_type.clone() },
                        ),
                        None => None,
                    }
                } else if same_str(tag.as_str(), "O2O") {
                    match (get_text(j, "first"), get_text(j, "second"), get_member(j, "reversed")) {
                        (Some(first), Some(second), Some(Json::Bool(reversed))) => Some(
                            ObjectTypeAssociation::O2O {
                                first: first.clone(),
                                second: second.clone(),
                                reversed: *reversed,
                            },
                        ),
                        _ => None,
                    }
                } else {
                    None
                }
            },
            None => None,
        }
    }
}

fn assocs_to_json(list: &Vec<ObjectTypeAssociation>) -> (r: Json)
    ensures
        r.value() == assocs_json(assoc_views(list@)),
{
    let mut items: Vec<Json> = Vec::new();
    let mut i: usize = 0;
    while i < list.len()
        invariant
            i <= list.len(),
            items@.len() == i,
            forall|k: int| 0 <= k < i ==> (#[trigger] items@[k]).value() == assoc_json(list@[k]@),
        decreases list.len() - i,
    {
        items.push(list[i].to_json());
        i += 1;
    }
    let r = Json::Array(items);
    proof {
        assert(r.value()->Array_0 =~= assocs_json(assoc_views(list@))->Array_0);
    }
    r
}

fn assocs_from_json(j: &Json, key: &str) -> (r: Option<Vec<ObjectTypeAssociation>>)
    ensures
        match r {
            Some(list) => assocs_field(j.value(), key@) == Some(assoc_views(list@)),
            None => assocs_field(j.value(), key@) is None,
        },
{
    match get_member(j, key) {
        Some(Json::Array(items)) => {
            let ghost iv = field(j.value(), key@)->0->Array_0;
            let mut list: Vec<ObjectTypeAssociation> = Vec::new();
            let mut k: usize = 0;
            assert(assoc_views(list@) =~= Seq::empty());
            while k < items.len()
                invariant
                    k <= items.len(),
                    iv.len() == items@.len(),
                    forall|i: int| 0 <= i < items@.len() ==> (#[trigger] iv[i]) == items@[i].value(),
                    json_assoc_items(iv, k as nat) == Some(assoc_views(list@)),
                    field(j.value(), key@) == Some(JsonView::Array(iv)),
                decreases items.len() - k,
            {
                let ghost before = assoc_views(list@);
                assert(iv[k as int] == items@[k as int].value());
                match ObjectTypeAssociation::from_json(&items[k]) {
                    Some(a) => {
                        let ghost av = a@;
                        list.push(a);
                        assert(assoc_views(list@) =~= before.push(av));
                    },
                    None => {
                        proof {
                            lemma_items_fail(iv, k as nat + 1, iv.len());
                        }
                        return None;
                    },
                }
                k += 1;
            }
            Some(list)
        },
        _ => None,
    }
}

proof fn lemma_items_fail(items: Seq<JsonView>, k: nat, n: nat)
    requires
        k <= n,
        json_assoc_items(items, k) is None,
    ensures
        json_assoc_items(items, n) is None,
    decreases n,
{
    if n > k {
        lemma_items_fail(items, k, (n - 1) as nat);
    }
}

impl OCDeclareArcLabel {
    /// The label in the interchange form.
    pub fn to_json(&self) -> (r: Json)
        ensures
            r.value() == label_json(self@),
    {
        let mut fields: Vec<(String, Json)> = Vec::new();
        fields.push(named("each", assocs_to_json(&self.each)));
        fields.push(named("any", assocs_to_json(&self.any)));
        fields.push(named("all", assocs_to_json(&self.all)));
        let r = Json::Object(fields);
        proof {
            assert(r.value()->Object_0 =~= label_json(self@)->Object_0);
        }
        r
    }

    /// The label that a value is the interchange form of, if any.
    pub fn from_json(j: &Json) -> (r: Option<OCDeclareArcLabel>)
        ensures
            match r {
                Some(l) => json_label(j.value()) == Some(l@),
                None => json_label(j.value()) is None,
            },
    {
        match (assocs_from_json(j, "each"), assocs_from_json(j, "any"), assocs_from_json(j, "all")) {
            (Some(each), Some(any), Some(all)) => Some(OCDeclareArcLabel { each, any, all }),
            _ => None,
        }
    }
}

impl OCDeclareArcType {
    /// The tag of the arc type in the interchange form.
    pub fn tag(&self) -> (r: &'static str)
        ensures
            r@ == type_tag(*self),
    {
        match self {
            OCDeclareArcType::ASS => "ASS",
            OCDeclareArcType::EF => "EF",
            OCDeclareArcType::EFREV => "EFREV",
            OCDeclareArcType::DF => "DF",
            OCDeclareArcType::DFREV => "DFREV",
            OCDeclareArcType::ALTEF => "ALTEF",
            OCDeclareArcType::ALTEFREV => "ALTEFREV",
        }
    }

    /// The arc type of a tag, if it is one.
    pub fn from_tag(tag: &str) -> (r: Option<OCDeclareArcType>)
        ensures
            r == tag_type(tag@),
    {
        if same_str(tag, "ASS") {
            Some(OCDeclareArcType::ASS)
        } else if same_str(tag, "EF") {
            Some(OCDeclareArcType::EF)
        } else if same_str(tag, "EFREV") {
            Some(OCDeclareArcType::EFREV)
        } else if same_str(tag, "DF") {
            Some(OCDeclareArcType::DF)
        } else if same_str(tag, "DFREV") {
            Some(OCDeclareArcType::DFREV)
        } else if same_str(tag, "ALTEF") {
            Some(OCDeclareArcType::ALTEF)
        } else if same_str(tag, "ALTEFREV") {
            Some(OCDeclareArcType::ALTEFREV)
        } else {
            None
        }
    }
}

fn count_to_json(c: Option<usize>) -> (r: Json)
    ensures
        r.value() == count_json(c),
{
    match c {
        Some(n) => Json::Number(n),
        None => Json::Null,
    }
}

fn count_from_json(j: &Json) -> (r: Option<Option<usize>>)
    ensures
        r == json_count(j.value()),
{
    match j {
        Json::Number(n) => Some(Some(*n)),
        Json::Null => Some(None),
        _ => None,
    }
}

fn counts_from_json(j: &Json) -> (r: Option<(Option<usize>, Option<usize>)>)
    ensures
        r == json_counts(j.value()),
{
    match j {
        Json::Array(items) => {
            if items.len() == 2 {
                assert(j.value()->Array_0[0] == items@[0].value());
                assert(j.value()->Array_0[1] == items@[1].value());
                match (count_from_json(&items[0]), count_from_json(&items[1])) {
                    (Some(min), Some(max)) => Some((min, max)),
                    _ => None,
                }
            } else {
                None
            }
        },
        _ => None,
    }
}

impl OCDeclareArc {
    /// The arc in the interchange form.
    pub fn to_json(&self) -> (r: Json)
        ensures
            r.value() == arc_json(self@),
    {
        let mut counts: Vec<Json> = Vec::new();
        counts.push(count_to_json(self.counts.0));
        counts.push(count_to_json(self.counts.1));
        let counts = Json::Array(counts);
        proof {
            assert(counts.value()->Array_0 =~= seq![
                count_json(self.counts.0),
                count_json(self.counts.1),
            ]);
        }
        let mut fields: Vec<(String, Json)> = Vec::new();
        fields.push(named("from", text_json(self.from.as_str())));
        fields.push(named("to", text_json(self.to.as_str())));
        fields.push(named("arc_type", text_json(self.arc_type.tag())));
        fields.push(named("label", self.label.to_json()));
        fields.push(named("counts", counts));
        let r = Json::Object(fields);
        proof {
            assert(r.value()->Object_0 =~= arc_json(self@)->Object_0);
        }
        r
    }

    /// The arc that a value is the interchange form of, if any.
    pub fn from_json(j: &Json) -> (r: Option<OCDeclareArc>)
        ensures
            match r {
                Some(a) => json_arc(j.value()) == Some(a@),
                None => json_arc(j.value()) is None,
            },
    {
        match (get_text(j, "from"), get_text(j, "to"), get_text(j, "arc_type")) {
            (Some(from), Some(to), Some(tag)) => {
                match (
                    OCDeclareArcType::from_tag(tag.as_str()),
                    get_member(j, "label"),
                    get_member(j, "counts"),
                ) {
                    (Some(arc_type), Some(l), Some(c)) => {
                        match (OCDeclareArcLabel::from_json(l), counts_from_json(c)) {
                            (Some(label), Some(counts)) => Some(
                                OCDeclareArc {
                                    from: OCDeclareNode(from.clone()),
                                    to: OCDeclareNode(to.clone()),
                                    arc_type,
                                    label,
                                    counts,
                                },
                            ),
                            _ => None,
                        }
                    },
                    _ => None,
                }
            },
            _ => None,
        }
    }
}

} // verus!
