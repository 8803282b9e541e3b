//! Object-type associations: how an event reaches the objects of one type.

use vstd::prelude::*;
use vstd::string::*;
use crate::text::{lemma_text_less_order, same_text, str_less, text_less};

verus! {

/// The rule that maps an event to related objects of a chosen type, either directly
/// or through one object-to-object hop.
#[derive(Debug, PartialEq, Eq, Hash, PartialOrd, Ord)]
pub enum ObjectTypeAssociation {
    /// The objects of `object_type` that the event is related to.
    Simple { object_type: String },
    /// The objects of type `second` one hop away from the event's objects of type `first`;
    /// the hop follows the object-to-object links forward, or backward when `reversed`.
    O2O { first: String, second: String, reversed: bool },
}

/// The mathematical value of an [`ObjectTypeAssociation`].
pub enum AssociationView {
    Simple { object_type: Seq<char> },
    O2O { first: Seq<char>, second: Seq<char>, reversed: bool },
}

impl View for ObjectTypeAssociation {
    type V = AssociationView;

    open spec fn view(&self) -> AssociationView {
        match self {
            ObjectTypeAssociation::Simple { object_type } => AssociationView::Simple {
                object_type: object_type@,
            },
            ObjectTypeAssociation::O2O { first, second, reversed } => AssociationView::O2O {
                first: first@,
                second: second@,
                reversed: *reversed,
            },
        }
    }
}

/// The views of a list of associations, in order.
pub open spec fn assoc_views(s: Seq<ObjectTypeAssociation>) -> Seq<AssociationView> {
    s.map_values(|a: ObjectTypeAssociation| a@)
}

/// The canonical strict order on associations: every `Simple` before every `O2O`,
/// then by the names in field order, then forward before reversed.
pub open spec fn assoc_less(a: AssociationView, b: AssociationView) -> bool {
    match (a, b) {
        (
            AssociationView::Simple { object_type: x },
            AssociationView::Simple { object_type: y },
        ) => text_less(x, y),
        (AssociationView::Simple { .. }, AssociationView::O2O { .. }) => true,
        (AssociationView::O2O { .. }, AssociationView::Simple { .. }) => false,
        (
            AssociationView::O2O { first: f1, second: s1, reversed: r1 },
            AssociationView::O2O { first: f2, second: s2, reversed: r2 },
        ) => text_less(f1, f2) || (f1 == f2 && (text_less(s1, s2) || (s1 == s2 && !r1 && r2))),
    }
}

/// The canonical order is a strict total order.
pub proof fn lemma_assoc_less_order(a: AssociationView, b: AssociationView, c: AssociationView)
    ensures
        !assoc_less(a, a),
        assoc_less(a, b) && assoc_less(b, c) ==> assoc_less(a, c),
        assoc_less(a, b) || assoc_less(b, a) || a == b,
        !(assoc_less(a, b) && assoc_less(b, a)),
{
    match (a, b, c) {
        (
            AssociationView::Simple { object_type: x },
            AssociationView::Simple { object_type: y },
            AssociationView::Simple { object_type: z },
        ) => {
            lemma_text_less_order(x, y, z);
        },
        (
            AssociationView::O2O { first: f1, second: s1, reversed: r1 },
            AssociationView::O2O { first: f2, second: s2, reversed: r2 },
            AssociationView::O2O { first: f3, second: s3, reversed: r3 },
        ) => {
            lemma_text_less_order(f1, f2, f3);
            lemma_text_less_order(s1, s2, s3);
        },
        (
            AssociationView::Simple { object_type: x },
            AssociationView::Simple { object_type: y },
            _,
        ) => {
            lemma_text_less_order(x, y, y);
        },
        (
            AssociationView::O2O { first: f1, second: s1, reversed: r1 },
            AssociationView::O2O { first: f2, second: s2, reversed: r2 },
            _,
        ) => {
            lemma_text_less_order(f1, f2, f2);
            lemma_text_less_order(s1, s2, s2);
        },
        (AssociationView::Simple { object_type: x }, _, _) => {
            lemma_text_less_order(x, x, x);
        },
        (AssociationView::O2O { first: f1, second: s1, reversed: r1 }, _, _) => {
            lemma_text_less_order(f1, f1, f1);
            lemma_text_less_order(s1, s1, s1);
        },
    }
}

/// The text of an association in a rendered constraint: the type's name, or the two
/// names around `>` (forward) or `<` (reversed).
pub open spec fn assoc_text(a: AssociationView) -> Seq<char> {
    match a {
        AssociationView::Simple { object_type } => object_type,
        AssociationView::O2O { first, second, reversed } => first + seq![
            if reversed {
                '<'
            } else {
                '>'
            },
        ] + second,
    }
}

impl Clone for ObjectTypeAssociation {
    fn clone(&self) -> (r: Self)
        ensures
            r@ == self@,
    {
        match self {
            ObjectTypeAssociation::Simple { object_type } => ObjectTypeAssociation::Simple {
                object_type: object_type.clone(),
            },
            ObjectTypeAssociation::O2O { first, second, reversed } => ObjectTypeAssociation::O2O {
                first: first.clone(),
                second: second.clone(),
                reversed: *reversed,
            },
        }
    }
}

impl ObjectTypeAssociation {
    /// The direct association with the objects of type `ot`.
    pub fn new_simple(ot: &str) -> (r: Self)
        ensures
            r@ == (AssociationView::Simple { object_type: ot@ }),
    {
        ObjectTypeAssociation::Simple { object_type: String::from_str(ot) }
    }

    /// The association through a forward hop from type `ot1` to type `ot2`.
    pub fn new_o2o(ot1: &str, ot2: &str) -> (r: Self)
        ensures
            r@ == (AssociationView::O2O { first: ot1@, second: ot2@, reversed: false }),
    {
        ObjectTypeAssociation::O2O {
            first: String::from_str(ot1),
            second: String::from_str(ot2),
            reversed: false,
        }
    }

    /// The association through a backward hop from type `ot1` to type `ot2`.
    pub fn new_o2o_rev(ot1: &str, ot2: &str) -> (r: Self)
        ensures
            r@ == (AssociationView::O2O { first: ot1@, second: ot2@, reversed: true }),
    {
        ObjectTypeAssociation::O2O {
            first: String::from_str(ot1),
            second: String::from_str(ot2),
            reversed: true,
        }
    }

    /// Whether the two associations are the same.
    pub fn same_as(&self, other: &Self) -> (r: bool)
        ensures
            r == (self@ == other@),
    {
        match self {
            ObjectTypeAssociation::Simple { object_type: x } => match other {
                ObjectTypeAssociation::Simple { object_type: y } => {
                    let r = same_text(x, y);
                    r
                },
                ObjectTypeAssociation::O2O { .. } => false,
            },
            ObjectTypeAssociation::O2O { first: f1, second: s1, reversed: r1 } => match other {
                ObjectTypeAssociation::Simple { .. } => false,
                ObjectTypeAssociation::O2O { first: f2, second: s2, reversed: r2 } => {
                    let r = same_text(f1, f2) && same_text(s1, s2) && *r1 == *r2;
                    r
                },
            },
        }
    }

    /// Whether this association comes strictly before `other` in the canonical order.
    pub fn less_than(&self, other: &Self) -> (r: bool)
        ensures
            r == assoc_less(self@, other@),
    {
        match self {
            ObjectTypeAssociation::Simple { object_type: x } => match other {
                ObjectTypeAssociation::Simple { object_type: y } => str_less(
                    x.as_str(),
                    y.as_str(),
                ),
                ObjectTypeAssociation::O2O { .. } => true,
            },
            ObjectTypeAssociation::O2O { first: f1, second: s1, reversed: r1 } => match other {
                ObjectTypeAssociation::Simple { .. } => false,
                ObjectTypeAssociation::O2O { first: f2, second: s2, reversed: r2 } => {
                    if str_less(f1.as_str(), f2.as_str()) {
                        true
                    } else if same_text(f1, f2) {
                        if str_less(s1.as_str(), s2.as_str()) {
                            true
                        } else {
                            let same = same_text(s1, s2);
                            same && !*r1 && *r2
                        }
                    } else {
                        false
                    }
                },
            },
        }
    }

    /// The association as it stands in a rendered constraint.
    pub fn as_template_string(&self) -> (r: String)
        ensures
            r@ == assoc_text(self@),
    {
        match self {
            ObjectTypeAssociation::Simple { object_type } => object_type.clone(),
            ObjectTypeAssociation::O2O { first, second, reversed } => {
                proof {
                    reveal_strlit("<");
                    reveal_strlit(">");
                }
                let mut r = first.clone();
                if *reversed {
                    r.append("<");
                } else {
                    r.append(">");
                }
                r.append(second.as_str());
                assert("<"@ =~= seq!['<']);
                assert(">"@ =~= seq!['>']);
                r
            },
        }
    }
}

} // verus!
