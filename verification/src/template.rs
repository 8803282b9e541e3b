//! Rendering of labels and arcs as text.

use itertools::Itertools;
use vstd::prelude::*;
use vstd::string::*;
use crate::arc::{ArcView, OCDeclareArc};
use crate::log::text_views;
use crate::association::{assoc_text, assoc_views, AssociationView, ObjectTypeAssociation};
use crate::label::{group_text, join_texts, label_text, OCDeclareArcLabel};
use crate::text::{decimal, decimal_string};

verus! {

/// The text of an arc: the name of the arc type, and in brackets the two activities, the
/// label, the lower bound (0 where there is none) and the upper bound (`∞` where there
/// is none).
pub open spec fn arc_text(a: ArcView) -> Seq<char> {
    a.arc_type.name() + seq!['('] + a.from + seq![',', ' '] + a.to + seq![',', ' '] + label_text(
        a.label,
    ) + seq![','] + decimal(
        match a.counts.0 {
            Some(n) => n as nat,
            None => 0,
        },
    ) + seq![','] + (match a.counts.1 {
        Some(n) => decimal(n as nat),
        None => seq!['∞'],
    }) + seq![')']
}

/// The texts joined by `itertools::Itertools::join` with `,` as the separator: the texts
/// in order with a comma between neighbours; the empty text where there is none.
#[verifier::external_body]
fn join_with_commas(parts: &Vec<String>) -> (r: String)
    ensures
        r@ == join_texts(text_views(parts@), seq![',']),
{
    parts.iter().join(",")
}

/// One group of a rendered label.
fn group_string(keyword: &str, items: &Vec<ObjectTypeAssociation>) -> (r: String)
    ensures
        r@ == group_text(keyword@, assoc_views(items@)),
{
    proof {
        reveal_strlit("(");
        reveal_strlit(")");
    }
    let mut texts: Vec<String> = Vec::new();
    let mut i: usize = 0;
    while i < items.len()
        invariant
            i <= items.len(),
            texts@.len() == i,
            forall|j: int| 0 <= j < i ==> (#[trigger] texts@[j])@ == assoc_text(items@[j]@),
        decreases items.len() - i,
    {
        texts.push(items[i].as_template_string());
        i += 1;
    }
    assert(text_views(texts@) =~= assoc_views(items@).map_values(
        |a: AssociationView| assoc_text(a),
    ));
    let mut r = String::from_str(keyword);
    r.append("(");
    r.append(join_with_commas(&texts).as_str());
    r.append(")");
    assert(r@ =~= group_text(keyword@, assoc_views(items@)));
    r
}

impl OCDeclareArcLabel {
    /// The label as it stands in a rendered constraint.
    pub fn as_template_string(&self) -> (r: String)
        ensures
            r@ == label_text(self@),
    {
        proof {
            reveal_strlit("Each");
            reveal_strlit("All");
            reveal_strlit("Any");
            reveal_strlit(", ");
            assert("Each"@ =~= seq!['E', 'a', 'c', 'h']);
            assert("All"@ =~= seq!['A', 'l', 'l']);
            assert("Any"@ =~= seq!['A', 'n', 'y']);
            assert(", "@ =~= seq![',', ' ']);
        }
        let mut ret = String::new();
        if self.each.len() > 0 {
            ret.append(group_string("Each", &self.each).as_str());
        }
        let ghost each = ret@;
        if self.all.len() > 0 {
            if self.each.len() > 0 {
                ret.append(", ");
            }
            ret.append(group_string("All", &self.all).as_str());
        }
        let ghost all = ret@;
        if self.any.len() > 0 {
            ret.append(", ");
            ret.append(group_string("Any", &self.any).as_str());
        }
        assert(ret@ =~= label_text(self@));
        ret
    }
}

impl OCDeclareArc {
    /// The constraint as text.
    pub fn as_template_string(&self) -> (r: String)
        ensures
            r@ == arc_text(self@),
    {
        proof {
            reveal_strlit("(");
            reveal_strlit(")");
            reveal_strlit(",");
            reveal_strlit(", ");
            reveal_strlit("∞");
            assert(", "@ =~= seq![',', ' ']);
            assert("∞"@ =~= seq!['∞']);
        }
        let mut r = String::from_str(self.arc_type.get_name());
        r.append("(");
        r.append(self.from.as_str());
        r.append(", ");
        r.append(self.to.as_str());
        r.append(", ");
        r.append(self.label.as_template_string().as_str());
        r.append(",");
        let min: usize = match self.counts.0 {
            Some(n) => n,
            None => 0,
        };
        r.append(decimal_string(min).as_str());
        r.append(",");
        match self.counts.1 {
            Some(n) => {
                r.append(decimal_string(n).as_str());
            },
            None => {
                r.append("∞");
            },
        }
        r.append(")");
        assert(r@ =~= arc_text(self@));
        r
    }
}

} // verus!
