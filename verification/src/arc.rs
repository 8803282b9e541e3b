//! Arcs: one constraint between two activities.

use vstd::prelude::*;
use vstd::string::*;
use crate::label::{LabelView, OCDeclareArcLabel};
use crate::text::{exit_prefix, init_prefix};

verus! {

/// How the target events must lie relative to the source event.
#[derive(Debug, Clone, Copy, PartialEq, Eq, Structural, Hash)]
pub enum OCDeclareArcType {
    /// Association: anywhere in the log.
    ASS,
    /// Eventually follows: later than the source.
    EF,
    /// Eventually precedes: earlier than the source.
    EFREV,
    /// Directly follows: the next event that shares the bound objects.
    DF,
    /// Directly precedes: the last earlier event that shares the bound objects.
    DFREV,
    /// Alternating follows: later, before the source's activity occurs again.
    ALTEF,
    /// Alternating precedes: earlier, after the last earlier occurrence of the source's
    /// activity.
    ALTEFREV,
}

impl OCDeclareArcType {
    /// The two-letter name of the arc type in a rendered constraint.
    pub open spec fn name(self) -> Seq<char> {
        match self {
            OCDeclareArcType::ASS => seq!['A', 'S'],
            OCDeclareArcType::EF => seq!['E', 'F'],
            OCDeclareArcType::EFREV => seq!['E', 'P'],
            OCDeclareArcType::DF => seq!['D', 'F'],
            OCDeclareArcType::DFREV => seq!['D', 'P'],
            OCDeclareArcType::ALTEF => seq!['A', 'F'],
            OCDeclareArcType::ALTEFREV => seq!['A', 'P'],
        }
    }

    /// The two-letter name of the arc type in a rendered constraint.
    pub fn get_name(&self) -> (r: &'static str)
        ensures
            r@ == self.name(),
    {
        proof {
            reveal_strlit("AS");
            reveal_strlit("EF");
            reveal_strlit("EP");
            reveal_strlit("DF");
            reveal_strlit("DP");
            reveal_strlit("AF");
            reveal_strlit("AP");
        }
        let r = match self {
            OCDeclareArcType::ASS => "AS",
            OCDeclareArcType::EF => "EF",
            OCDeclareArcType::EFREV => "EP",
            OCDeclareArcType::DF => "DF",
            OCDeclareArcType::DFREV => "DP",
            OCDeclareArcType::ALTEF => "AF",
            OCDeclareArcType::ALTEFREV => "AP",
        };
        assert(r@ =~= self.name());
        r
    }
}

/// An end of an arc: the name of an activity.
#[derive(Debug, PartialEq, Eq, Hash)]
pub struct OCDeclareNode(pub String);

impl View for OCDeclareNode {
    type V = Seq<char>;

    open spec fn view(&self) -> Seq<char> {
        self.0@
    }
}

impl Clone for OCDeclareNode {
    fn clone(&self) -> (r: Self)
        ensures
            r@ == self@,
    {
        OCDeclareNode(self.0.clone())
    }
}

impl OCDeclareNode {
    /// The node of the activity `act`.
    pub fn new(act: &str) -> (r: Self)
        ensures
            r@ == act@,
    {
        OCDeclareNode(String::from_str(act))
    }

    /// The node of the activity `act`.
    pub fn new_act(act: &str) -> (r: Self)
        ensures
            r@ == act@,
    {
        OCDeclareNode(String::from_str(act))
    }

    /// The node of the activity that marks the first event of the objects of type
    /// `ob_type`.
    pub fn new_ob_init(ob_type: &str) -> (r: Self)
        ensures
            r@ == init_prefix() + seq![' '] + ob_type@,
    {
        proof {
            reveal_strlit("<init> ");
        }
        let mut s = String::from_str("<init> ");
        s.append(ob_type);
        assert(s@ =~= init_prefix() + seq![' '] + ob_type@);
        OCDeclareNode(s)
    }

    /// The node of the activity that marks the last event of the objects of type
    /// `ob_type`.
    pub fn new_ob_end(ob_type: &str) -> (r: Self)
        ensures
            r@ == exit_prefix() + seq![' '] + ob_type@,
    {
        proof {
            reveal_strlit("<exit> ");
        }
        let mut s = String::from_str("<exit> ");
        s.append(ob_type);
        assert(s@ =~= exit_prefix() + seq![' '] + ob_type@);
        OCDeclareNode(s)
    }

    /// The activity's name.
    pub fn as_str(&self) -> (r: &str)
        ensures
            r@ == self@,
    {
        self.0.as_str()
    }
}

/// A constraint: for every event of `from`, and every binding of its objects under
/// `label`, the number of matching events of `to` lies within `counts`.
#[derive(Debug, PartialEq, Eq)]
pub struct OCDeclareArc {
    pub from: OCDeclareNode,
    pub to: OCDeclareNode,
    pub arc_type: OCDeclareArcType,
    pub label: OCDeclareArcLabel,
    pub counts: (Option<usize>, Option<usize>),
}

/// The mathematical value of an [`OCDeclareArc`].
pub struct ArcView {
    pub from: Seq<char>,
    pub to: Seq<char>,
    pub arc_type: OCDeclareArcType,
    pub label: LabelView,
    pub counts: (Option<usize>, Option<usize>),
}

impl View for OCDeclareArc {
    type V = ArcView;

    open spec fn view(&self) -> ArcView {
        ArcView {
            from: self.from@,
            to: self.to@,
            arc_type: self.arc_type,
            label: self.label@,
            counts: self.counts,
        }
    }
}

/// The views of a list of arcs, in order.
pub open spec fn arc_views(s: Seq<OCDeclareArc>) -> Seq<ArcView> {
    s.map_values(|a: OCDeclareArc| a@)
}

impl Clone for OCDeclareArc {
    fn clone(&self) -> (r: Self)
        ensures
            r@ == self@,
    {
        OCDeclareArc {
            from: self.from.clone(),
            to: self.to.clone(),
            arc_type: self.arc_type,
            label: self.label.clone(),
            counts: self.counts,
        }
    }
}

impl OCDeclareArc {
    /// The same constraint with another arc type.
    pub fn clone_with_arc_type(&self, arc_type: OCDeclareArcType) -> (r: Self)
        ensures
            r@ == (ArcView { arc_type, ..self@ }),
    {
        let mut ret = self.clone();
        ret.arc_type = arc_type;
        ret
    }
}

/// Why a binding of an event breaks a constraint, with the evidence: the source event,
/// the events that matched, the bound objects and the count that was seen.
#[derive(Debug, PartialEq, Eq)]
pub enum ViolationInfo {
    /// More matching events than the upper bound allows.
    TooMany {
        source_ev: String,
        matching_evs: Vec<String>,
        all_obs: Vec<String>,
        any_obs: Vec<Vec<String>>,
        count: usize,
    },
    /// Fewer matching events than the lower bound asks for.
    TooFew {
        source_ev: String,
        matching_evs: Vec<String>,
        all_obs: Vec<String>,
        any_obs: Vec<Vec<String>>,
        count: usize,
    },
}

} // verus!
