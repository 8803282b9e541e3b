//! Object-centric declarative constraints over indexed event logs:
//! their data model, evaluation, discovery and reduction.

pub mod arc;
pub mod association;
pub mod binding;
pub mod diagnostics;
pub mod discovery;
pub mod indices;
pub mod interchange;
pub mod involvement;
pub mod label;
pub mod log;
pub mod monotone;
pub mod perf;
pub mod prefilter;
pub mod preprocess;
pub mod reduction;
pub mod seqs;
pub mod settle;
pub mod soundness;
pub mod sync_group_discovery;
pub mod template;
pub mod text;

pub use arc::{OCDeclareArc, OCDeclareArcType, OCDeclareNode, ViolationInfo};
pub use association::ObjectTypeAssociation;
pub use binding::SetFilter;
pub use discovery::{discover_behavior_constraints, O2OMode, OCDeclareDiscoveryOptions};
pub use involvement::{
    get_activity_object_involvements, get_object_to_object_involvements,
    get_rev_object_to_object_involvements, ObjectInvolvementCounts,
};
pub use label::OCDeclareArcLabel;
pub use log::{IndexedLog, LogEvent, LogObject};
pub use perf::{NoiseThreshold, ViolationFraction};
pub use preprocess::{preprocess_ocel, TimedEvent};
