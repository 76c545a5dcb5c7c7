//! An asynchronous task scheduling library.
//!
//! A set of one-shot tasks with data dependencies between them forms a
//! directed acyclic graph: the output value of one task is fed into a named
//! input slot of another.  This crate owns the graph data model, checks the
//! type agreement of every wire at construction time, keeps the graph
//! acyclic, and drives the run as a verified state machine: it decides which
//! nodes to start, routes every completed output into the input slots of the
//! dependent nodes, and records the final values.  Awaiting the tasks
//! themselves is left to the caller, who starts one future per start order
//! and reports each completion back.

mod any;
mod curry;
mod dag;
mod error;
mod graph;
mod paths;
mod runner;
mod tuple;

pub use paths::acyclic;
pub use runner::all_pending_empty;
pub use runner::all_some;
pub use graph::check_type_equality;
pub use curry::CurriedTask;
pub use graph::Decl;
pub use graph::decl_of;
pub use graph::dep_matches;
pub use runner::DependencyError;
pub use runner::DependencyErrorKind;
pub use any::downcast;
pub use graph::Edge;
pub use runner::edge_inv_filled;
pub use runner::edge_inv_started;
pub use graph::EdgeRec;
pub use error::Error;
pub use error::ErrorWithTask;
pub use runner::fanned_cells;
pub use runner::fanned_node;
pub use runner::fed_any;
pub use runner::fed_by;
pub use runner::fed_by_upto;
pub use runner::fed_edge;
pub use runner::fully_wired;
pub use tuple::InsertError;
pub use tuple::InsertErrorKind;
pub use tuple::InsertResult;
pub use paths::is_path;
pub use paths::lemma_acyclic_push;
pub use paths::lemma_acyclic_sub;
pub use graph::lemma_edge_types_agree;
pub use runner::lemma_producers_finish_first;
pub use paths::lemma_reaches_trans;
pub use graph::lemma_ready_fingerprint;
pub use graph::lemma_replace_dependency;
pub use runner::lemma_run_completion;
pub use any::make_any;
pub use graph::Node;
pub use graph::node_matches_decl;
pub use graph::node_output_info;
pub use runner::node_unmoved;
pub use graph::NodeIndex;
pub use runner::order_of;
pub use runner::order_sound;
pub use paths::reaches;
pub use runner::run_inv;
pub use graph::same_deps_except;
pub use runner::started_of;
pub use runner::StartOrder;
pub use paths::sub_edges;
pub use tuple::TakeError;
pub use graph::TryGraph;
pub use curry::TryTask;
pub use tuple::TupleIndex;
pub use tuple::TupleOption;
pub use any::type_info;
pub use any::TypeInfo;
pub use any::Value;
