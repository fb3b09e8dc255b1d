//! A substance-agnostic, event-sourced conserved-flow engine for directed compartment networks.

pub mod identity;
pub mod text;
pub mod endpoints;
pub mod presence;
pub mod versions;
pub mod order;
pub mod substance_registry;
pub mod temporal;
pub mod keyed;
pub mod topology;
pub mod numerical_semantics;
pub mod rule_reference;
pub mod rule_expression;
pub mod partition_expression;
pub mod projection;
pub mod projection_graph;
pub mod projection_set;
pub mod execution_bindings;
pub mod sparse_substance_vector;
pub mod initial_stocks;
pub mod bytes;
pub mod model_artifact;
pub mod model_builder;
pub mod ledger;
pub mod disposition;
pub mod stock_counts;
pub mod commit;
pub mod forcing;
pub mod interpolation_table;
