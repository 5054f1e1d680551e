//! A reverse-mode automatic differentiation engine over a graph of scalar nodes.
//!
//! The nodes live in an arena (`Graph`) and refer to their operands by index, so a
//! node shared by several parents is one arena entry reached through several edges.
//! The library builds the graph, orders the nodes reachable from a root so that
//! every operand precedes its users, and turns that order into the schedule of
//! gradient contributions that a backward pass performs. The numbers themselves
//! (values, gradients, the local derivatives) are evaluated by the caller.
mod graph;
mod order;
mod backward;
mod tensor;

pub use crate::graph::{DomainError, Graph, NodeView, Operation, arity_ok, well_formed};
pub use crate::order::{is_edge, is_path, is_topological_order, operands_first, reachable, topological_order, lemma_order_complete, lemma_reachable_below, lemma_reachable_step};
pub use crate::backward::{Contribution, LocalDerivative, backward_plan, has_step, inflow, is_backward_schedule, is_edge_step, lemma_backward_chain_rule, local_derivative, local_rule, run_plan};
pub use crate::tensor::{Tensor1D, Tensor2D, column, concat_rows, dot, elementwise_node, elementwise_nodes, extends, is_dot, product_node};
