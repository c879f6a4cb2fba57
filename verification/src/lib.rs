//! Architecture-as-code checks: a model of components, ports, edges and
//! policies, the design-time rule checks over it, and a trajectory simulation
//! of a request travelling through the graph.
pub mod text;
pub mod model;
pub mod sync_cycle;
pub mod validate;
pub mod simulate;
pub mod web;
