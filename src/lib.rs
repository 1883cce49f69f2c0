//! Core logic of an interactive graph viewer: the graph model, its connected
//! components, edge filtering by weight, component placement on a grid,
//! node selection and the settle scheduler of the layout simulation.

pub mod charts;
pub mod components;
pub mod filter;
pub mod graph;
pub mod layout;
pub mod numeric;
pub mod selection;
