//! A spreadsheet engine: cells, formulas, dependency tracking and re-evaluation.
pub mod cell;
pub mod command;
pub mod dependency_table;
pub mod dfs;
pub mod evaluator;
pub mod expression_laws;
pub mod extensions;
pub mod formula;
pub mod graph;
pub mod laws;
pub mod linked_list;
pub mod links;
pub mod named;
pub mod recalculate;
pub mod reevaluate_topo;
pub mod roundtrip;
pub mod relationships;
pub mod render;
pub mod save_load;
pub mod screen;
pub mod spreadsheet;
pub mod text;
pub mod visualize;
pub mod vim;
