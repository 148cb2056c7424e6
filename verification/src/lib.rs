//! Model counting and d-DNNF compilation for pseudo-Boolean formulas.

pub mod fsum;
pub mod text;
pub mod key_order;
pub mod pseudo_boolean_datastructure;
pub mod literal_order;
pub mod name_map;
pub mod opb;
pub mod parser;
pub mod model_count;
pub mod big_count;
pub mod ddnnf;
pub mod nnf_reading;
pub mod normalization;
pub mod formula;
pub mod solver;
pub mod components;
pub mod hypergraph;
