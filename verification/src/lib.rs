//! Flattening of Modelica class trees into one flat model.
//!
//! [`flatten`] instantiates a class and everything it holds; [`class_info`]
//! sums a class up for a tool that draws it. What flattening leans on and does
//! not hold itself is handed in as an [`outside::Outside`]; [`web`] and [`tree`]
//! tie the steps of the library to one another over it.
pub mod agreeing;
pub mod arguments;
pub mod asked;
pub mod bodies;
pub mod buses;
pub mod calls;
pub mod choosing;
pub mod class;
pub mod clockwork;
pub mod constants;
pub mod crossings;
pub mod edges;
pub mod equations;
pub mod expr;
pub mod external;
pub mod flat;
pub mod flattening;
pub mod folding;
pub mod functions;
pub mod graph;
pub mod grids;
pub mod groups;
pub mod info;
pub mod inheritance;
pub mod inlining;
pub mod instantiate;
pub mod joining;
pub mod joins;
pub mod judging;
pub mod keeping;
pub mod lookup;
pub mod machines;
pub mod make;
pub mod meaning;
pub mod mixing;
pub mod names;
pub mod number;
pub mod operators;
pub mod outside;
pub mod partitions;
pub mod queries;
pub mod ranking;
pub mod reading;
pub mod records;
pub mod renaming;
pub mod repeating;
pub mod residing;
pub mod resolving;
pub mod restrictions;
pub mod rooting;
pub mod rounds;
pub mod running;
pub mod sameness;
pub mod scoping;
pub mod shapes;
pub mod sizes;
pub mod slices;
pub mod splining;
pub mod spreading;
pub mod stepping;
pub mod streams;
pub mod sums;
pub mod table;
pub mod text;
pub mod tree;
pub mod value;
pub mod values;
pub mod web;

pub use flattening::flatten;
pub use info::{class_info, ClassInfo};
