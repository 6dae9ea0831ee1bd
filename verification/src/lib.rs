//! Entry values of a function under analysis, tiled from the inputs that already
//! occupy their storage.

pub mod address;
pub mod varnode;
pub mod op;
pub mod graph;
pub mod soundness;
pub mod plan;
pub mod funcdata;
pub mod tiling;
pub mod planned;
pub mod request;
pub mod rebuild;
pub mod fold;
pub mod inputtile;
pub mod shape;
pub mod meaning;
pub mod aside;
pub mod trace;
pub mod rebuilt;
pub mod gathered;
pub mod laws;
pub mod course;
pub mod edits;
