//! A dependency-tracking model of spreadsheet formulas: cell and range
//! addresses, defined names, invalidation descriptors, read traces and the
//! graph algorithms (strongly connected components, reachability paths)
//! that find cycles among formulas.
pub mod text;
pub mod order;
pub mod address;
pub mod keys;
pub mod graph;
pub mod cycles;
pub mod formula;
pub mod names;
pub mod dependency;
pub mod collect;
pub mod engine;
pub mod trace;
pub mod schedule;
pub mod evaluation;
pub mod reference;
pub mod resolve;
pub mod shadow;
pub mod laws;
pub mod dump;
pub mod archive;
pub mod json;
pub mod inputs;
pub mod artifacts;
pub mod analysis;
pub mod shadow_model;
pub mod edge_dump;
pub mod compatibility;
pub mod builtins;
