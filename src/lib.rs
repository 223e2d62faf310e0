//! Structural pattern matching and instantiation over e-graphs: patterns
//! with named wildcards are matched against congruence classes, producing
//! binding tables, and patterns are rebuilt in a graph from such tables.
pub mod apply;
pub mod egraph;
pub mod pattern;
pub mod product;
pub mod search;
pub mod wildmap;

pub use apply::apply_pat;
pub use egraph::{EGraph, ENode, Id};
pub use pattern::{Pattern, PatternError, RecExpr};
pub use search::{search_pat, SearchMatches};
pub use wildmap::{WildMap, WildcardKind};
