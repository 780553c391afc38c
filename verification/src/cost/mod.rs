//! Symbolic costs.

pub mod algebra;
pub mod assoc;
pub mod model;
pub mod rat;
pub mod root;
pub mod size;
pub mod subst;
pub mod forms;
pub mod sums;
pub mod piece;
pub mod costs;
pub mod show;
pub mod machine;
pub mod scan;
pub mod asserted;
pub mod iolb;
pub mod linear;
pub mod bounds;
pub mod table;
pub mod affine;
pub mod signature;
pub mod scope;
pub mod reading;
pub mod trees;
pub mod settle;
pub mod recur;
pub mod recognise;
pub mod footprint;
pub mod logs;
pub mod point;
pub mod declare;
pub mod rules;
pub mod track;
pub mod calls;
pub mod walk;
pub mod rewrite;
pub mod tiling;
pub mod analyze;
pub mod scop;
pub mod lock;
pub mod measure;
pub mod evaluate;
pub mod laws;
pub mod pruning;
pub mod summing;
pub mod radix;
pub mod vertices;
pub mod ledger;
pub mod degrees;
pub mod replacing;
pub mod rooting;
pub mod regimes;
pub mod turns;
pub mod unrolling;
pub mod wide;
pub mod dividing;
pub mod within;
pub mod laps;
pub mod products;
pub mod flips;
pub mod tally;
pub mod calling;
pub mod shrinking;
pub mod sizing;
pub mod descent;
pub mod lines;
pub mod ranges;
pub mod tiles;
