//! Profit analysis for a crafting-material economy.
//!
//! A tier of the economy is a [`Catalog`]: named materials, each with a unit
//! price. Five materials (repetition allowed) are handed in for a conversion
//! that yields one of the materials that were *not* handed in. This crate
//! evaluates such a selection, enumerates every selection of a catalog, and
//! searches for the one with the greatest expected profit.
//!
//! Every contract is stated over the mathematical content of the data:
//! a catalog is a `Seq<(Seq<char>, u32)>` of names and prices without a
//! repeated name, a selection is a `Seq<Seq<char>>` of five names.

pub mod catalog;
pub mod combos;
pub mod economy;
pub mod error;
pub mod order;
pub mod reports;
pub mod search;
pub mod stats;
pub mod transmute;

pub use catalog::Catalog;
pub use combos::{enumerate_combinations, TransmuteSet};
pub use economy::{Materia, MateriaTier};
pub use error::InvalidInput;
pub use order::sort_by_price;
pub use reports::{
    grade_advice, operate_all, operate_basic, operate_specific, BasicReport, GradeAdvice,
};
pub use search::{find_best, BestResult};
pub use stats::{
    average, fill_transmute_vec, k_smallest, partition_by_threshold, smallest_five, sum,
};
pub use transmute::{operate_specific_materia, others_average, TransmuteResult};
