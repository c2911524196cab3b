//! The enforcement-rule bridge: fourteen rule-family tables with a global
//! version, a tiered anchor store (LRU hot cache, warm snapshot file image,
//! promotion on lookup), periodic refresh decisions and the slot-score
//! decision kernel.

use vstd::prelude::*;

pub mod error;
pub mod rule_vector;
pub mod text;
pub mod clock;
pub mod storage;
pub mod hot_cache;
pub mod comparison;
pub mod types;
pub mod table;
pub mod codec;
pub mod warm_file;
pub mod warm_storage;
pub mod refresh;
pub mod bridge;
pub mod hitlog;

verus! {

} // verus!
