//! Count-min sketches: arrays of counters that estimate how often a value was
//! seen, never too low.

pub mod acmsketch;
pub mod cells;
pub mod cm_sketch;
pub mod count_min_sketch;
pub mod hashing;
