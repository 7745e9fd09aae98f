//! Verified core of a timezone table viewer: the hour-matrix computation
//! (one row of labeled hour cells per timezone around a reference instant)
//! and the cross-timezone ordering of those rows, together with the date
//! argument parsing and the region/location listing that surround them.

pub mod cells;
pub mod dates;
pub mod matrix;
pub mod order;
pub mod regions;
pub mod table;
pub mod zones;
