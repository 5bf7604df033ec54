//! OpenBSE building-simulation support library: calendar arithmetic,
//! Standard 205 grid indexing and file-format rules, air-loop coil dispatch
//! and equipment bookkeeping, plant-loop simulation order, and the component
//! configuration enums.

pub mod calendar;
pub mod interpolate;
pub mod a205;
pub mod airloop;
pub mod equipment;
pub mod plant;
pub mod components;
pub mod paths;
