//! Roster grouping, scheduling arithmetic and audio segment planning.

pub mod decode;
pub mod document;
pub mod groups;
pub mod listing;
pub mod model;
pub mod numeral;
pub mod profiles;
pub mod schedule;
pub mod segments;
pub mod text;
