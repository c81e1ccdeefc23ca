//! Unicode properties and the character classes derived from them.

pub mod bert;
pub mod category;
pub mod classes;
pub mod packed;
pub mod tables;
