//! Readback of interaction nets into lambda terms.

pub mod book;
pub mod fix_names;
pub mod laws;
pub mod linear;
pub mod name;
pub mod net;
pub mod non_linear;
pub mod op;
pub mod ports;
pub mod reading;
pub mod state;
pub mod term;
