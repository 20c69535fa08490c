//! Finding Evangelion characters on artbook pages by hair-color
//! clustering: the verified core. Pixel-mask components and their
//! grouping, page records and their order, path reading, color notation,
//! the human label store, and the naming and tuning rules.

pub mod classify;
pub mod color;
pub mod config;
pub mod connected;
pub mod contact;
pub mod extract;
pub mod io;
pub mod label;
pub mod order;
pub mod rank;
pub mod text;
pub mod tune;
