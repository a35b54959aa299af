//! A bidirectional map whose two sides share each stored value instead of copying it.

pub mod bimap;
pub mod btree;
pub mod iter;
pub mod mem;
pub mod order;
pub mod traits;
