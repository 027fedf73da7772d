//! Bins for a sort that first spreads the items by their keys.

pub mod deal;
pub mod key_sort;
pub mod layout;
pub mod min_max;
