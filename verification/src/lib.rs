//! Cleaning of comma-separated text for bulk loading: sentinel null markers
//! are emptied, integral decimals lose their `.0`, embedded quotes are
//! doubled, trailing columns can be dropped, and every field is written
//! between quotes.

pub mod cell;
pub mod chars;
pub mod codec;
pub mod cut;
pub mod row;

pub use cell::{normalize_cell, process_cell};
pub use codec::encode_row;
pub use cut::{csv_cut, cut_row, MalformedRecord};
pub use row::{normalize_row, process_row};
