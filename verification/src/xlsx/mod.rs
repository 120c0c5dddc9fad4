//! The workbook: its parts, its worksheets, and changes to rows in place.
pub mod again;
pub mod formulas;
pub mod laws;
pub mod limits;
pub mod moved;
pub mod read;
pub mod reload;
pub mod sheets;
pub mod surgery;
pub mod xmlscan;
pub mod zipio;
