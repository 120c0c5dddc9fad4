//! The ledger of a studio's members and classes, kept in an Excel workbook: reading the workbook,
//! changing rows of it in place, and the figures that follow from it.
use vstd::prelude::*;

pub mod api;
pub mod changes;
pub mod columns;
pub mod compute;
pub mod config;
pub mod figures;
pub mod model;
pub mod numbers;
pub mod requests;
pub mod snapshot;
pub mod store;
pub mod text;
pub mod xlsx;

pub use crate::api::b64_decode;
pub use crate::config::find_default_excel;

verus! {

/// What the names of the workbooks start with that are looked for by default.
pub const DEFAULT_PREFIX: &'static str = "莱·梵壹会员实时跟踪管理系统";

/// The worksheet with the members.
pub const SHEET_ARCHIVE: &'static str = "会员档案";

/// The worksheet with the classes.
pub const SHEET_RECORDS: &'static str = "上课记录";

/// The last row of the worksheet with the members.
pub const ARCHIVE_MAX_ROW: u32 = 504;

/// The last row of the worksheet with the classes.
pub const RECORDS_MAX_ROW: u32 = 1001;

/// How many versions are kept.
pub const MAX_VERSIONS: usize = 100;

} // verus!
