//! A spreadsheet-style grid model: cell contents and styles, nested
//! row and column groups that can be collapsed, the rows and columns
//! hidden by collapsed groups, selection and editing state, and the
//! labels of row and column headers.

pub mod label;
pub mod groups;
pub mod cells;
pub mod json;
pub mod grid;
pub mod pivot;
pub mod laws;
