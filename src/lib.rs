//! A personal ledger: dated transactions kept in one record file per month,
//! the record format of those files, and the interactive session that browses
//! and edits them.

pub mod amount;
pub mod catalog;
pub mod date;
pub mod error;
pub mod record;
pub mod session;
pub mod store;
pub mod text;
