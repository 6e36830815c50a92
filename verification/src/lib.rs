//! A personal-finance ledger: transactions in cents, kept in named containers and labelled
//! with categories, with balances, totals by category and an import of CSV files.
//!
//! The ledger is [`database::Database`]. What it holds is described by
//! [`database::Ledger`], and every operation says what it makes of that. The questions put
//! to the tables are in [`query`], amounts and dates as files write them in [`amount`] and
//! [`calendar`], the import in [`import`], the export in [`export`], and what holds of every
//! ledger in [`laws`].

pub mod amount;
pub mod calendar;
pub mod database;
pub mod export;
pub mod import;
pub mod laws;
pub mod model;
pub mod order;
pub mod query;
pub mod schema;
pub mod text;
