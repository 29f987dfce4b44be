//! A small query engine over delimited tables: statement decoding, a
//! recursive condition evaluator and the per-row SELECT / INSERT / UPDATE /
//! DELETE pipeline, with the table contents handed in and out as plain values.

pub mod error;
pub mod text;
pub mod common;
pub mod conditions;
pub mod select;
pub mod delete;
pub mod update;
pub mod insert;
pub mod table;
pub mod statement;
