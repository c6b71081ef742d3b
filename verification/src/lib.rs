//! Invoice printing helper: classification of electronic invoices, amount
//! extraction from their text, per-category statistics and the Chinese
//! capital-numeral rendering of amounts.
//!
//! Amounts are carried in millionths of a yuan (`i64`) and rounded to
//! cents only when they are written out.

pub mod cli;
pub mod chinese_yuan;
pub mod composer;
pub mod extractor;
pub mod invoice;
pub mod numeral_reading;
pub mod report;
pub mod scanner;
pub mod text;
pub mod utils;
