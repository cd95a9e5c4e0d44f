//! Per-(prefix, origin) peer diversity from one day of route-table snapshots.
//!
//! For every prefix and the AS that originates it, the summary counts the peer ASes that
//! were seen announcing it and the feeds, that is the sessions of those peers, through which
//! it was seen. The library decides everything that a run decides and proves what it
//! decides; waiting, reading and writing are left to the program around it.
//!
//! - [`startup`] reads the one argument of a run, the day to summarize.
//! - [`select`] states which snapshot sources belong to the day and orders them for dispatch.
//! - [`filter`] says which decoded route elements count.
//! - [`record`] and [`summary`] define the summary as a mathematical object.
//! - [`aggregate`] builds the summary as observations arrive.
//! - [`order`] and [`report`] fix the order and the text of the report.
//! - [`run`] holds the course of a run together.
//! - [`laws`] states what holds of every run.

pub mod aggregate;
pub mod filter;
pub mod laws;
pub mod order;
pub mod record;
pub mod report;
pub mod run;
pub mod select;
pub mod startup;
pub mod summary;
