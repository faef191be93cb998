//! A benchmark runner's verified core: what a dataset must satisfy, which
//! models a run measures, how a case is graded and scored, and how the
//! models are ranked. Reading files, starting processes and writing reports
//! is left to the program around this library.

pub mod text;
pub mod json;
pub mod dataset;
pub mod catalog;
pub mod report;
pub mod run;
pub mod schedule;
