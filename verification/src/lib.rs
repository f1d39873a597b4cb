//! Composition of a report on the unit tests of a dbt project: which models and
//! tests it shows, what it shows of each, and the data that its page is made
//! from.

pub mod anchor;
pub mod catalog;
pub mod columns;
pub mod dag;
pub mod domain;
pub mod findings;
pub mod jinja;
pub mod json;
pub mod macros;
pub mod names;
pub mod order;
pub mod panel;
pub mod pr_dag;
pub mod refs;
pub mod report;
pub mod scan;
pub mod script;
pub mod seeds;
pub mod sourcemap;
pub mod span;
pub mod table;
pub mod text;
pub mod unit_tests;
