//! Parser for the textual query-plan reports of a streaming-SQL engine.
//!
//! A report is a run of titled sections (`== Optimized Physical Plan ==`),
//! each followed by an indentation-drawn forest of operator lines such as
//! `+- Exchange(distribution=[hash[account_id]])`.  [`parse_query_plan`]
//! turns the report into a [`QueryPlans`] value.  Every parsing function
//! is specified by a grammar function over `Seq<char>` and verified
//! against it.

pub mod attributes;
pub mod expression;
pub mod failure;
pub mod keys;
pub mod laws;
pub mod number;
pub mod plan;
pub mod section;
pub mod text;
pub mod tree;

pub use failure::{Failure, FailureKind, ParseFailure};
pub use plan::{Expression, Operator, QueryPlan, QueryPlans, Section};
pub use section::parse_query_plan;
