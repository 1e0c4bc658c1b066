//! Budgeted reducer: the attacker model with a step budget.
pub mod budget;

pub use budget::{gates_commute, reduce_budget, reduce_budget_no_db, ReducerConfig, ReductionReport};
