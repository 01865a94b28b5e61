//! Approximate solvers for the travelling salesman problem: the order-based
//! crossover operator, the population steps of the genetic solver, tour
//! handling shared by both solvers, and a toy discrete metric.

pub mod tour;
pub mod crossover;
pub mod population;
mod chance;
pub mod discrete_point;
pub mod ant;
