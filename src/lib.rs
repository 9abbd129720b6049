//! Solvers for the 0/1 knapsack problem: Pisinger's MinKnap core
//! expansion with a compressed decision trail, a textbook dynamic program
//! and a greedy heuristic.

pub mod problem;
pub mod sol_tree;
pub mod efficiency;
pub mod minknap;
pub mod dynamic;
pub mod greedy;
pub mod text;
pub mod generate;
