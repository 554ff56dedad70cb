//! Classic solution methods of game theory: pure-strategy bounds, expected
//! payoffs and the Brown-Robinson (fictitious play) method for matrix games,
//! a refinement driver for continuous convex-concave games, Shapley values of
//! cooperative games, Nash / Pareto analysis of bi-matrix games, backward
//! induction on game trees and sealed-bid auctions.
//!
//! All arithmetic is exact: payoffs are integers and every ratio is a
//! `Fraction`.
pub mod extremes;
pub mod zero_sum;
pub mod fraction;
pub mod random;
pub mod brown_robinson;
pub mod continuous;
pub mod window;
pub mod discretization;
pub mod cooperative;
pub mod non_cooperative;
pub mod highlight;
pub mod auction;
pub mod backward_induction;
