//! Assigns rated players to teams of five that respect a scheduling
//! compatibility rule, repairs teams that break it, and then evens out the
//! rating totals of the teams by pairwise swaps.

pub mod player;
pub mod sorter;
pub mod fixer;
pub mod balancer;
pub mod pipeline;
