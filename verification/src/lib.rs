//! Exact and heuristic subset-sum solvers with a scheduler that decides
//! which solvers race on an instance.
pub mod spec;
pub mod bits;
pub mod sort;
pub mod knapsack;
pub mod signed;
pub mod bignum;
pub mod profile;
pub mod controller;
pub mod bitset;
pub mod engines;
pub mod scheduler;
pub mod heap;
pub mod gray;
pub mod select;
pub mod bigheap;
pub mod bigsum;
pub mod request;
