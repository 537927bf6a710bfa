//! The solver engines that race on an instance.
pub mod bitset_dp;
pub mod digit_filter;
pub mod hash_mitm;
pub mod group_decompose;
pub mod micro_decompose;
pub mod mitm;
pub mod gradient;
pub mod backward;
pub mod genetic;
pub mod density_split;
pub mod md_mitm;
