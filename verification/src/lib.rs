pub mod alphabet;
pub mod arguments;
pub mod batch;
pub mod canonical;
pub mod compat;
pub mod configured;
pub mod digest;
pub mod encode;
pub mod error;
pub mod execution;
pub mod fallback;
pub mod lenient;
pub mod plan;
pub mod policy;
pub mod roundtrip;
pub mod symbols;
