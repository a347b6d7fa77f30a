//! The lookup-table payloads, the multi-output bootstrap and the digit
//! decomposition built on them.

pub mod digit_decompose;
pub mod noiseless;
pub mod pbs_many_lut;
pub mod tools;
