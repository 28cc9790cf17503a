//! Verified host side of a prover whose heavy arithmetic may run elsewhere.
//!
//! Two protocols hand their large planes to an external provider and keep every
//! transcript operation on the host: the zerocheck prover with a resident AB
//! prefix ([`resident_ab`]), and the recursive opening prover whose first folds a
//! provider makes ([`resident_prefix`], [`started_prefix`]).
pub mod field;
pub mod unreduced;
pub mod multilinear;
pub mod rounds;
pub mod sumcheck;
pub mod transcript;
pub mod mix_transcript;
pub mod padding;
pub mod univariate;
pub mod zerocheck;
pub mod resident_ab;
pub mod zerocheck_host;
pub mod cpu_ab;
pub mod ligerito;
pub mod host;
pub mod resident_prefix;
pub mod started_prefix;
pub mod cpu_prefix;
pub mod opening;
pub mod extension;
pub mod faithful;
pub mod running;
pub mod reader;
pub mod replay;
pub mod opened;
pub mod stopped;
pub mod unique;
pub mod parity;
pub mod batch;
pub mod admission;
pub mod repeat;
pub mod zerocheck_parity;
pub mod zerocheck_reader;
pub mod tail;
pub mod zerocheck_replay;
pub mod faults;
pub mod keccak;
pub mod keccak_steps;
pub mod keccak3;
pub mod block_reading;
pub mod samples;
