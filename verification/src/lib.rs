//! Prio3, a verifiable distributed aggregation function.
//!
//! Clients share their measurements among a number of aggregators, and prove that what they share
//! is a valid measurement. The aggregators check the proofs together and add up what they hold,
//! and the sums combine to the aggregate of all measurements.
//!
//! - [`vdaf::prio3`] is the protocol; [`vdaf::prio3::model`] says what its steps compute,
//!   [`vdaf::prio3::direct`] what that means for their inputs and results, and
//!   [`vdaf::prio3::laws`] what the protocol promises as a whole.
//! - [`vdaf`] holds the parts that aggregation functions share, and [`vdaf::prg`] the seeds and
//!   the generators that expand them.
//! - [`pcp`] is the proof system, with the types of measurements in [`pcp::types`] and its
//!   completeness and soundness in [`pcp::laws`].
//! - [`prng`] makes field elements of pseudorandom bytes, and [`codec`] reads and writes messages.
//! - [`field`], [`field64`], [`field128`] and [`poly`] are the fields and polynomials over them,
//!   and [`arith`], [`bytes`], [`prime`] and [`text`] what all of this rests on.
pub mod arith;
pub mod bytes;
pub mod codec;
pub mod field;
pub mod field128;
pub mod field64;
pub mod pcp;
pub mod poly;
pub mod prime;
pub mod prng;
pub mod text;
pub mod vdaf;
