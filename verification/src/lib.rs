//! A pipes-and-filters framework for streams of sensor data chunks.
//!
//! This crate holds the verified logic of the framework: the bounded buffers and the
//! windowing state machine that every filter stage runs, the reader and writer
//! planning over dataset shapes, and the prime factorisation used to size chunks.
#![allow(unused_imports)]

pub mod chain;
pub mod primes;
pub mod filters;
pub mod readwrite;

pub use chain::{Buffer, Stage};
pub use filters::{DoubleFilter, FilterConfig, IdentityFilter};
pub use readwrite::{EmptyReader, EmptyWriter};
