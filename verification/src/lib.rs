//! A block-based audio processing engine: a graph of processing nodes that is
//! run once per block of samples, and the delay-line building blocks that the
//! nodes are made of.
//!
//! The logic here is verified. Contracts are stated over sequences, maps
//! and integers; sample values are carried through as an opaque `Copy`
//! type, so the library says where each sample goes and never what it is.
//! What the library takes from the slot map and from the bump arena it
//! takes on trust, through the few functions of `handle` and `arena`.

pub mod account;
pub mod adapter;
pub mod allocator;
pub mod arena;
pub mod borrow;
pub mod buffer;
pub mod chord;
pub mod convert;
pub mod delay_line;
pub mod engine;
pub mod graph;
pub mod handle;
pub mod midi;
pub mod note;
pub mod pipeline;
pub mod processor;
pub mod resample;
pub mod ring;
pub mod sample;
pub mod voice;
