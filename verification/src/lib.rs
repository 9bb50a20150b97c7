//! An in-process message bus: publishers put messages in, a pipeline of processors
//! rewrites them, and the bus hands each result to the listeners it is addressed to.
//! Channels (in memory, sorted by topic, or watched by an observer) carry messages
//! between parts of a program.
pub mod channel;
pub mod engine;
pub mod message;
pub mod names;
pub mod preprocessor;
