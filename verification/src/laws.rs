//! What the library's operations are for, stated of their arguments and results alone.
//!
//! The laws speak of calls: where a function, called with some arguments, may give some result, then
//! the arguments and the result stand in the relation that the law states. Arithmetic comes from
//! outside. Laws that tell what it adds up to hold for every arithmetic that keeps the usual rules
//! under some reading of its values.
pub mod arithmetic;
pub mod building;
pub mod callbacks;
pub mod commands;
pub mod devices;
pub mod graphs;
pub mod keeping;
pub mod matrices;
pub mod messages;
pub mod playing;
pub mod queues;
pub mod recording;
pub mod requests;
pub mod routers;
pub mod streams;
pub mod textmaps;
pub mod transfers;
pub mod wire;
