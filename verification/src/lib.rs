//! Core of a client for a desktop message-bus protocol: the recursive
//! type-signature grammar, the conversion engine between the host's dynamic
//! values and the bus's typed wire values, a glob matcher over dot-segmented
//! bus names, the introspection model with its resolvers, and the pure
//! decision logic of the bus client.  Transport and the host's command
//! surface live outside this crate and consume these interfaces.

pub mod client;
pub mod convert;
pub mod error;
pub mod floatbits;
pub mod introspect;
pub mod numtext;
pub mod pattern;
pub mod signature;
pub mod value;
