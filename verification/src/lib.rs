//! A remote hierarchical key-value parameter store used as a file tree.
//!
//! Files of any size are stored as parameters of bounded size: the codec cuts a
//! byte sequence into chunks under numbered keys and puts listed chunks back
//! together. Around it stand the rules of the tree sync engine: which keys a
//! local tree maps to, what a copy between prefixes writes, how parameters are
//! exported as environment assignments, how a paged listing is followed, and
//! which secrets a service configuration refers to.
//!
//! The library computes on plain values. It sends nothing and reads no file:
//! a caller performs the requests that it returns and hands back what came of
//! them.
pub mod codec;
pub mod compose;
pub mod envfile;
pub mod key;
pub mod listing;
pub mod models;
pub mod number;
pub mod pairs;
pub mod roundtrip;
pub mod store;
pub mod sync;
pub mod text;
