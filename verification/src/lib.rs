//! A codec for a compact text format of tagged tokens.
//!
//! A value is one of: the null value `N`; a boolean `T` or `F`; an integer
//! `i<digits>e`, with `-` behind the `i` if it is negative; a string
//! `<length>:<bytes>`, where the length counts bytes of UTF-8; a list
//! `l<items>e`; a dictionary `d<key><value>...e`, its pairs in the order in
//! which they were met. Nothing is escaped and nothing separates the
//! tokens: a string ends where its length says, everything else at its `e`.
//!
//! [`ser::Serializer`] writes tokens to the end of a text, and
//! [`de::Deserializer`] reads them from the front of one. Both work token
//! by token, so that a caller who walks a structure of its own can write and
//! read it without building a [`value::Value`] first; [`ser::to_string`] and
//! [`de::from_str`] do the walk for a `Value`. What the tokens are is
//! defined in [`wire`], and [`laws`] holds what is proved of them.

pub mod de;
pub mod decimal;
pub mod error;
pub mod laws;
pub mod ser;
pub mod text;
pub mod value;
pub mod wire;
