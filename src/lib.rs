//! A persistent content-addressed index: a Robin Hood hash table from the
//! digest of a content identifier to the byte offset of its frame in an
//! archive, with a builder, a validated binary layout and a lookup facade.

pub mod hash;
pub mod key_value_pair;
pub mod table;
pub mod layout;
pub mod builder;
pub mod index;
pub mod auth;
