//! A compact, read-only, byte-string-keyed dictionary engine.
//!
//! A dictionary is opened from a serialized index: a validated byte image
//! holding the key/value entries in strictly increasing key order.  Once
//! open it answers exact lookups, prefix completions, fuzzy
//! (edit-distance-bounded) lookups and multi-word completions, all through
//! contracts that pin each result as a function of the dictionary's
//! entries and the query alone.

pub mod bytes;
pub mod dictionary;
pub mod distance;
pub mod index;
pub mod order;
pub mod results;
pub mod strategy;
