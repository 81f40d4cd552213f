//! A dual-index registry of resting trade orders.
//!
//! The registry records each submitted order under a monotonically increasing
//! identifier and routes it, as the routing mode selects, into an index keyed
//! by the submitting account, into an index keyed by the ordered
//! (sell asset, buy asset) pair, or into both under one shared id. Queries
//! project one key's orders back as a sequence sorted ascending by id; an
//! absent key, in either index, yields the empty sequence.
//!
//! The counter and the two indices are three separate pieces of state: an
//! entry of one index can never collide with an entry of the other, whatever
//! keys they use.

/// The inner book of one index key: orders kept strictly sorted by id.
pub mod book;
/// Decoding of a submission payload into an [`order::Order`].
pub mod codec;
/// The two outer indices: by account and by asset pair.
pub mod index;
/// Laws that hold of every sequence of submissions.
pub mod laws;
/// The order record and its mathematical model.
pub mod order;
/// The registry itself: id allocation, routing, and the sorted views.
pub mod store;
