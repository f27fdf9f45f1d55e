//! A hash map that is divided into segments, each of which is a hash table of its own that
//! receives a part of the hash space.
//!
//! `ConcurrentHashMap` is the map. Its state is described by `MapState`, that of a segment by
//! `SegmentState`: every operation is specified by the state that it leaves. `laws` and
//! `sizing_laws` state what follows from those descriptions across operations.
//!
//! A map here has one owner. A map that threads share keeps each segment (`CHMSegment`) behind a
//! pointer of its own and finds the segment for a hash with a `SegmentMask`.
pub mod arith;
pub mod chain;
pub mod hash_map;
pub mod hashing;
pub mod inner;
pub mod laws;
pub mod load_factor;
pub mod map_state;
pub mod partition;
pub mod segment;
pub mod segment_state;
mod seqs;
pub mod sizing_laws;

pub use chain::CHMEntry;
pub use hash_map::ConcurrentHashMap;
pub use inner::{CHMInner, SegmentMask};
pub use load_factor::LoadFactor;
pub use segment::CHMSegment;
