//! In-memory inverted-index core: a postings accumulator that collects
//! (document, term) pairs during indexing, and a leapfrog intersection
//! engine that merges sorted posting-list cursors at query time.
use vstd::prelude::*;

pub mod intersection;
pub mod postings;
pub mod writer;

verus! {

/// Identifier of a document held in the index. Document ids inside a single
/// posting list are kept strictly increasing.
pub type DocId = u64;

/// Key under which postings are accumulated. Terms are only compared,
/// never interpreted.
pub type Term = u64;

} // verus!
