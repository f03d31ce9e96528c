// A verified client core for a superhero-data web service: signed URI
// construction, envelope decoding, and the earliest-shared-event query over
// two characters' event sets.  The I/O shell around it stays unverified and
// thin; every rule that decides what a request says or what a response means
// lives here, under contract.

pub mod correlate;
pub mod decode;
pub mod errors;
pub mod json;
pub mod query;
pub mod uri;

use vstd::prelude::*;

verus! {

/// The largest page size the service grants.  One request at this limit is
/// expected to hold a character's full event set, so nothing pages.
pub const MAX_LIMIT: u32 = 100;

} // verus!
