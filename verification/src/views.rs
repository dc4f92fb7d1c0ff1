//! Canonical facts about the deep view of a segment vector, shared by the
//! whole crate: the view of a `Vec<String>` as a sequence of character
//! sequences keeps the length and the per-segment characters.

use vstd::prelude::*;

verus! {

/// The deep view of a segment vector has the vector's length.
pub broadcast proof fn lemma_segments_view_len(v: Vec<String>)
    ensures
        #[trigger] v.deep_view().len() == v@.len(),
{
}

/// The deep view of a segment vector holds each segment's characters.
pub broadcast proof fn lemma_segments_view_index(v: Vec<String>, i: int)
    requires
        0 <= i < v@.len(),
    ensures
        #[trigger] v.deep_view()[i] == v@[i]@,
{
}

} // verus!
