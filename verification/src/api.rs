//! Plain records exchanged with the host layer.

use vstd::prelude::*;

verus! {

/// A note the host keeps about one remote item, keyed by the item's uri.
pub struct Note {
    pub uri: String,
    pub course: String,
    pub body: String,
}

/// A request to open one locally mirrored file.
pub struct File {
    pub path: String,
}

} // verus!
