//! The one failure the solver's own logic can report: a reference to an item
//! id that the catalog does not hold. I/O and parse failures belong to the
//! configuration-loading layer around the library.

use vstd::prelude::*;

verus! {

/// Error raised while catalog or planet data is resolved: some recipe input
/// or planet resource names an item id absent from the catalog.
#[derive(Debug)]
pub enum Error {
    MissingItem(String),
}

impl Error {
    /// Builds the missing-item error for the given id.
    pub fn create_missing_item(item_id: String) -> (r: Self)
        ensures
            r == Error::MissingItem(item_id),
    {
        Self::MissingItem(item_id)
    }
}

} // verus!
