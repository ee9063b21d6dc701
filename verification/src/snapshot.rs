//! Where the state of a root is kept between runs.
use crate::aggregate::{Aggregate, AggregateRoot};
use vstd::prelude::*;

verus! {

/// A store that holds the root as it was last saved.
pub trait Snapshot<T: Aggregate> {
    type Error;

    /// The root as it was last saved; a root without aggregates where none
    /// was saved yet.
    fn load(&self) -> Result<AggregateRoot<T>, Self::Error>;

    /// Saves `root` in place of what was saved before. Saving a root that is
    /// saved already changes nothing.
    fn save(&mut self, root: &AggregateRoot<T>) -> Result<(), Self::Error>;
}

} // verus!
