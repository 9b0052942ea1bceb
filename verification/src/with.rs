//! Builder-style attachment of shared values.

use std::sync::Arc;
use vstd::prelude::*;

verus! {

/// A value that can take a shared item and hand itself back, so that calls
/// can be chained.
pub trait With<T: ?Sized> {
    fn with(self, item: &Arc<T>) -> Self;
}

} // verus!
