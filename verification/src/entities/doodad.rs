//! Decorative entities with no behaviour of their own.

use vstd::prelude::*;

verus! {

/// A purely decorative entity; effects may rename it, nothing else touches it.
#[derive(Clone, Debug)]
pub struct Doodad {
    pub name: String,
    pub is_removable: bool,
}

} // verus!
