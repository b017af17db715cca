use vstd::prelude::*;

use crate::vector::Vector3;

verus! {

/// A point mass as the tree sees it: a stable identity, a grid position and a
/// positive whole mass.
#[derive(Debug, Clone, Copy, PartialEq, Eq, Structural)]
pub struct Body {
    pub id: u32,
    pub pos: Vector3,
    pub mass: u64,
}

} // verus!
