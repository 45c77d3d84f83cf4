//! Places of the primitive types, which every pool holds first.

use vstd::prelude::*;
use crate::IdSize;

verus! {

pub const VOID: IdSize = 1;

pub const BOOL: IdSize = 2;

pub const INT: IdSize = 3;

pub const FLOAT: IdSize = 4;

} // verus!
