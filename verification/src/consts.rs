//! Shared constants: the persistence format version, field separators, and
//! the raw key codes the classifier recognizes.

use vstd::prelude::*;

verus! {

/// Version tag written at the head of every saved grid.
pub const FILE_FORMAT_VERSION: u8 = 1;

pub const CH_COMMA: char = ',';

pub const CH_NL: char = '\n';

pub const UP: i32 = 65;

pub const DOWN: i32 = 66;

pub const LEFT: i32 = 68;

pub const RIGHT: i32 = 67;

pub const Q: i32 = 81;

pub const TAB: i32 = 9;

pub const ENTER: i32 = 10;

pub const BCKSPC: i32 = 127;

pub const C_A: i32 = 97;

pub const C_Z: i32 = 122;

pub const SPACE: i32 = 32;

} // verus!
