pub mod config;
pub mod entities;
pub mod globs;
pub mod load_order;
pub mod loadorder;
pub mod order;
pub mod pack;
pub mod radix;
pub mod ship;
pub mod unpack;
pub mod util;
pub mod wrap;

use vstd::prelude::*;

verus! {

/// Hard ceiling on the byte length of any single networked script artifact.
pub const MAX_LUA_SIZE: usize = 65535;

/// Delimiter byte used by the client-safe frame format in place of NUL.
pub const TERMINATOR_HACK: u8 = 124;

} // verus!
