//! The key space and the server.

use vstd::prelude::*;

verus! {

/// Identifies this client to the server.
pub const USER_AGENT: &'static str = "hibp_password_downloader v0.1.0-rust";

/// Every request address starts with this.
pub const HIBP_ROOT: &'static str = "https://api.pwnedpasswords.com/range/";

/// The first range key.
pub const BEGIN: u32 = 0;

/// The last range key.
pub const END: u32 = 0xFFFFF;

/// How many range keys there are.
pub const LENGTH: u32 = END - BEGIN + 1;

} // verus!
