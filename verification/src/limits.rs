//! Size limits of the wire format.
use vstd::prelude::*;

verus! {

/// Longest request line, in bytes.
pub const MAX_REQUEST_LINE: usize = 8 * 1024;

/// Longest status line, in bytes.
pub const MAX_STATUS_LINE: usize = 64;

/// Largest header block, in bytes.
pub const MAX_HEADERS: usize = 16 * 1024;

/// Largest body, in bytes.
pub const MAX_BODY: usize = 10 * 1024 * 1024;

} // verus!
