//! Configuration defaults shared by the reader and the writer.

use vstd::prelude::*;

verus! {

/// Size of the buffer used when payload bytes are streamed in chunks (4 MiB).
pub const BUFFER_SIZE: usize = 4194304;

/// The patterns that exempt entries from encryption where the caller configures none.
pub fn default_unencrypted_patterns() -> (patterns: Vec<&'static str>)
    ensures
        patterns@.len() == 2,
        patterns@[0]@ == "mp4"@,
        patterns@[1]@ == "flv"@,
{
    let mut patterns: Vec<&'static str> = Vec::new();
    patterns.push("mp4");
    patterns.push("flv");
    patterns
}

} // verus!
