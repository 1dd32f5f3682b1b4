//! Which operating systems the expansion agent supports.

use vstd::prelude::*;

use crate::text::same_text;

verus! {

/// Whether the agent supports the target operating system named
/// `target_os` (as `std::env::consts::OS` names it): macOS only.
pub fn is_supported_platform(target_os: &str) -> (r: bool)
    ensures
        r == (target_os@ == "macos"@),
{
    same_text(target_os, "macos")
}

} // verus!
