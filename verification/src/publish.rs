//! The publish decision: the rendered configuration is written if and only
//! if it differs from what is on disk. The atomic replacement itself is
//! file I/O and lives outside the library; the library owns the decision.

use vstd::prelude::*;
use crate::text::str_eq;

verus! {

/// Whether the rendered configuration must be published: exactly when it
/// differs, character for character, from the current on-disk content (an
/// absent file reads as empty content).
pub fn should_publish(current: &str, rendered: &str) -> (r: bool)
    ensures
        r == (current@ != rendered@),
{
    !str_eq(current, rendered)
}

} // verus!
