//! How much memory the machine has to spare, asked of the `sysinfo` crate.

use vstd::prelude::*;
use sysinfo::SystemExt;

verus! {

/// Asks `sysinfo` for the memory that is available for use, in bytes, with
/// `System::new_all` and `SystemExt::available_memory`. The figure is the
/// machine's at the moment of the call, so the contract states nothing of it;
/// where the machine does not tell, the crate returns 0.
#[verifier::external_body]
pub(crate) fn available_memory() -> (bytes: u64) {
    sysinfo::System::new_all().available_memory()
}

} // verus!
