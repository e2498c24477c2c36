//! The unmanage subcommand: taking one resource out of active
//! management. The operation itself is not offered yet, so asking for it
//! reports failure.

use crate::commands::{err, CmdResult};
use vstd::prelude::*;

verus! {

/// Arguments of the unmanage subcommand.
pub struct UnmanageArgs {
    /// Resource to unmanage.
    pub resource: String,
}

/// Taking a resource out of management is not offered yet; the command
/// always reports failure.
pub fn unmanage(args: &UnmanageArgs) -> (r: CmdResult)
    ensures
        r is Err,
{
    let _ = args;
    err()
}

} // verus!
