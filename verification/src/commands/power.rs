//! Arguments of the direct power-control subcommand.

use crate::host::FenceCommand;
use vstd::prelude::*;

verus! {

/// Arguments of the power subcommand.
pub struct PowerArgs {
    /// The fencing action to perform.
    pub action: FenceCommand,
    pub hostnames: Vec<String>,
    pub verbose: bool,
    /// Fence agent to use, overriding what the configuration binds.
    pub fence_agent: Option<String>,
    pub username: Option<String>,
    pub password: Option<String>,
}

} // verus!
