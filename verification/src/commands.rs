//! The command-line surface shared by the manager and its subcommands:
//! the argument records and the error type commands report with.

pub mod discover;
pub mod power;
pub mod status;
pub mod unmanage;
pub mod validate;

use vstd::prelude::*;

verus! {

/// A command failed; the caller only turns this into the exit status,
/// so the error carries no further detail.
#[derive(Debug)]
pub struct EmptyError {}

/// What a command hands back: success, or a bare failure.
pub type CmdResult = Result<(), EmptyError>;

pub fn err() -> (r: CmdResult)
    ensures
        r is Err,
{
    Err(EmptyError {})
}

/// Arguments common to all commands.
pub struct Cli {
    pub config: Option<String>,
    pub socket: Option<String>,
    pub verbose: bool,
    pub mtls: bool,
    /// Manage mode actively starts and fails over resources; otherwise
    /// the manager only observes.
    pub manage_resources: bool,
    pub command: Option<Commands>,
}

impl Cli {
    /// The arguments before any flag or environment default is applied.
    pub open spec fn default_spec() -> Cli {
        Cli {
            config: None,
            socket: None,
            verbose: false,
            mtls: false,
            manage_resources: false,
            command: None,
        }
    }
}

impl Default for Cli {
    fn default() -> (r: Cli)
        ensures
            r == Cli::default_spec(),
    {
        Cli {
            config: None,
            socket: None,
            verbose: false,
            mtls: false,
            manage_resources: false,
            command: None,
        }
    }
}

/// The subcommands.
pub enum Commands {
    Status(status::StatusArgs),
    Start,
    Stop,
    Discover(discover::DiscoverArgs),
    Power(power::PowerArgs),
    Validate(validate::ValidateArgs),
}

} // verus!
