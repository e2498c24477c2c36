//! The manager's shared context: the output stream that status changes
//! are reported to, and the command-line arguments the process was
//! started with.

use crate::commands::Cli;
use crate::LogStream;
use vstd::prelude::*;

verus! {

/// State shared between the manager's collaborators.
pub struct MgrContext {
    pub out_stream: LogStream,
    pub args: Cli,
}

impl MgrContext {
    pub fn new(args: Cli) -> (r: MgrContext)
        ensures
            r.out_stream is Stdout,
            r.args == args,
    {
        MgrContext { out_stream: LogStream::new_stdout(), args }
    }
}

impl Default for MgrContext {
    fn default() -> (r: MgrContext)
        ensures
            r.out_stream is Stdout,
            r.args == Cli::default_spec(),
    {
        MgrContext { out_stream: LogStream::new_stdout(), args: Cli::default() }
    }
}

} // verus!
