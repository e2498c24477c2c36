//! The configuration-validation subcommand: assemble the cluster once
//! and report whether the document holds together.

use crate::cluster::Cluster;
use crate::commands::Cli;
use crate::manager::MgrContext;
use vstd::prelude::*;

verus! {

/// Arguments of the validate subcommand.
pub struct ValidateArgs {
    /// The configuration file to validate.
    pub config: String,
}

/// Assemble a cluster from the parsed document once, to report whether
/// the document holds together. Success and every error carry exactly
/// the assembly's own meaning.
pub fn validate(config: crate::config::Config, default_port: u16) -> (r: Result<
    Cluster,
    crate::config::ConfigError,
>)
    ensures
        match r {
            Ok(c) => crate::cluster::cluster_built_ok(config, c, default_port, false),
            Err(e) => crate::cluster::config_rejected(config, e),
        },
{
    let context = MgrContext::new(Cli::default());
    Cluster::from_config(config, context, default_port)
}

} // verus!
