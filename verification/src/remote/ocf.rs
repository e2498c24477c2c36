//! Resource-agent operations as they are run on a host: the operation
//! vocabulary, the environment-variable argument convention, and the
//! mapping between integer exit codes and typed statuses.

use vstd::prelude::*;

verus! {

/// Resource-agent operations that can be performed on a resource.
#[derive(Clone, Copy, Debug, PartialEq, Eq, Structural)]
pub enum Operation {
    Start,
    Stop,
    Monitor,
}

/// The word handed to the resource-agent script for an operation.
pub open spec fn op_label(op: Operation) -> Seq<char> {
    match op {
        Operation::Start => "start"@,
        Operation::Stop => "stop"@,
        Operation::Monitor => "monitor"@,
    }
}

impl Operation {
    /// The operation's name, as passed as the script's single argument.
    pub fn label(&self) -> (r: &'static str)
        ensures
            r@ == op_label(*self),
    {
        match self {
            Operation::Start => "start",
            Operation::Stop => "stop",
            Operation::Monitor => "monitor",
        }
    }
}

/// Resource-agent arguments: key-value pairs passed to the script as
/// environment variables.
pub struct Arguments {
    pub args: Vec<(String, String)>,
}

/// The prefix every resource parameter key carries in the script's
/// environment.
pub open spec fn reskey_prefix() -> Seq<char> {
    "OCF_RESKEY_"@
}

impl Arguments {
    /// Prefix every key with `OCF_RESKEY_`, as the resource-agent calling
    /// convention expects.
    pub fn from_pairs(pairs: &Vec<(String, String)>) -> (r: Arguments)
        ensures
            r.args@.len() == pairs@.len(),
            forall|i: int|
                0 <= i < pairs@.len() ==> (#[trigger] r.args@[i]).0@ == reskey_prefix()
                    + pairs@[i].0@ && r.args@[i].1@ == pairs@[i].1@,
    {
        let mut args: Vec<(String, String)> = Vec::new();
        let mut i: usize = 0;
        while i < pairs.len()
            invariant
                0 <= i <= pairs@.len(),
                args@.len() == i,
                forall|j: int|
                    0 <= j < i ==> (#[trigger] args@[j]).0@ == reskey_prefix() + pairs@[j].0@
                        && args@[j].1@ == pairs@[j].1@,
            decreases pairs@.len() - i,
        {
            let mut key: String = "OCF_RESKEY_".to_owned();
            key.append(pairs[i].0.as_str());
            let value = pairs[i].1.clone();
            args.push((key, value));
            i = i + 1;
        }
        Arguments { args }
    }
}

/// Resource-agent statuses, as named by the cluster-resource-agent
/// calling convention's return codes.
#[derive(Clone, Copy, Debug, PartialEq, Eq, Structural)]
pub enum Status {
    Success,
    ErrGeneric,
    ErrArgs,
    ErrUnimplemented,
    ErrPerm,
    ErrInstalled,
    ErrConfigured,
    ErrNotRunning,
}

/// The status a resource-agent exit code denotes: codes zero through
/// seven map to the eight statuses in order; any other code is reported
/// as `ErrUnimplemented`.
pub open spec fn status_of_code(code: int) -> Status {
    if code == 0 {
        Status::Success
    } else if code == 1 {
        Status::ErrGeneric
    } else if code == 2 {
        Status::ErrArgs
    } else if code == 3 {
        Status::ErrUnimplemented
    } else if code == 4 {
        Status::ErrPerm
    } else if code == 5 {
        Status::ErrInstalled
    } else if code == 6 {
        Status::ErrConfigured
    } else if code == 7 {
        Status::ErrNotRunning
    } else {
        Status::ErrUnimplemented
    }
}

/// The exit code a status reports itself as.
pub open spec fn code_of_status(st: Status) -> int {
    match st {
        Status::Success => 0,
        Status::ErrGeneric => 1,
        Status::ErrArgs => 2,
        Status::ErrUnimplemented => 3,
        Status::ErrPerm => 4,
        Status::ErrInstalled => 5,
        Status::ErrConfigured => 6,
        Status::ErrNotRunning => 7,
    }
}

impl Status {
    /// The typed status for a resource-agent exit code.
    pub fn from_code(code: i32) -> (r: Status)
        ensures
            r == status_of_code(code as int),
    {
        match code {
            0 => Status::Success,
            1 => Status::ErrGeneric,
            2 => Status::ErrArgs,
            3 => Status::ErrUnimplemented,
            4 => Status::ErrPerm,
            5 => Status::ErrInstalled,
            6 => Status::ErrConfigured,
            7 => Status::ErrNotRunning,
            _ => Status::ErrUnimplemented,
        }
    }

    /// The exit code this status reports itself as.
    pub fn code(&self) -> (r: i32)
        ensures
            r as int == code_of_status(*self),
    {
        match self {
            Status::Success => 0,
            Status::ErrGeneric => 1,
            Status::ErrArgs => 2,
            Status::ErrUnimplemented => 3,
            Status::ErrPerm => 4,
            Status::ErrInstalled => 5,
            Status::ErrConfigured => 6,
            Status::ErrNotRunning => 7,
        }
    }
}

impl core::convert::From<i32> for Status {
    /// The typed status for a resource-agent exit code.
    fn from(code: i32) -> (r: Status) {
        Status::from_code(code)
    }
}

impl vstd::std_specs::convert::FromSpecImpl<i32> for Status {
    open spec fn obeys_from_spec() -> bool {
        true
    }

    open spec fn from_spec(code: i32) -> Status {
        status_of_code(code as int)
    }
}

/// The mapping of exit codes to statuses is total, and on codes zero
/// through seven it is a bijection whose inverse is the status's own
/// reported code; every other code collapses onto `ErrUnimplemented`.
pub proof fn lemma_status_code_bijection()
    ensures
        forall|c: int| 0 <= c < 8 ==> code_of_status(#[trigger] status_of_code(c)) == c,
        forall|st: Status| status_of_code(#[trigger] code_of_status(st)) == st,
        forall|c: int| !(0 <= c < 8) ==> status_of_code(c) == Status::ErrUnimplemented,
{
}

/// The path of the resource-agent script for `resource` under the
/// resource-agent root directory.
pub fn script_path(ocf_root: &str, resource: &str) -> (r: String)
    ensures
        r@ == ocf_root@ + "/resource.d/"@ + resource@,
{
    let mut out = ocf_root.to_owned();
    out.append("/resource.d/");
    out.append(resource);
    out
}

} // verus!
