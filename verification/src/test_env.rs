//! Support for the test harness: the description of a remote agent
//! under test and the log line a resource-agent script is expected to
//! write.

use crate::host::{assoc_get, get_param};
use crate::resource::{params_model, Resource};
use vstd::prelude::*;

verus! {

/// What is needed to launch a remote agent in the test harness.
pub struct TestAgent {
    /// The port must be unique across all concurrently running tests.
    pub port: u16,
    /// An identifier for this agent when several share one machine.
    pub id: Option<String>,
}

impl TestAgent {
    pub fn new(port: u16, id: Option<String>) -> (r: TestAgent)
        ensures
            r.port == port,
            r.id == id,
    {
        TestAgent { port, id }
    }
}

/// The line a test resource-agent script writes for performing `op` on a
/// resource: the script's own name, the operation, and its identifying
/// parameters.
pub open spec fn agent_expected_line_form(op: Seq<char>, m: crate::resource::ResourceModel) -> Seq<
    char,
> {
    if m.kind == "heartbeat/ZFS"@ {
        "zfs "@ + op + " pool="@ + assoc_get(m.parameters, "pool"@).unwrap()
    } else {
        "lustre "@ + op + " mountpoint="@ + assoc_get(m.parameters, "mountpoint"@).unwrap()
            + " target="@ + assoc_get(m.parameters, "target"@).unwrap()
    }
}

/// The log line expected from the test resource-agent script after
/// performing `op` on `res`.
pub fn agent_expected_line(op: &str, res: &Resource) -> (r: String)
    requires
        res@.kind == "heartbeat/ZFS"@ || res@.kind == "lustre/Lustre"@,
        res@.kind == "heartbeat/ZFS"@ ==> assoc_get(res@.parameters, "pool"@) is Some,
        res@.kind == "lustre/Lustre"@ ==> assoc_get(res@.parameters, "mountpoint"@) is Some
            && assoc_get(res@.parameters, "target"@) is Some,
    ensures
        r@ == agent_expected_line_form(op@, res@),
{
    let mut out: String;
    if crate::strutil::str_eq(res.kind.as_str(), "heartbeat/ZFS") {
        out = "zfs ".to_owned();
        out.append(op);
        out.append(" pool=");
        let pool = get_param(&res.parameters, "pool");
        match pool {
            Some(p) => out.append(p.as_str()),
            None => {
                proof {
                    assert(false);
                }
            },
        }
        proof {
            assert(out@ =~= agent_expected_line_form(op@, res@));
        }
    } else {
        out = "lustre ".to_owned();
        out.append(op);
        out.append(" mountpoint=");
        match get_param(&res.parameters, "mountpoint") {
            Some(p) => out.append(p.as_str()),
            None => {
                proof {
                    assert(false);
                }
            },
        }
        out.append(" target=");
        match get_param(&res.parameters, "target") {
            Some(p) => out.append(p.as_str()),
            None => {
                proof {
                    assert(false);
                }
            },
        }
        proof {
            assert(out@ =~= agent_expected_line_form(op@, res@));
        }
    }
    out
}

} // verus!
