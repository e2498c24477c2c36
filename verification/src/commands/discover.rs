//! Reading a host's mounted storage into configuration resources: the
//! parsers for pool listings and Lustre mount tables.

use crate::config;
use crate::config::{lustre_line_ok, lustre_mountpoint, lustre_pool, lustre_target, mount_opts,
    svname_kind_of};
use crate::resource::params_model;
use crate::strutil::{lines_spec, split_lines};
use vstd::prelude::*;

verus! {

/// Arguments of the discovery subcommand.
pub struct DiscoverArgs {
    pub verbose: bool,
    pub hostnames: Vec<String>,
}

/// Turn pool-listing output, one pool name per line, into storage-pool
/// resources keyed by pool name.
pub fn parse_zpool_output(output: String) -> (r: Vec<(String, config::Resource)>)
    ensures
        r@.len() == lines_spec(output@).len(),
        forall|i: int|
            0 <= i < r@.len() ==> {
                let line = lines_spec(output@)[i];
                &&& (#[trigger] r@[i]).0@ == line
                &&& r@[i].1.kind@ == "heartbeat/ZFS"@
                &&& params_model(r@[i].1.parameters@) == seq![("pool"@, line)]
                &&& r@[i].1.requires is None
            },
{
    let lines = split_lines(output.as_str());
    let mut out: Vec<(String, config::Resource)> = Vec::new();
    let mut i: usize = 0;
    while i < lines.len()
        invariant
            0 <= i <= lines@.len(),
            lines.deep_view() == lines_spec(output@),
            lines@.len() == lines_spec(output@).len(),
            out@.len() == i,
            forall|j: int|
                0 <= j < i ==> {
                    let line = lines_spec(output@)[j];
                    &&& (#[trigger] out@[j]).0@ == line
                    &&& out@[j].1.kind@ == "heartbeat/ZFS"@
                    &&& params_model(out@[j].1.parameters@) == seq![("pool"@, line)]
                    &&& out@[j].1.requires is None
                },
        decreases lines@.len() - i,
    {
        proof {
            assert(lines.deep_view()[i as int] == lines@[i as int]@);
        }
        let name = lines[i].clone();
        let res = config::Resource::new_zpool(lines[i].clone());
        out.push((name, res));
        i = i + 1;
    }
    out
}

/// Turn Lustre mount-table output into target resources keyed by the
/// device (`pool/target`); each resource requires its pool. A line that
/// cannot be read makes the whole output a configuration error.
pub fn parse_lustre_output(output: String) -> (r: Result<
    Vec<(String, config::Resource)>,
    config::ConfigError,
>)
    ensures
        r is Ok == (forall|i: int|
            0 <= i < lines_spec(output@).len() ==> lustre_line_ok(#[trigger] lines_spec(output@)[i])),
        match r {
            Ok(out) => {
                &&& out@.len() == lines_spec(output@).len()
                &&& forall|i: int|
                    0 <= i < out@.len() ==> {
                        let line = lines_spec(output@)[i];
                        &&& (#[trigger] out@[i]).0@ == lustre_target(line)
                        &&& out@[i].1.kind@ == "lustre/Lustre"@
                        &&& params_model(out@[i].1.parameters@) =~= seq![
                            ("mountpoint"@, lustre_mountpoint(line)),
                            ("target"@, lustre_target(line)),
                            ("kind"@, svname_kind_of(mount_opts(line)).unwrap()),
                        ]
                        &&& (out@[i].1.requires matches Some(q) && q@ == lustre_pool(line))
                    }
            },
            Err(_) => true,
        },
{
    let lines = split_lines(output.as_str());
    let mut out: Vec<(String, config::Resource)> = Vec::new();
    let mut i: usize = 0;
    while i < lines.len()
        invariant
            0 <= i <= lines@.len(),
            lines.deep_view() == lines_spec(output@),
            lines@.len() == lines_spec(output@).len(),
            out@.len() == i,
            forall|j: int|
                0 <= j < i ==> lustre_line_ok(#[trigger] lines_spec(output@)[j]),
            forall|j: int|
                0 <= j < i ==> {
                    let line = lines_spec(output@)[j];
                    &&& (#[trigger] out@[j]).0@ == lustre_target(line)
                    &&& out@[j].1.kind@ == "lustre/Lustre"@
                    &&& params_model(out@[j].1.parameters@) =~= seq![
                        ("mountpoint"@, lustre_mountpoint(line)),
                        ("target"@, lustre_target(line)),
                        ("kind"@, svname_kind_of(mount_opts(line)).unwrap()),
                    ]
                    &&& (out@[j].1.requires matches Some(q) && q@ == lustre_pool(line))
                },
        decreases lines@.len() - i,
    {
        proof {
            assert(lines.deep_view()[i as int] == lines@[i as int]@);
        }
        let res = match config::Resource::new_lustre(lines[i].as_str()) {
            Ok(res) => res,
            Err(e) => {
                return Err(e);
            },
        };
        proof {
            let line = lines_spec(output@)[i as int];
            let pm = params_model(res.parameters@);
            reveal_strlit("mountpoint");
            reveal_strlit("target");
            assert("mountpoint"@.len() == 10);
            assert("target"@.len() == 6);
            assert(pm.len() == 3);
            assert(pm[0].0 == "mountpoint"@);
            assert(pm[0].0 != "target"@);
            assert(crate::host::assoc_get(pm, "target"@) == crate::host::assoc_get(
                pm.skip(1),
                "target"@,
            ));
            assert(pm.skip(1)[0] == pm[1]);
            assert(pm.skip(1)[0].0 == "target"@);
            assert(crate::host::assoc_get(pm.skip(1), "target"@) == Some(pm.skip(1)[0].1));
            assert(crate::host::assoc_get(pm, "target"@) == Some(lustre_target(line)));
        }
        let target = match crate::host::get_param(&res.parameters, "target") {
            Some(t) => t.clone(),
            None => {
                proof {
                    assert(false);
                }
                return Err(config::ConfigError::MalformedMountLine);
            },
        };
        out.push((target, res));
        i = i + 1;
    }
    Ok(out)
}

} // verus!
