//! The configuration document, as the model sees it: hosts, their
//! resources with symbolic dependency edges, and failover pairs.

use crate::strutil::{
    contains_sub, filter_nonempty, first_index_of, prefix_until, retain_nonempty, split_char,
    split_char_spec, starts_with, starts_with_spec, trim_parens, trim_parens_spec,
};
use vstd::prelude::*;

verus! {

/// Why a configuration document cannot be assembled into a cluster.
#[derive(Debug)]
pub enum ConfigError {
    /// A resource names a `requires` dependency that no resource of its
    /// host carries.
    UnresolvedRequires,
    /// Two resources of one host share an identifier.
    DuplicateResourceId,
    /// A failover pair does not hold exactly two hostnames.
    InvalidFailoverPair,
    /// A host has failover pairs configured but none names it.
    MissingFailoverPartner,
    /// A failover pair names a host the configuration does not hold.
    UnknownFailoverHost,
    /// A host address carries a malformed port.
    BadHostAddress,
    /// A resource without a `requires` edge is not a storage pool.
    RootNotAPool,
    /// The dependency edges close a cycle, so no tree contains them.
    DependencyCycle,
    /// A line that should describe a mounted Lustre target cannot be
    /// read.
    MalformedMountLine,
    /// The fencing binding of a host cannot be built.
    Fence(crate::host::FenceConfigError),
}

/// A parsed configuration document.
#[derive(Debug)]
pub struct Config {
    pub hosts: Vec<Host>,
    pub failover_pairs: Option<Vec<Vec<String>>>,
}

/// One host of the configuration document.
#[derive(Debug)]
pub struct Host {
    pub hostname: String,
    /// Resources keyed by a unique identifier.
    pub resources: Vec<(String, Resource)>,
    /// Name of the fence agent used for fencing this host.
    pub fence_agent: Option<String>,
    /// Fence parameters for this host.
    pub fence_parameters: Option<Vec<(String, String)>>,
}

/// One resource of the configuration document.
#[derive(Debug, PartialEq)]
pub struct Resource {
    /// A resource-agent identifier, such as `heartbeat/ZFS` or
    /// `lustre/Lustre`.
    pub kind: String,
    /// The parameters passed to the resource agent.
    pub parameters: Vec<(String, String)>,
    /// At most one dependency: the named resource must be started before
    /// this one.
    pub requires: Option<String>,
}

/// The mathematical value of a configured resource.
#[verifier::ext_equal]
pub struct ConfigResourceModel {
    pub kind: Seq<char>,
    pub parameters: Seq<(Seq<char>, Seq<char>)>,
    pub requires: Option<Seq<char>>,
}

pub open spec fn cres_model(r: Resource) -> ConfigResourceModel {
    ConfigResourceModel {
        kind: r.kind@,
        parameters: crate::resource::params_model(r.parameters@),
        requires: match r.requires {
            Some(q) => Some(q@),
            None => None,
        },
    }
}

impl View for Resource {
    type V = ConfigResourceModel;

    open spec fn view(&self) -> ConfigResourceModel {
        cres_model(*self)
    }
}

/// The mathematical value of a configured host.
#[verifier::ext_equal]
pub struct ConfigHostModel {
    pub hostname: Seq<char>,
    pub resources: Seq<(Seq<char>, ConfigResourceModel)>,
    pub fence_agent: Option<Seq<char>>,
    pub fence_parameters: Option<Seq<(Seq<char>, Seq<char>)>>,
}

/// The models of a host's resource entries, in configuration order.
pub open spec fn entries_model(v: Seq<(String, Resource)>) -> Seq<(Seq<char>, ConfigResourceModel)> {
    v.map_values(|e: (String, Resource)| (e.0@, cres_model(e.1)))
}

pub open spec fn chost_model(h: Host) -> ConfigHostModel {
    ConfigHostModel {
        hostname: h.hostname@,
        resources: entries_model(h.resources@),
        fence_agent: match h.fence_agent {
            Some(a) => Some(a@),
            None => None,
        },
        fence_parameters: match h.fence_parameters {
            Some(p) => Some(crate::resource::params_model(p@)),
            None => None,
        },
    }
}

impl View for Host {
    type V = ConfigHostModel;

    open spec fn view(&self) -> ConfigHostModel {
        chost_model(*self)
    }
}

/// The whitespace-separated tokens of a mount table line.
pub open spec fn mount_tokens(line: Seq<char>) -> Seq<Seq<char>> {
    filter_nonempty(split_char_spec(line, ' '))
}

/// The option strings of a mount table line: the sixth token without its
/// brackets, split at commas.
pub open spec fn mount_opts(line: Seq<char>) -> Seq<Seq<char>> {
    split_char_spec(trim_parens_spec(mount_tokens(line)[5]), ',')
}

/// The target kind named by an option list: the last `svname=` option
/// naming a metadata, management or object-storage target wins.
pub open spec fn svname_kind_of(opts: Seq<Seq<char>>) -> Option<Seq<char>>
    decreases opts.len(),
{
    if opts.len() == 0 {
        None
    } else {
        let rest = svname_kind_of(opts.drop_last());
        let last = opts.last();
        if starts_with_spec(last, "svname="@) {
            if contains_sub(last, "MDT"@) {
                Some("mdt"@)
            } else if contains_sub(last, "MGS"@) {
                Some("mgs"@)
            } else if contains_sub(last, "OST"@) {
                Some("ost"@)
            } else {
                rest
            }
        } else {
            rest
        }
    }
}

/// A mount table line describes a Lustre target when it has at least six
/// tokens and its options name the target's kind.
pub open spec fn lustre_line_ok(line: Seq<char>) -> bool {
    mount_tokens(line).len() >= 6 && svname_kind_of(mount_opts(line)) is Some
}

/// The device token of a mount line.
pub open spec fn lustre_target(line: Seq<char>) -> Seq<char> {
    mount_tokens(line)[0]
}

/// The pool part of the device token: everything before the first slash.
pub open spec fn lustre_pool(line: Seq<char>) -> Seq<char> {
    let dev = lustre_target(line);
    dev.take(first_index_of(dev, '/'))
}

/// The mountpoint token of a mount line.
pub open spec fn lustre_mountpoint(line: Seq<char>) -> Seq<char> {
    mount_tokens(line)[2]
}

impl Resource {
    /// The storage-pool resource for a pool name.
    pub fn new_zpool(pool: String) -> (r: Resource)
        ensures
            r.kind@ == "heartbeat/ZFS"@,
            crate::resource::params_model(r.parameters@) =~= seq![("pool"@, pool@)],
            r.requires is None,
    {
        let mut parameters: Vec<(String, String)> = Vec::new();
        parameters.push(("pool".to_owned(), pool));
        Resource { kind: "heartbeat/ZFS".to_owned(), parameters, requires: None }
    }

    /// Read one line of mount table output into a Lustre target
    /// resource. The line names the device (pool/target), the
    /// mountpoint, and, inside the bracketed option list, the service
    /// name that the target's kind is taken from. A line missing any of
    /// these is a configuration error.
    pub fn new_lustre(mount_output: &str) -> (r: Result<Resource, ConfigError>)
        ensures
            r is Ok == lustre_line_ok(mount_output@),
            match r {
                Ok(res) => {
                    &&& res.kind@ == "lustre/Lustre"@
                    &&& crate::resource::params_model(res.parameters@) =~= seq![
                        ("mountpoint"@, lustre_mountpoint(mount_output@)),
                        ("target"@, lustre_target(mount_output@)),
                        ("kind"@, svname_kind_of(mount_opts(mount_output@)).unwrap()),
                    ]
                    &&& (res.requires matches Some(q) && q@ == lustre_pool(mount_output@))
                },
                Err(_) => true,
            },
    {
        let raw_tokens = split_char(mount_output, ' ');
        let tokens = retain_nonempty(raw_tokens);
        if tokens.len() < 6 {
            return Err(ConfigError::MalformedMountLine);
        }
        proof {
            assert(tokens.deep_view()[0] == tokens@[0]@);
            assert(tokens.deep_view()[2] == tokens@[2]@);
            assert(tokens.deep_view()[5] == tokens@[5]@);
        }
        let device = tokens[0].clone();
        let zpool = prefix_until(device.as_str(), '/');
        let mountpoint = tokens[2].clone();
        let opts_trimmed = trim_parens(tokens[5].as_str());
        let opts = split_char(opts_trimmed.as_str(), ',');
        let ghost opts_m = mount_opts(mount_output@);
        proof {
            assert(opts.deep_view() == opts_m);
        }
        let mut kind: Option<&'static str> = None;
        let mut i: usize = 0;
        proof {
            assert(opts_m.take(0) =~= Seq::<Seq<char>>::empty());
        }
        while i < opts.len()
            invariant
                0 <= i <= opts@.len(),
                opts.deep_view() == opts_m,
                opts@.len() == opts_m.len(),
                match kind {
                    Some(k) => svname_kind_of(opts_m.take(i as int)) == Some(k@),
                    None => svname_kind_of(opts_m.take(i as int)) is None,
                },
            decreases opts@.len() - i,
        {
            proof {
                assert(opts_m[i as int] == opts@[i as int]@);
                assert(opts_m.take(i + 1).drop_last() =~= opts_m.take(i as int));
                assert(opts_m.take(i + 1).last() == opts_m[i as int]);
            }
            let opt = opts[i].as_str();
            if starts_with(opt, "svname=") {
                if crate::strutil::str_contains(opt, "MDT") {
                    kind = Some("mdt");
                } else if crate::strutil::str_contains(opt, "MGS") {
                    kind = Some("mgs");
                } else if crate::strutil::str_contains(opt, "OST") {
                    kind = Some("ost");
                }
            }
            i = i + 1;
        }
        proof {
            assert(opts_m.take(opts_m.len() as int) =~= opts_m);
        }
        let kind = match kind {
            Some(k) => k,
            None => {
                return Err(ConfigError::MalformedMountLine);
            },
        };
        let mut parameters: Vec<(String, String)> = Vec::new();
        parameters.push(("mountpoint".to_owned(), mountpoint));
        parameters.push(("target".to_owned(), device));
        parameters.push(("kind".to_owned(), kind.to_owned()));
        Ok(Resource { kind: "lustre/Lustre".to_owned(), parameters, requires: Some(zpool) })
    }
}

} // verus!
