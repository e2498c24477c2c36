//! Hosts and their out-of-band power control: the host model with its
//! power status, and the pluggable fencing agents with the argument
//! blobs they are driven by.

use crate::strutil::{contains_sub, dec_str, digits_val, parse_u16, split_char, split_char_spec,
    str_contains, u64_to_string};
use crate::strutil::all_digits;
use vstd::prelude::*;
use vstd::string::StrSliceExecFns;

verus! {

/// Last observed power and liveness status of a host.
#[derive(Clone, Copy, Debug, PartialEq, Eq, Structural)]
pub enum HostStatus {
    Up,
    Down,
    Unknown,
}

/// Fencing failed: the agent could not be driven, exited nonzero, or
/// said something unintelligible.
#[derive(Debug)]
pub struct FenceError {}

/// An error in host-level bookkeeping: a status value that must not be
/// installed by observation.
#[derive(Debug)]
pub struct HostError {}

/// The supported fence actions.
#[derive(Clone, Copy, Debug, PartialEq, Eq, Structural)]
pub enum FenceCommand {
    On,
    Off,
    Status,
}

/// The word a fence agent is given for a command.
pub open spec fn fence_command_label(c: FenceCommand) -> Seq<char> {
    match c {
        FenceCommand::On => "on"@,
        FenceCommand::Off => "off"@,
        FenceCommand::Status => "status"@,
    }
}

impl FenceCommand {
    pub fn label(&self) -> (r: &'static str)
        ensures
            r@ == fence_command_label(*self),
    {
        match self {
            FenceCommand::On => "on",
            FenceCommand::Off => "off",
            FenceCommand::Status => "status",
        }
    }
}

/// Arguments of the test fence agent.
#[derive(Clone, Debug)]
pub struct TestFenceArgs {
    /// The name of the test this fence agent runs within.
    pub test_id: String,
    /// The name of the specific remote agent within the test.
    pub target: String,
}

impl TestFenceArgs {
    /// The test fence agent's arguments, when the parameter list names
    /// both the test and the target.
    pub fn new(params: &Vec<(String, String)>) -> (r: Option<TestFenceArgs>)
        ensures
            match (
                assoc_get(crate::resource::params_model(params@), "test_id"@),
                assoc_get(crate::resource::params_model(params@), "target"@),
            ) {
                (Some(t), Some(g)) => (r matches Some(a) && a.test_id@ == t && a.target@ == g),
                _ => r is None,
            },
    {
        let test_id = match get_param(params, "test_id") {
            Some(t) => t.clone(),
            None => {
                return None;
            },
        };
        let target = match get_param(params, "target") {
            Some(t) => t.clone(),
            None => {
                return None;
            },
        };
        Some(TestFenceArgs { test_id, target })
    }
}

/// Redfish fence agent arguments.
#[derive(Clone, Debug)]
pub struct RedfishArgs {
    pub username: String,
    pub password: String,
}

impl RedfishArgs {
    pub fn new(username: String, password: String) -> (r: RedfishArgs)
        ensures
            r.username@ == username@,
            r.password@ == password@,
    {
        RedfishArgs { username, password }
    }
}

/// The supported fence agents.
#[derive(Clone, Debug)]
pub enum FenceAgent {
    Powerman,
    Redfish(RedfishArgs),
    Test(TestFenceArgs),
}

/// First value stored under a key, if any.
pub open spec fn assoc_get(s: Seq<(Seq<char>, Seq<char>)>, key: Seq<char>) -> Option<Seq<char>>
    decreases s.len(),
{
    if s.len() == 0 {
        None
    } else if s[0].0 == key {
        Some(s[0].1)
    } else {
        assoc_get(s.skip(1), key)
    }
}

/// Look a key up in a parameter list; the first binding wins.
pub fn get_param<'a>(params: &'a Vec<(String, String)>, key: &str) -> (r: Option<&'a String>)
    ensures
        match r {
            Some(v) => assoc_get(crate::resource::params_model(params@), key@) == Some(v@),
            None => assoc_get(crate::resource::params_model(params@), key@) is None,
        },
{
    let ghost pm = crate::resource::params_model(params@);
    let mut i: usize = 0;
    proof {
        assert(pm.skip(0) =~= pm);
    }
    while i < params.len()
        invariant
            0 <= i <= params@.len(),
            pm == crate::resource::params_model(params@),
            pm.len() == params@.len(),
            assoc_get(pm, key@) == assoc_get(pm.skip(i as int), key@),
        decreases params@.len() - i,
    {
        proof {
            assert(pm[i as int] == (params@[i as int].0@, params@[i as int].1@));
            assert(pm.skip(i as int)[0] == pm[i as int]);
            assert(pm.skip(i as int).skip(1) =~= pm.skip(i + 1));
        }
        if crate::strutil::str_eq(params[i].0.as_str(), key) {
            return Some(&params[i].1);
        }
        i = i + 1;
    }
    proof {
        assert(pm.skip(pm.len() as int) =~= Seq::<(Seq<char>, Seq<char>)>::empty());
    }
    None
}

/// The configured fencing binding can be built: the agent is one of the
/// supported three, and the parameters it needs are present.
pub open spec fn fence_buildable(
    name: Seq<char>,
    params: Option<Seq<(Seq<char>, Seq<char>)>>,
) -> bool {
    if name == "powerman"@ {
        true
    } else if name == "redfish"@ {
        match params {
            Some(p) => assoc_get(p, "username"@) is Some && assoc_get(p, "password"@) is Some,
            None => false,
        }
    } else if name == "fence_test"@ {
        match params {
            Some(p) => assoc_get(p, "test_id"@) is Some && assoc_get(p, "target"@) is Some,
            None => false,
        }
    } else {
        false
    }
}

/// The optional fence parameters, as character sequences.
pub open spec fn fence_params_model(params: Option<Vec<(String, String)>>) -> Option<
    Seq<(Seq<char>, Seq<char>)>,
> {
    match params {
        Some(p) => Some(crate::resource::params_model(p@)),
        None => None,
    }
}

/// A host address names at most a name and a well-formed port:
/// `name[:port]` with the port a decimal number that fits.
pub open spec fn address_wf(s: Seq<char>) -> bool {
    let parts = split_char_spec(s, ':');
    parts.len() == 1 || (parts[1].len() > 0 && all_digits(parts[1]) && digits_val(parts[1])
        <= 65535)
}

/// Why a fence agent could not be built from configuration.
#[derive(Debug)]
pub enum FenceConfigError {
    /// The agent needs parameters but the configuration has none.
    MissingParameters,
    /// A named parameter the agent needs is not configured.
    MissingParameter,
    /// The configured agent name is not one of the supported agents.
    UnknownAgent,
}

impl FenceAgent {
    /// Build a fence agent from its configured name and parameters.
    /// `powerman` needs no parameters; `redfish` needs `username` and
    /// `password`; `fence_test` needs `test_id` and `target`. Anything
    /// else is a configuration error.
    pub fn from_params(agent: &str, params: &Option<Vec<(String, String)>>) -> (r: Result<
        FenceAgent,
        FenceConfigError,
    >)
        ensures
            r is Ok <==> fence_buildable(agent@, fence_params_model(*params)),
            agent@ == "powerman"@ ==> r matches Ok(FenceAgent::Powerman),
            agent@ != "powerman"@ && agent@ != "redfish"@ && agent@ != "fence_test"@ ==> r matches
                Err(FenceConfigError::UnknownAgent),
            (agent@ == "redfish"@ || agent@ == "fence_test"@) && params is None ==> r matches Err(
                FenceConfigError::MissingParameters,
            ),
            match params {
                Some(p) => agent@ == "redfish"@ ==> match (
                    assoc_get(crate::resource::params_model(p@), "username"@),
                    assoc_get(crate::resource::params_model(p@), "password"@),
                ) {
                    (Some(u), Some(w)) => (r matches Ok(FenceAgent::Redfish(a)) && a.username@ == u
                        && a.password@ == w),
                    _ => r matches Err(FenceConfigError::MissingParameter),
                },
                None => true,
            },
            match params {
                Some(p) => agent@ == "fence_test"@ ==> match (
                    assoc_get(crate::resource::params_model(p@), "test_id"@),
                    assoc_get(crate::resource::params_model(p@), "target"@),
                ) {
                    (Some(t), Some(g)) => (r matches Ok(FenceAgent::Test(a)) && a.test_id@ == t
                        && a.target@ == g),
                    _ => r matches Err(FenceConfigError::MissingParameter),
                },
                None => true,
            },
    {
        proof {
            reveal_strlit("powerman");
            reveal_strlit("redfish");
            reveal_strlit("fence_test");
            assert("powerman"@.len() == 8);
            assert("redfish"@.len() == 7);
            assert("fence_test"@.len() == 10);
        }
        if crate::strutil::str_eq(agent, "powerman") {
            return Ok(FenceAgent::Powerman);
        }
        if !crate::strutil::str_eq(agent, "redfish") && !crate::strutil::str_eq(
            agent,
            "fence_test",
        ) {
            return Err(FenceConfigError::UnknownAgent);
        }
        let params = match params {
            Some(p) => p,
            None => {
                return Err(FenceConfigError::MissingParameters);
            },
        };
        if crate::strutil::str_eq(agent, "redfish") {
            let user = match get_param(params, "username") {
                Some(u) => u.clone(),
                None => {
                    return Err(FenceConfigError::MissingParameter);
                },
            };
            let pass = match get_param(params, "password") {
                Some(p) => p.clone(),
                None => {
                    return Err(FenceConfigError::MissingParameter);
                },
            };
            Ok(FenceAgent::Redfish(RedfishArgs::new(user, pass)))
        } else {
            match TestFenceArgs::new(params) {
                Some(args) => Ok(FenceAgent::Test(args)),
                None => Err(FenceConfigError::MissingParameter),
            }
        }
    }

    /// The executable a fence agent is driven through.
    pub fn get_executable(&self) -> (r: &'static str)
        ensures
            self matches FenceAgent::Powerman ==> r@ == "fence_powerman"@,
            self matches FenceAgent::Redfish(_) ==> r@ == "fence_redfish"@,
            self matches FenceAgent::Test(_) ==> r@ == "tests/fence_test"@,
    {
        match self {
            FenceAgent::Powerman => "fence_powerman",
            FenceAgent::Redfish(_) => "fence_redfish",
            FenceAgent::Test(_) => "tests/fence_test",
        }
    }

    /// The parameter blob an agent takes on its standard input for a
    /// fence action against the given host.
    pub open spec fn command_blob(self, host_id: Seq<char>, command: FenceCommand) -> Seq<char> {
        match self {
            FenceAgent::Powerman => "ipaddr=localhost\naction="@ + fence_command_label(command)
                + "\nplug="@ + host_id + "\n"@,
            FenceAgent::Redfish(args) => "ipaddr="@ + host_id + "\naction="@ + fence_command_label(
                command,
            ) + "\nusername="@ + args.username@ + "\npassword="@ + args.password@
                + "\nssl-insecure=true"@,
            FenceAgent::Test(args) => "action="@ + fence_command_label(command) + "\ntest_id="@
                + args.test_id@ + "\ntarget="@ + args.target@,
        }
    }

    /// Generate the newline-separated `key=value` input that drives the
    /// fence agent for one action on one host.
    pub fn generate_command_bytes(&self, host_id: &str, command: FenceCommand) -> (r: Vec<u8>)
        ensures
            r@ == vstd::utf8::encode_utf8(self.command_blob(host_id@, command)),
    {
        let mut out: String;
        match self {
            FenceAgent::Powerman => {
                out = "ipaddr=localhost\naction=".to_owned();
                out.append(command.label());
                out.append("\nplug=");
                out.append(host_id);
                out.append("\n");
            },
            FenceAgent::Redfish(args) => {
                out = "ipaddr=".to_owned();
                out.append(host_id);
                out.append("\naction=");
                out.append(command.label());
                out.append("\nusername=");
                out.append(args.username.as_str());
                out.append("\npassword=");
                out.append(args.password.as_str());
                out.append("\nssl-insecure=true");
            },
            FenceAgent::Test(args) => {
                out = "action=".to_owned();
                out.append(command.label());
                out.append("\ntest_id=");
                out.append(args.test_id.as_str());
                out.append("\ntarget=");
                out.append(args.target.as_str());
            },
        }
        proof {
            assert(out@ =~= self.command_blob(host_id@, command));
        }
        out.as_str().as_bytes_vec()
    }
}

/// Read a fence agent's status output: the host is on when the output
/// contains `is ON`, off when it contains `is OFF`, and anything else is
/// a fencing error. An output carrying both phrases reports on, since
/// `is ON` is looked for first.
pub fn interpret_power_output(out: &str) -> (r: Result<bool, FenceError>)
    ensures
        contains_sub(out@, "is ON"@) ==> r matches Ok(true),
        !contains_sub(out@, "is ON"@) && contains_sub(out@, "is OFF"@) ==> r matches Ok(false),
        !contains_sub(out@, "is ON"@) && !contains_sub(out@, "is OFF"@) ==> r matches Err(_),
{
    if str_contains(out, "is ON") {
        Ok(true)
    } else if str_contains(out, "is OFF") {
        Ok(false)
    } else {
        Err(FenceError {})
    }
}

/// The built fencing binding carries exactly what the configuration
/// names for the supported agents.
pub open spec fn fence_agent_matches(
    name: Seq<char>,
    params: Option<Seq<(Seq<char>, Seq<char>)>>,
    f: FenceAgent,
) -> bool {
    if name == "powerman"@ {
        f is Powerman
    } else if name == "redfish"@ {
        match (params, f) {
            (Some(p), FenceAgent::Redfish(a)) => assoc_get(p, "username"@) == Some(a.username@)
                && assoc_get(p, "password"@) == Some(a.password@),
            _ => false,
        }
    } else if name == "fence_test"@ {
        match (params, f) {
            (Some(p), FenceAgent::Test(a)) => assoc_get(p, "test_id"@) == Some(a.test_id@)
                && assoc_get(p, "target"@) == Some(a.target@),
            _ => false,
        }
    } else {
        false
    }
}

/// The built host carries the configured address (with the default port
/// where none is given), starts with an unknown power status, and binds
/// the configured fencing agent.
pub open spec fn host_built_ok(ch: crate::config::Host, h: Host, default_port: u16) -> bool {
    let parts = split_char_spec(ch.hostname@, ':');
    &&& h.name@ == parts[0]
    &&& (parts.len() == 1 ==> h.port == default_port)
    &&& (parts.len() > 1 ==> h.port as int == digits_val(parts[1]))
    &&& h.status == HostStatus::Unknown
    &&& match ch.fence_agent {
        None => h.fence_agent is None,
        Some(a) => match h.fence_agent {
            Some(f) => fence_agent_matches(
                a@,
                match ch.fence_parameters {
                    Some(p) => Some(crate::resource::params_model(p@)),
                    None => None,
                },
                f,
            ),
            None => false,
        },
    }
}

/// A host's stable identity: the fencing target in the test harness
/// (where hosts share one machine), else the hostname.
pub open spec fn host_id_spec(h: Host) -> Seq<char> {
    match h.fence_agent {
        Some(FenceAgent::Test(args)) => args.target@,
        _ => h.name@,
    }
}

/// A server on which resources can run.
#[derive(Debug)]
pub struct Host {
    pub name: String,
    pub port: u16,
    pub status: HostStatus,
    pub fence_agent: Option<FenceAgent>,
}

impl Host {
    /// A host from its name, an optional explicit port (the process-wide
    /// default applies otherwise), and an optional fencing binding.
    pub fn new(name: &str, port: Option<u16>, default_port: u16, fence_agent: Option<FenceAgent>)
        -> (r: Host)
        ensures
            r.name@ == name@,
            r.port == match port {
                Some(p) => p,
                None => default_port,
            },
            r.status == HostStatus::Unknown,
            r.fence_agent == fence_agent,
    {
        Host {
            name: name.to_owned(),
            port: match port {
                Some(p) => p,
                None => default_port,
            },
            status: HostStatus::Unknown,
            fence_agent,
        }
    }

    pub fn get_status(&self) -> (r: HostStatus)
        ensures
            r == self.status,
    {
        self.status
    }

    /// Record an observed host status. `Down` is rejected: that state is
    /// reserved for a fencing-confirmed transition and must never arise
    /// from observation alone.
    pub fn set_status(&mut self, status: HostStatus) -> (r: Result<(), HostError>)
        ensures
            status == HostStatus::Down ==> r is Err && *final(self) == *old(self),
            status != HostStatus::Down ==> r is Ok && *final(self) == (Host {
                status,
                ..*old(self)
            }),
    {
        match status {
            HostStatus::Down => Err(HostError {}),
            _ => {
                self.status = status;
                Ok(())
            },
        }
    }

    pub fn fence_agent(&self) -> (r: &Option<FenceAgent>)
        ensures
            r == self.fence_agent,
    {
        &self.fence_agent
    }

    pub fn name(&self) -> (r: &str)
        ensures
            r@ == self.name@,
    {
        self.name.as_str()
    }

    pub fn port(&self) -> (r: u16)
        ensures
            r == self.port,
    {
        self.port
    }

    /// The host's network address: `name:port`.
    pub fn address(&self) -> (r: String)
        ensures
            r@ == self.name@ + ":"@ + dec_str(self.port as int),
    {
        let mut out = self.name.clone();
        out.append(":");
        let port = u64_to_string(self.port as u64);
        out.append(port.as_str());
        out
    }

    /// The host's stable identity: the fencing target in the test
    /// harness, else the hostname.
    pub fn id(&self) -> (r: String)
        ensures
            r@ == host_id_spec(*self),
    {
        if let Some(FenceAgent::Test(test_args)) = &self.fence_agent {
            test_args.target.clone()
        } else {
            self.name.clone()
        }
    }

    /// The input blob that fences this host, by its configured agent.
    /// There is no blob without an agent; the `Status` command is
    /// rejected here, since power status goes through its own reading of
    /// the agent's output.
    pub fn fence_command_bytes(&self, command: FenceCommand) -> (r: Result<Vec<u8>, FenceError>)
        ensures
            self.fence_agent is None ==> r is Err,
            command == FenceCommand::Status ==> r is Err,
            match self.fence_agent {
                Some(agent) => command != FenceCommand::Status ==> (r matches Ok(b) && b@
                    == vstd::utf8::encode_utf8(agent.command_blob(self.name@, command))),
                None => true,
            },
    {
        let agent = match &self.fence_agent {
            Some(a) => a,
            None => {
                return Err(FenceError {});
            },
        };
        if matches!(command, FenceCommand::Status) {
            return Err(FenceError {});
        }
        Ok(agent.generate_command_bytes(self.name.as_str(), command))
    }

    /// The input blob that queries this host's power status.
    pub fn power_status_command_bytes(&self) -> (r: Result<Vec<u8>, FenceError>)
        ensures
            self.fence_agent is None ==> r is Err,
            match self.fence_agent {
                Some(agent) => (r matches Ok(b) && b@ == vstd::utf8::encode_utf8(
                    agent.command_blob(self.name@, FenceCommand::Status),
                )),
                None => true,
            },
    {
        let agent = match &self.fence_agent {
            Some(a) => a,
            None => {
                return Err(FenceError {});
            },
        };
        Ok(agent.generate_command_bytes(self.name.as_str(), FenceCommand::Status))
    }

    /// Build a host from its configuration entry: the address split
    /// into name and optional port, and the fencing binding built from
    /// the configured agent and parameters.
    pub fn from_config(config: &crate::config::Host, default_port: u16) -> (r: Result<
        Host,
        crate::config::ConfigError,
    >)
        ensures
            r is Ok <==> (address_wf(config.hostname@) && match config.fence_agent {
                None => true,
                Some(a) => fence_buildable(a@, fence_params_model(config.fence_parameters)),
            }),
            match r {
                Ok(h) => host_built_ok(*config, h, default_port),
                Err(crate::config::ConfigError::BadHostAddress) => !address_wf(config.hostname@),
                Err(crate::config::ConfigError::Fence(_)) => (config.fence_agent matches Some(a)
                    && !fence_buildable(a@, fence_params_model(config.fence_parameters))),
                Err(_) => false,
            },
    {
        let (name, port) = match Host::get_host_port(config.hostname.as_str()) {
            Ok(x) => x,
            Err(_) => {
                return Err(crate::config::ConfigError::BadHostAddress);
            },
        };
        let fence = match &config.fence_agent {
            Some(a) => match FenceAgent::from_params(a.as_str(), &config.fence_parameters) {
                Ok(f) => Some(f),
                Err(e) => {
                    return Err(crate::config::ConfigError::Fence(e));
                },
            },
            None => None,
        };
        let built = Host::new(name.as_str(), port, default_port, fence);
        proof {
            assert(host_built_ok(*config, built, default_port)) by {
                reveal_strlit("powerman");
                reveal_strlit("redfish");
                reveal_strlit("fence_test");
                assert("powerman"@.len() == 8);
                assert("redfish"@.len() == 7);
                assert("fence_test"@.len() == 10);
            }
        }
        Ok(built)
    }

    /// Split `name[:port]` into the name and the optional port number.
    /// A port that is not a well-formed 16-bit number is a configuration
    /// error.
    pub fn get_host_port(host_str: &str) -> (r: Result<(String, Option<u16>), HostError>)
        ensures
            match r {
                Ok((name, port)) => {
                    let parts = split_char_spec(host_str@, ':');
                    &&& name@ == parts[0]
                    &&& (parts.len() == 1 ==> port is None)
                    &&& (parts.len() > 1 ==> (port matches Some(p) && p as int == digits_val(
                        parts[1],
                    ) && parts[1].len() > 0 && all_digits(parts[1])))
                },
                Err(_) => {
                    let parts = split_char_spec(host_str@, ':');
                    parts.len() > 1 && (parts[1].len() == 0 || !all_digits(parts[1]) || digits_val(
                        parts[1],
                    ) > 65535)
                },
            },
    {
        let parts = split_char(host_str, ':');
        proof {
            crate::strutil::lemma_split_char_len(host_str@, ':');
            assert(parts.deep_view()[0] == parts@[0]@);
        }
        if parts.len() == 1 {
            return Ok((parts[0].clone(), None));
        }
        proof {
            assert(parts.deep_view()[1] == parts@[1]@);
        }
        match parse_u16(parts[1].as_str()) {
            Some(p) => Ok((parts[0].clone(), Some(p))),
            None => Err(HostError {}),
        }
    }
}

} // verus!
