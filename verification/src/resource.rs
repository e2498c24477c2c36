//! Resources, resource groups, and their statuses: the dependency tree,
//! breadth-first enumeration, status aggregation, and the decisions of
//! the observe and manage loops.

use crate::remote::ocf;
use crate::strutil::{lex_le, str_eq, str_le};
use vstd::multiset::Multiset;
use vstd::prelude::*;

verus! {

broadcast use vstd::std_specs::vec::axiom_vec_index_decreases;

/// The ordering on `ResourceStatus` ranks statuses from "worst" to "best";
/// statuses that are worse come first.
///
/// The order is the aggregation rule: a group's overall status is the worst
/// status of any member.
#[derive(Clone, Copy, Debug, PartialEq, Eq, Structural)]
pub enum ResourceStatus {
    Unknown,
    Unrunnable,
    Stopped,
    CheckingAway,
    CheckingHome,
    RunningOnAway,
    RunningOnHome,
}

impl ResourceStatus {
    /// Position of this status in the worst-to-best order.
    pub open spec fn rank(self) -> int {
        match self {
            ResourceStatus::Unknown => 0,
            ResourceStatus::Unrunnable => 1,
            ResourceStatus::Stopped => 2,
            ResourceStatus::CheckingAway => 3,
            ResourceStatus::CheckingHome => 4,
            ResourceStatus::RunningOnAway => 5,
            ResourceStatus::RunningOnHome => 6,
        }
    }

    /// True when `self` is at least as bad as `other`.
    pub fn is_at_most(self, other: Self) -> (r: bool)
        ensures
            r == (self.rank() <= other.rank()),
    {
        let a: u8 = match self {
            ResourceStatus::Unknown => 0,
            ResourceStatus::Unrunnable => 1,
            ResourceStatus::Stopped => 2,
            ResourceStatus::CheckingAway => 3,
            ResourceStatus::CheckingHome => 4,
            ResourceStatus::RunningOnAway => 5,
            ResourceStatus::RunningOnHome => 6,
        };
        let b: u8 = match other {
            ResourceStatus::Unknown => 0,
            ResourceStatus::Unrunnable => 1,
            ResourceStatus::Stopped => 2,
            ResourceStatus::CheckingAway => 3,
            ResourceStatus::CheckingHome => 4,
            ResourceStatus::RunningOnAway => 5,
            ResourceStatus::RunningOnHome => 6,
        };
        a <= b
    }

    /// The worst status of the list: the aggregate status of a group whose
    /// members carry these statuses. An empty list pessimistically yields
    /// `Unknown`.
    pub fn get_worst(list: &Vec<ResourceStatus>) -> (r: ResourceStatus)
        ensures
            list@.len() == 0 ==> r == ResourceStatus::Unknown,
            list@.len() > 0 ==> list@.contains(r),
            list@.len() > 0 ==> forall|i: int| 0 <= i < list@.len() ==> r.rank() <= list@[i].rank(),
    {
        let mut r = ResourceStatus::Unknown;
        if list.len() == 0 {
            return r;
        }
        r = list[0];
        let mut i: usize = 1;
        while i < list.len()
            invariant
                1 <= i <= list@.len(),
                list@.contains(r),
                forall|j: int| 0 <= j < i ==> r.rank() <= list@[j].rank(),
            decreases list@.len() - i,
        {
            if list[i].is_at_most(r) {
                r = list[i];
            }
            i = i + 1;
        }
        r
    }
}

/// Which of a resource's two hosts an operation is aimed at.
#[derive(Clone, Copy, Debug, PartialEq, Eq, Structural)]
pub enum Location {
    Home,
    Away,
}

/// The status a resource reaches when it runs at the given location.
pub open spec fn running_on(loc: Location) -> ResourceStatus {
    match loc {
        Location::Home => ResourceStatus::RunningOnHome,
        Location::Away => ResourceStatus::RunningOnAway,
    }
}

/// The name of a status, as written in log lines.
pub open spec fn status_name(s: ResourceStatus) -> Seq<char> {
    match s {
        ResourceStatus::Unknown => "Unknown"@,
        ResourceStatus::Unrunnable => "Unrunnable"@,
        ResourceStatus::Stopped => "Stopped"@,
        ResourceStatus::CheckingAway => "CheckingAway"@,
        ResourceStatus::CheckingHome => "CheckingHome"@,
        ResourceStatus::RunningOnAway => "RunningOnAway"@,
        ResourceStatus::RunningOnHome => "RunningOnHome"@,
    }
}

impl ResourceStatus {
    /// This status's name, as written in log lines.
    pub fn name(&self) -> (r: &'static str)
        ensures
            r@ == status_name(*self),
    {
        match self {
            ResourceStatus::Unknown => "Unknown",
            ResourceStatus::Unrunnable => "Unrunnable",
            ResourceStatus::Stopped => "Stopped",
            ResourceStatus::CheckingAway => "CheckingAway",
            ResourceStatus::CheckingHome => "CheckingHome",
            ResourceStatus::RunningOnAway => "RunningOnAway",
            ResourceStatus::RunningOnHome => "RunningOnHome",
        }
    }
}

/// A transport-level failure of a resource-agent operation: the operation
/// never produced a remote exit status.
#[derive(Debug)]
pub struct RpcError {
    pub message: String,
}

/// The mathematical value of a resource: its tree, with strings as
/// character sequences and hosts by their index in the cluster's host
/// table.
#[verifier::ext_equal]
pub struct ResourceModel {
    pub kind: Seq<char>,
    pub parameters: Seq<(Seq<char>, Seq<char>)>,
    pub dependents: Seq<ResourceModel>,
    pub status: ResourceStatus,
    pub home_node: int,
    pub failover_node: Option<int>,
    pub verbose: bool,
}

/// A resource in the cluster model: an agent kind, the parameters handed
/// to the agent, the resources that depend on this one, and its bindings
/// to a home host and an optional failover host (as indices into the
/// cluster's host table).
pub struct Resource {
    /// An agent identifier such as `heartbeat/ZFS` or `lustre/Lustre`.
    pub kind: String,
    /// Parameters as key-value pairs, in configuration order.
    pub parameters: Vec<(String, String)>,
    /// The resources that depend on this one.
    pub dependents: Vec<Resource>,
    pub status: ResourceStatus,
    pub home_node: usize,
    pub failover_node: Option<usize>,
    /// Whether status changes are reported as log lines.
    pub verbose: bool,
}

/// The view of a parameter list.
pub open spec fn params_model(v: Seq<(String, String)>) -> Seq<(Seq<char>, Seq<char>)> {
    v.map_values(|q: (String, String)| (q.0@, q.1@))
}

/// The model of a resource tree.
pub open spec fn res_model(r: Resource) -> ResourceModel
    decreases r,
{
    ResourceModel {
        kind: r.kind@,
        parameters: params_model(r.parameters@),
        dependents: Seq::new(
            r.dependents@.len(),
            |i: int|
                if 0 <= i < r.dependents@.len() {
                    res_model(r.dependents[i])
                } else {
                    vstd::pervasive::arbitrary()
                },
        ),
        status: r.status,
        home_node: r.home_node as int,
        failover_node: match r.failover_node {
            Some(h) => Some(h as int),
            None => None,
        },
        verbose: r.verbose,
    }
}

impl View for Resource {
    type V = ResourceModel;

    open spec fn view(&self) -> ResourceModel {
        res_model(*self)
    }
}

/// The models of a sequence of resources.
pub open spec fn models_of(s: Seq<Resource>) -> Seq<ResourceModel> {
    s.map_values(|r: Resource| res_model(r))
}

/// `m` with another status.
pub open spec fn with_status(m: ResourceModel, st: ResourceStatus) -> ResourceModel {
    ResourceModel { status: st, ..m }
}

/// A resource is running when it runs on either of its hosts.
pub open spec fn is_running_model(m: ResourceModel) -> bool {
    m.status == ResourceStatus::RunningOnHome || m.status == ResourceStatus::RunningOnAway
}

/// `b` is `a` with its status replaced and every other field untouched.
pub open spec fn same_but_status(a: Resource, b: Resource, st: ResourceStatus) -> bool {
    &&& b.kind == a.kind
    &&& b.parameters == a.parameters
    &&& b.dependents == a.dependents
    &&& b.home_node == a.home_node
    &&& b.failover_node == a.failover_node
    &&& b.verbose == a.verbose
    &&& b.status == st
}

/// Strict key order used when rendering a parameter map.
pub open spec fn key_lt(a: Seq<char>, b: Seq<char>) -> bool {
    lex_le(a, b) && a != b
}

/// Insert a pair behind every pair whose key is not above its own.
pub open spec fn insert_sorted(
    p: (Seq<char>, Seq<char>),
    s: Seq<(Seq<char>, Seq<char>)>,
) -> Seq<(Seq<char>, Seq<char>)>
    decreases s.len(),
{
    if s.len() == 0 {
        seq![p]
    } else if key_lt(p.0, s[0].0) {
        seq![p] + s
    } else {
        seq![s[0]] + insert_sorted(p, s.skip(1))
    }
}

/// The first `i` pairs of `s`, sorted by key via repeated insertion.
pub open spec fn sort_prefix(s: Seq<(Seq<char>, Seq<char>)>, i: int) -> Seq<
    (Seq<char>, Seq<char>),
>
    decreases i,
{
    if i <= 0 {
        Seq::empty()
    } else {
        insert_sorted(s[i - 1], sort_prefix(s, i - 1))
    }
}

/// The parameter list sorted by key.
pub open spec fn sort_params(s: Seq<(Seq<char>, Seq<char>)>) -> Seq<(Seq<char>, Seq<char>)> {
    sort_prefix(s, s.len() as int)
}

/// One `"key": "value"` piece of the rendered parameter map.
pub open spec fn render_pair(p: (Seq<char>, Seq<char>)) -> Seq<char> {
    "\""@ + p.0 + "\": \""@ + p.1 + "\""@
}

/// The pieces after the opening brace: each pair rendered, separated by
/// commas, closed by a brace after the last one. An empty map renders no
/// closing brace, as the log line always has.
pub open spec fn render_rest(s: Seq<(Seq<char>, Seq<char>)>) -> Seq<char>
    decreases s.len(),
{
    if s.len() == 0 {
        Seq::empty()
    } else if s.len() == 1 {
        render_pair(s[0]) + "}"@
    } else {
        render_pair(s[0]) + ", "@ + render_rest(s.skip(1))
    }
}

/// The rendering of a parameter map: entries in key order, in the shape
/// of a JSON object.
pub open spec fn render_params(s: Seq<(Seq<char>, Seq<char>)>) -> Seq<char> {
    "{"@ + render_rest(sort_params(s))
}

/// The log line reporting a status change of a resource.
pub open spec fn status_update_line(
    params: Seq<(Seq<char>, Seq<char>)>,
    old_st: ResourceStatus,
    new_st: ResourceStatus,
) -> Seq<char> {
    "Updating status of resource "@ + render_params(params) + " from "@ + status_name(old_st)
        + " to "@ + status_name(new_st)
}

/// The status a monitor outcome maps a resource to: running when the
/// agent reports success, stopped when it reports not-running, and
/// unknown on every other reply or on a transport failure.
pub open spec fn monitor_status(outcome: Option<ocf::Status>) -> ResourceStatus {
    match outcome {
        Some(ocf::Status::Success) => ResourceStatus::RunningOnHome,
        Some(ocf::Status::ErrNotRunning) => ResourceStatus::Stopped,
        Some(_) => ResourceStatus::Unknown,
        None => ResourceStatus::Unknown,
    }
}

/// The model of a resource-agent operation outcome: the remote status
/// when one arrived, nothing on a transport failure.
pub open spec fn outcome_model(outcome: Result<ocf::Status, RpcError>) -> Option<ocf::Status> {
    match outcome {
        Ok(st) => Some(st),
        Err(_) => None,
    }
}

fn insert_param_sorted(acc: &mut Vec<(String, String)>, p: (String, String))
    ensures
        params_model(final(acc)@) == insert_sorted((p.0@, p.1@), params_model(old(acc)@)),
{
    let ghost old_model = params_model(acc@);
    let ghost pm = (p.0@, p.1@);
    let mut j: usize = 0;
    while j < acc.len()
        invariant
            0 <= j <= acc@.len(),
            old_model == params_model(acc@),
            old_model == params_model(old(acc)@),
            pm == (p.0@, p.1@),
            forall|t: int| 0 <= t < j ==> !key_lt(pm.0, (#[trigger] old_model[t]).0),
        decreases acc@.len() - j,
    {
        let le = str_le(p.0.as_str(), acc[j].0.as_str());
        let eq = str_eq(p.0.as_str(), acc[j].0.as_str());
        if le && !eq {
            let ghost prev = acc@;
            let ghost pv = p;
            proof {
                assert(old_model[j as int].0 == acc@[j as int].0@);
                assert(key_lt(pm.0, old_model[j as int].0));
                lemma_insert_sorted_at(pm, old_model, j as int);
            }
            acc.insert(j, p);
            proof {
                let jj = j as int;
                let lhs = params_model(acc@);
                let tgt = old_model.take(jj) + seq![pm] + old_model.skip(jj);
                assert(acc@ =~= prev.take(jj) + seq![pv] + prev.skip(jj));
                assert forall|i: int| 0 <= i < lhs.len() implies lhs[i] == tgt[i] by {
                    assert(lhs[i] == (acc@[i].0@, acc@[i].1@));
                    if i < jj {
                        assert(acc@[i] == prev.take(jj)[i]);
                        assert(prev.take(jj)[i] == prev[i]);
                        assert(tgt[i] == old_model.take(jj)[i]);
                        assert(old_model.take(jj)[i] == old_model[i]);
                        assert(old_model[i] == (prev[i].0@, prev[i].1@));
                    } else if i == jj {
                        assert(acc@[i] == pv);
                        assert(tgt[i] == pm);
                    } else {
                        assert(acc@[i] == prev.skip(jj)[i - jj - 1]);
                        assert(prev.skip(jj)[i - jj - 1] == prev[i - 1]);
                        assert(tgt[i] == old_model.skip(jj)[i - jj - 1]);
                        assert(old_model.skip(jj)[i - jj - 1] == old_model[i - 1]);
                        assert(old_model[i - 1] == (prev[i - 1].0@, prev[i - 1].1@));
                    }
                }
                assert(lhs =~= tgt);
            }
            return ;
        }
        proof {
            assert(old_model[j as int].0 == acc@[j as int].0@);
        }
        j = j + 1;
    }
    proof {
        lemma_insert_sorted_at(pm, old_model, old_model.len() as int);
    }
    let ghost prev = acc@;
    let ghost pv = p;
    acc.push(p);
    proof {
        let lhs = params_model(acc@);
        assert forall|i: int| 0 <= i < lhs.len() implies lhs[i] == old_model.push(pm)[i] by {
            assert(lhs[i] == (acc@[i].0@, acc@[i].1@));
            if i < prev.len() {
                assert(acc@[i] == prev[i]);
                assert(old_model[i] == (prev[i].0@, prev[i].1@));
            } else {
                assert(acc@[i] == pv);
            }
        }
        assert(lhs =~= old_model.push(pm));
        assert(old_model.take(old_model.len() as int) =~= old_model);
        assert(old_model.skip(old_model.len() as int) =~= Seq::empty());
        assert(old_model.push(pm) =~= old_model + seq![pm] + Seq::empty());
    }
}

/// Inserting at the first position whose key lies strictly above the new
/// key realises `insert_sorted`.
proof fn lemma_insert_sorted_at(p: (Seq<char>, Seq<char>), s: Seq<(Seq<char>, Seq<char>)>, j: int)
    requires
        0 <= j <= s.len(),
        forall|t: int| 0 <= t < j ==> !key_lt(p.0, (#[trigger] s[t]).0),
        j < s.len() ==> key_lt(p.0, s[j].0),
    ensures
        insert_sorted(p, s) == s.take(j) + seq![p] + s.skip(j),
    decreases s.len(),
{
    if s.len() == 0 {
        assert(insert_sorted(p, s) =~= s.take(j) + seq![p] + s.skip(j));
    } else if key_lt(p.0, s[0].0) {
        assert(j == 0);
        assert(insert_sorted(p, s) =~= s.take(0) + seq![p] + s.skip(0));
    } else {
        assert(j >= 1);
        assert(forall|t: int| 0 <= t < j - 1 ==> s.skip(1)[t] == s[t + 1]);
        lemma_insert_sorted_at(p, s.skip(1), j - 1);
        assert(insert_sorted(p, s) == seq![s[0]] + (s.skip(1).take(j - 1) + seq![p] + s.skip(
            1,
        ).skip(j - 1)));
        assert(s.skip(1).take(j - 1) =~= s.take(j).skip(1));
        assert(s.skip(1).skip(j - 1) =~= s.skip(j));
        assert(seq![s[0]] + (s.take(j).skip(1) + seq![p] + s.skip(j)) =~= s.take(j) + seq![p]
            + s.skip(j));
    }
}

/// A copy of a parameter list.
pub fn clone_params(v: &Vec<(String, String)>) -> (r: Vec<(String, String)>)
    ensures
        params_model(r@) == params_model(v@),
        r@.len() == v@.len(),
{
    let mut out: Vec<(String, String)> = Vec::new();
    let mut i: usize = 0;
    while i < v.len()
        invariant
            0 <= i <= v@.len(),
            out@.len() == i,
            forall|j: int|
                0 <= j < i ==> (#[trigger] out@[j]).0@ == v@[j].0@ && out@[j].1@ == v@[j].1@,
        decreases v@.len() - i,
    {
        out.push((v[i].0.clone(), v[i].1.clone()));
        i = i + 1;
    }
    proof {
        assert(params_model(out@) =~= params_model(v@));
    }
    out
}

impl Resource {
    /// A resource from its configuration entry, its already-built
    /// dependents, and its host bindings. It starts out with an unknown
    /// status.
    pub fn from_config(
        res: crate::config::Resource,
        dependents: Vec<Resource>,
        home_node: usize,
        failover_node: Option<usize>,
        verbose: bool,
    ) -> (r: Resource)
        ensures
            r@.kind == res@.kind,
            r@.parameters == res@.parameters,
            r@.dependents == models_of(dependents@),
            r@.status == ResourceStatus::Unknown,
            r@.home_node == home_node as int,
            r@.failover_node == match failover_node {
                Some(a) => Some(a as int),
                None => None,
            },
            r@.verbose == verbose,
    {
        let r = Resource {
            kind: res.kind,
            parameters: res.parameters,
            dependents,
            status: ResourceStatus::Unknown,
            home_node,
            failover_node,
            verbose,
        };
        proof {
            assert(r@.dependents =~= models_of(r.dependents@));
        }
        r
    }

    /// The parameter list sorted by key.
    fn sorted_params(&self) -> (r: Vec<(String, String)>)
        ensures
            params_model(r@) == sort_params(self@.parameters),
    {
        let mut acc: Vec<(String, String)> = Vec::new();
        let mut i: usize = 0;
        proof {
            assert(params_model(acc@) =~= sort_prefix(self@.parameters, 0));
        }
        while i < self.parameters.len()
            invariant
                0 <= i <= self.parameters@.len(),
                self@.parameters == params_model(self.parameters@),
                self@.parameters.len() == self.parameters@.len(),
                params_model(acc@) == sort_prefix(self@.parameters, i as int),
            decreases self.parameters@.len() - i,
        {
            let p = (self.parameters[i].0.clone(), self.parameters[i].1.clone());
            proof {
                assert(self@.parameters[i as int] == (
                    self.parameters@[i as int].0@,
                    self.parameters@[i as int].1@,
                ));
                assert((p.0@, p.1@) == self@.parameters[i as int]);
            }
            insert_param_sorted(&mut acc, p);
            i = i + 1;
        }
        acc
    }

    /// Render this resource's parameters as a JSON-like object with keys
    /// in lexicographic order.
    pub fn params_string(&self) -> (r: String)
        ensures
            r@ == render_params(self@.parameters),
    {
        let sorted = self.sorted_params();
        let ghost sorted_model = sort_params(self@.parameters);
        let mut out: String = "{".to_owned();
        let mut i: usize = 0;
        proof {
            assert(sorted_model.skip(0) =~= sorted_model);
        }
        while i < sorted.len()
            invariant
                0 <= i <= sorted@.len(),
                params_model(sorted@) == sorted_model,
                sorted@.len() == sorted_model.len(),
                render_params(self@.parameters) == out@ + render_rest(sorted_model.skip(i as int)),
            decreases sorted@.len() - i,
        {
            let ghost prev = out@;
            let ghost rest = sorted_model.skip(i as int);
            proof {
                assert(sorted_model[i as int] == (sorted@[i as int].0@, sorted@[i as int].1@));
                assert(rest[0] == sorted_model[i as int]);
            }
            out.append("\"");
            out.append(sorted[i].0.as_str());
            out.append("\": \"");
            out.append(sorted[i].1.as_str());
            out.append("\"");
            if i == sorted.len() - 1 {
                out.append("}");
                proof {
                    assert(rest.len() == 1);
                    assert(render_rest(rest) == render_pair(rest[0]) + "}"@);
                    assert(out@ =~= prev + render_rest(rest));
                    assert(rest.skip(1) =~= sorted_model.skip(i + 1));
                    assert(render_rest(sorted_model.skip(i + 1)) == Seq::<char>::empty());
                    assert(out@ + render_rest(sorted_model.skip(i + 1)) =~= out@);
                }
            } else {
                out.append(", ");
                proof {
                    assert(rest.len() > 1);
                    assert(rest.skip(1) =~= sorted_model.skip(i + 1));
                    assert(render_rest(rest) == render_pair(rest[0]) + ", "@ + render_rest(
                        sorted_model.skip(i + 1),
                    ));
                    assert(out@ + render_rest(sorted_model.skip(i + 1)) =~= prev + render_rest(
                        rest,
                    ));
                }
            }
            i = i + 1;
        }
        proof {
            assert(sorted_model.skip(sorted_model.len() as int) =~= Seq::empty());
            assert(render_rest(Seq::empty()) == Seq::<char>::empty());
            assert(out@ + render_rest(sorted_model.skip(sorted_model.len() as int)) =~= out@);
        }
        out
    }

    /// The log line for a status change of this resource.
    pub fn status_update_string(&self, old_st: ResourceStatus, new_st: ResourceStatus) -> (r:
        String)
        ensures
            r@ == status_update_line(self@.parameters, old_st, new_st),
    {
        let mut out: String = "Updating status of resource ".to_owned();
        let params = self.params_string();
        out.append(params.as_str());
        out.append(" from ");
        out.append(old_st.name());
        out.append(" to ");
        out.append(new_st.name());
        proof {
            assert(out@ =~= status_update_line(self@.parameters, old_st, new_st));
        }
        out
    }

    pub fn get_status(&self) -> (r: ResourceStatus)
        ensures
            r == self@.status,
    {
        self.status
    }

    /// Install a new status. The previous value is read first, and the
    /// "Updating ..." log line is produced exactly when the new value
    /// differs and verbose reporting is on.
    pub fn set_status(&mut self, status: ResourceStatus) -> (log: Option<String>)
        ensures
            same_but_status(*old(self), *final(self), status),
            final(self)@ == with_status(old(self)@, status),
            log.is_some() == (old(self)@.status != status && old(self)@.verbose),
            match log {
                Some(l) => l@ == status_update_line(
                    old(self)@.parameters,
                    old(self)@.status,
                    status,
                ),
                None => true,
            },
    {
        let old_status = self.status;
        self.status = status;
        proof {
            assert(self@ =~= with_status(old(self)@, status));
        }
        if old_status != status && self.verbose {
            Some(self.status_update_string(old_status, status))
        } else {
            None
        }
    }

    /// Install the status that a monitor outcome maps this resource to.
    pub fn update_status(&mut self, status: Result<ocf::Status, RpcError>) -> (log: Option<String>)
        ensures
            same_but_status(*old(self), *final(self), monitor_status(outcome_model(status))),
            final(self)@ == with_status(
                old(self)@,
                monitor_status(outcome_model(status)),
            ),
            log.is_some() == (old(self)@.status != monitor_status(outcome_model(status)) && old(
                self,
            )@.verbose),
            match log {
                Some(l) => l@ == status_update_line(
                    old(self)@.parameters,
                    old(self)@.status,
                    monitor_status(outcome_model(status)),
                ),
                None => true,
            },
    {
        let new_status = match &status {
            Ok(st) => match st {
                ocf::Status::Success => ResourceStatus::RunningOnHome,
                ocf::Status::ErrNotRunning => ResourceStatus::Stopped,
                _ => ResourceStatus::Unknown,
            },
            Err(_) => ResourceStatus::Unknown,
        };
        self.set_status(new_status)
    }

    /// A resource is running when it runs on either of its hosts.
    pub fn is_running(&self) -> (r: bool)
        ensures
            r == is_running_model(self@),
    {
        match self.status {
            ResourceStatus::RunningOnHome | ResourceStatus::RunningOnAway => true,
            _ => false,
        }
    }

    /// Mark this resource as running at the given location.
    pub fn set_running_on_loc(&mut self, loc: Location) -> (log: Option<String>)
        ensures
            same_but_status(*old(self), *final(self), running_on(loc)),
            final(self)@ == with_status(old(self)@, running_on(loc)),
            log.is_some() == (old(self)@.status != running_on(loc) && old(self)@.verbose),
            match log {
                Some(l) => l@ == status_update_line(
                    old(self)@.parameters,
                    old(self)@.status,
                    running_on(loc),
                ),
                None => true,
            },
    {
        match loc {
            Location::Home => self.set_status(ResourceStatus::RunningOnHome),
            Location::Away => self.set_status(ResourceStatus::RunningOnAway),
        }
    }

    /// A structural copy of this resource tree.
    pub fn duplicate(&self) -> (r: Resource)
        ensures
            r@ == self@,
        decreases *self,
    {
        let mut parameters: Vec<(String, String)> = Vec::new();
        let mut i: usize = 0;
        while i < self.parameters.len()
            invariant
                0 <= i <= self.parameters@.len(),
                parameters@.len() == i,
                forall|j: int|
                    0 <= j < i ==> (#[trigger] parameters@[j]).0@ == self.parameters@[j].0@
                        && parameters@[j].1@ == self.parameters@[j].1@,
            decreases self.parameters@.len() - i,
        {
            parameters.push((self.parameters[i].0.clone(), self.parameters[i].1.clone()));
            i = i + 1;
        }
        let mut dependents: Vec<Resource> = Vec::new();
        let mut i: usize = 0;
        while i < self.dependents.len()
            invariant
                0 <= i <= self.dependents@.len(),
                dependents@.len() == i,
                forall|j: int|
                    0 <= j < i ==> (#[trigger] dependents@[j])@ == self.dependents@[j]@,
            decreases self.dependents@.len() - i,
        {
            let child = self.dependents[i].duplicate();
            dependents.push(child);
            i = i + 1;
        }
        let r = Resource {
            kind: self.kind.clone(),
            parameters,
            dependents,
            status: self.status,
            home_node: self.home_node,
            failover_node: self.failover_node,
            verbose: self.verbose,
        };
        proof {
            assert(params_model(r.parameters@) =~= params_model(self.parameters@));
            assert(r@.dependents =~= self@.dependents) by {
                assert(forall|j: int|
                    0 <= j < self.dependents@.len() ==> r@.dependents[j] == (
                    #[trigger] self@.dependents[j]));
            }
            assert(r@ =~= self@);
        }
        r
    }
}

/// Number of resources in a tree: the root and everything below it.
pub open spec fn tree_size(m: ResourceModel) -> nat
    decreases m,
{
    1 + forest_size(m.dependents)
}

/// Number of resources in a forest.
pub open spec fn forest_size(s: Seq<ResourceModel>) -> nat
    decreases s,
{
    if s.len() == 0 {
        0
    } else {
        tree_size(s[0]) + forest_size(s.skip(1))
    }
}

pub proof fn lemma_forest_size_concat(a: Seq<ResourceModel>, b: Seq<ResourceModel>)
    ensures
        forest_size(a + b) == forest_size(a) + forest_size(b),
    decreases a.len(),
{
    if a.len() == 0 {
        assert(a + b =~= b);
    } else {
        assert((a + b)[0] == a[0]);
        assert((a + b).skip(1) =~= a.skip(1) + b);
        lemma_forest_size_concat(a.skip(1), b);
    }
}

/// The breadth-first enumeration of a forest: the front of the queue,
/// then everything behind it together with the front's children.
pub open spec fn bfs_from(q: Seq<ResourceModel>) -> Seq<ResourceModel>
    decreases forest_size(q),
    via bfs_from_decreases
{
    if q.len() == 0 {
        Seq::empty()
    } else {
        seq![q[0]] + bfs_from(q.skip(1) + q[0].dependents)
    }
}

#[via_fn]
proof fn bfs_from_decreases(q: Seq<ResourceModel>) {
    if q.len() != 0 {
        lemma_forest_size_concat(q.skip(1), q[0].dependents);
        assert(forest_size(q) == tree_size(q[0]) + forest_size(q.skip(1)));
        assert(tree_size(q[0]) == 1 + forest_size(q[0].dependents));
        assert(forest_size(q.skip(1) + q[0].dependents) < forest_size(q));
    }
}

/// The breadth-first enumeration of one tree.
pub open spec fn bfs_tree(m: ResourceModel) -> Seq<ResourceModel> {
    bfs_from(seq![m])
}

/// The children of every tree of a forest, in order.
pub open spec fn children_concat(q: Seq<ResourceModel>) -> Seq<ResourceModel>
    decreases q,
{
    if q.len() == 0 {
        Seq::empty()
    } else {
        q[0].dependents + children_concat(q.skip(1))
    }
}

proof fn lemma_bfs_shift(a: Seq<ResourceModel>, b: Seq<ResourceModel>)
    ensures
        bfs_from(a + b) == a + bfs_from(b + children_concat(a)),
    decreases a.len(),
{
    if a.len() == 0 {
        assert(a + b =~= b);
        assert(b + children_concat(a) =~= b);
        assert(a + bfs_from(b) =~= bfs_from(b));
    } else {
        let ab = a + b;
        assert(ab.len() != 0);
        assert(ab[0] == a[0]);
        assert(bfs_from(ab) == seq![ab[0]] + bfs_from(ab.skip(1) + ab[0].dependents));
        assert(ab.skip(1) + ab[0].dependents =~= a.skip(1) + (b + a[0].dependents));
        lemma_bfs_shift(a.skip(1), b + a[0].dependents);
        assert(children_concat(a) == a[0].dependents + children_concat(a.skip(1)));
        assert((b + a[0].dependents) + children_concat(a.skip(1)) =~= b + children_concat(a));
        assert(seq![a[0]] + (a.skip(1) + bfs_from(b + children_concat(a))) =~= a + bfs_from(
            b + children_concat(a),
        ));
    }
}

/// Breadth-first order is level order: a forest's enumeration is its
/// roots, then the enumeration of all their children. In particular every
/// parent precedes its children, and siblings keep their order.
pub proof fn lemma_bfs_level_order(q: Seq<ResourceModel>)
    ensures
        bfs_from(q) == q + bfs_from(children_concat(q)),
{
    lemma_bfs_shift(q, Seq::empty());
    assert(q + Seq::empty() =~= q);
    assert(Seq::empty() + children_concat(q) =~= children_concat(q));
}

/// The resources of a tree, with multiplicity.
pub open spec fn tree_nodes(m: ResourceModel) -> Multiset<ResourceModel>
    decreases m,
{
    forest_nodes(m.dependents).insert(m)
}

/// The resources of a forest, with multiplicity.
pub open spec fn forest_nodes(s: Seq<ResourceModel>) -> Multiset<ResourceModel>
    decreases s,
{
    if s.len() == 0 {
        Multiset::empty()
    } else {
        tree_nodes(s[0]).add(forest_nodes(s.skip(1)))
    }
}

proof fn lemma_forest_nodes_concat(a: Seq<ResourceModel>, b: Seq<ResourceModel>)
    ensures
        forest_nodes(a + b) =~= forest_nodes(a).add(forest_nodes(b)),
    decreases a.len(),
{
    if a.len() == 0 {
        assert(a + b =~= b);
    } else {
        assert((a + b)[0] == a[0]);
        assert((a + b).skip(1) =~= a.skip(1) + b);
        lemma_forest_nodes_concat(a.skip(1), b);
    }
}

proof fn lemma_to_multiset_concat(a: Seq<ResourceModel>, b: Seq<ResourceModel>)
    ensures
        (a + b).to_multiset() =~= a.to_multiset().add(b.to_multiset()),
    decreases b.len(),
{
    broadcast use vstd::seq_lib::group_to_multiset_ensures;

    if b.len() == 0 {
        assert(a + b =~= a);
        assert(b.to_multiset().len() == 0);
        assert(b.to_multiset() =~= Multiset::empty());
    } else {
        let c = b.drop_last();
        let x = b.last();
        lemma_to_multiset_concat(a, c);
        assert(a + b =~= (a + c).push(x));
        assert(b =~= c.push(x));
        assert((a + c).push(x).to_multiset() =~= (a + c).to_multiset().insert(x));
        assert(c.push(x).to_multiset() =~= c.to_multiset().insert(x));
    }
}

/// A breadth-first enumeration visits each resource of the forest exactly
/// once: enumerated with exactly the multiplicities the forest holds.
pub proof fn lemma_bfs_visits_each_once(q: Seq<ResourceModel>)
    ensures
        bfs_from(q).to_multiset() =~= forest_nodes(q),
    decreases forest_size(q),
{
    broadcast use vstd::seq_lib::group_to_multiset_ensures;

    if q.len() == 0 {
        assert(bfs_from(q).to_multiset().len() == 0);
    } else {
        let next = q.skip(1) + q[0].dependents;
        lemma_forest_size_concat(q.skip(1), q[0].dependents);
        assert(forest_size(q) == tree_size(q[0]) + forest_size(q.skip(1)));
        assert(tree_size(q[0]) == 1 + forest_size(q[0].dependents));
        assert(forest_size(next) < forest_size(q));
        lemma_bfs_visits_each_once(next);
        lemma_forest_nodes_concat(q.skip(1), q[0].dependents);
        lemma_to_multiset_concat(seq![q[0]], bfs_from(next));
        assert(seq![q[0]].to_multiset() =~= Multiset::empty().insert(q[0])) by {
            assert(seq![q[0]] =~= Seq::empty().push(q[0]));
            assert(Seq::<ResourceModel>::empty().push(q[0]).to_multiset() =~= Seq::<
                ResourceModel,
            >::empty().to_multiset().insert(q[0]));
            assert(Seq::<ResourceModel>::empty().to_multiset().len() == 0);
            assert(Seq::<ResourceModel>::empty().to_multiset() =~= Multiset::empty());
        }
        broadcast use vstd::multiset::group_multiset_axioms;

        assert(bfs_from(q) == seq![q[0]] + bfs_from(next));
        assert(bfs_from(q).to_multiset() =~= seq![q[0]].to_multiset().add(
            bfs_from(next).to_multiset(),
        ));
        assert(forest_nodes(q) == tree_nodes(q[0]).add(forest_nodes(q.skip(1))));
        assert(tree_nodes(q[0]) == forest_nodes(q[0].dependents).insert(q[0]));
        assert(bfs_from(q).to_multiset() =~= forest_nodes(q));
    }
}

/// What a remote agent's operation reply carried once the transport
/// delivered it: a typed status, an error message from the far side, or
/// a reply the schema does not know.
pub enum OpReply {
    Status(ocf::Status),
    RemoteError(String),
    Unrecognized,
}

/// The status a delivered reply amounts to: the carried status itself; a
/// remote error surfaces as the generic failure; an unrecognized reply
/// as unimplemented.
pub fn interpret_reply(reply: &OpReply) -> (r: ocf::Status)
    ensures
        match reply {
            OpReply::Status(st) => r == st,
            OpReply::RemoteError(_) => r == ocf::Status::ErrGeneric,
            OpReply::Unrecognized => r == ocf::Status::ErrUnimplemented,
        },
{
    match reply {
        OpReply::Status(st) => *st,
        OpReply::RemoteError(_) => ocf::Status::ErrGeneric,
        OpReply::Unrecognized => ocf::Status::ErrUnimplemented,
    }
}

/// The shape-matching record of operation outcomes for a resource tree.
#[verifier::ext_equal]
pub struct OutcomeView {
    pub outcome: Option<ocf::Status>,
    pub dependents: Seq<OutcomeView>,
}

/// The outcomes of one resource-agent operation per resource, arranged in
/// the same shape as the resource tree they belong to.
pub struct OutcomeTree {
    pub outcome: Result<ocf::Status, RpcError>,
    pub dependents: Vec<OutcomeTree>,
}

pub open spec fn outcome_tree_model(t: OutcomeTree) -> OutcomeView
    decreases t,
{
    OutcomeView {
        outcome: outcome_model(t.outcome),
        dependents: Seq::new(
            t.dependents@.len(),
            |i: int|
                if 0 <= i < t.dependents@.len() {
                    outcome_tree_model(t.dependents[i])
                } else {
                    vstd::pervasive::arbitrary()
                },
        ),
    }
}

impl View for OutcomeTree {
    type V = OutcomeView;

    open spec fn view(&self) -> OutcomeView {
        outcome_tree_model(*self)
    }
}

/// The outcome tree has the same shape as the resource tree.
pub open spec fn mirrors(o: OutcomeView, m: ResourceModel) -> bool
    decreases o,
{
    mirrors_forest(o.dependents, m.dependents)
}

pub open spec fn mirrors_forest(os: Seq<OutcomeView>, ms: Seq<ResourceModel>) -> bool
    decreases os,
{
    os.len() == ms.len() && (os.len() == 0 || (mirrors(os[0], ms[0]) && mirrors_forest(
        os.skip(1),
        ms.skip(1),
    )))
}

pub proof fn lemma_mirrors_forest_index(os: Seq<OutcomeView>, ms: Seq<ResourceModel>, i: int)
    requires
        mirrors_forest(os, ms),
        0 <= i < os.len(),
    ensures
        mirrors(os[i], ms[i]),
    decreases os.len(),
{
    if i > 0 {
        assert(os.skip(1)[i - 1] == os[i]);
        assert(ms.skip(1)[i - 1] == ms[i]);
        lemma_mirrors_forest_index(os.skip(1), ms.skip(1), i - 1);
    }
}

/// The status a start outcome leaves a resource in: running at the target
/// location on success, stopped on a reported failure, unknown on a
/// transport failure.
pub open spec fn start_status(outcome: Option<ocf::Status>, loc: Location) -> ResourceStatus {
    match outcome {
        Some(ocf::Status::Success) => running_on(loc),
        Some(_) => ResourceStatus::Stopped,
        None => ResourceStatus::Unknown,
    }
}

/// The tree after a dependency-ordered start attempt: a resource that is
/// not already running takes its start outcome's status; its dependents
/// are attempted only when it runs afterwards.
pub open spec fn start_step_model(m: ResourceModel, loc: Location, o: OutcomeView) -> ResourceModel
    decreases m,
{
    let attempted = if is_running_model(m) {
        m
    } else {
        with_status(m, start_status(o.outcome, loc))
    };
    if is_running_model(attempted) {
        ResourceModel {
            dependents: Seq::new(
                m.dependents.len(),
                |i: int|
                    if 0 <= i < m.dependents.len() {
                        start_step_model(m.dependents[i], loc, o.dependents[i])
                    } else {
                        vstd::pervasive::arbitrary()
                    },
            ),
            ..attempted
        }
    } else {
        attempted
    }
}

/// The log lines of a dependency-ordered start attempt, in the order the
/// resources are visited (parent first, then each dependent subtree).
pub open spec fn start_logs(m: ResourceModel, loc: Location, o: OutcomeView) -> Seq<Seq<char>>
    decreases m,
{
    let new_st = start_status(o.outcome, loc);
    let own: Seq<Seq<char>> = if is_running_model(m) {
        Seq::empty()
    } else if m.status != new_st && m.verbose {
        seq![status_update_line(m.parameters, m.status, new_st)]
    } else {
        Seq::empty()
    };
    let attempted = if is_running_model(m) {
        m
    } else {
        with_status(m, start_status(o.outcome, loc))
    };
    if is_running_model(attempted) {
        own + start_logs_forest(m.dependents, loc, o.dependents)
    } else {
        own
    }
}

pub open spec fn start_logs_forest(
    ms: Seq<ResourceModel>,
    loc: Location,
    os: Seq<OutcomeView>,
) -> Seq<Seq<char>>
    decreases ms,
{
    if ms.len() == 0 {
        Seq::empty()
    } else {
        start_logs(ms[0], loc, os[0]) + start_logs_forest(ms.skip(1), loc, os.skip(1))
    }
}

/// The resources for which a start attempt is issued, in visiting order,
/// as they stood before the attempt.
pub open spec fn start_calls(m: ResourceModel, loc: Location, o: OutcomeView) -> Seq<ResourceModel>
    decreases m,
{
    let own: Seq<ResourceModel> = if is_running_model(m) {
        Seq::empty()
    } else {
        seq![m]
    };
    let attempted = if is_running_model(m) {
        m
    } else {
        with_status(m, start_status(o.outcome, loc))
    };
    if is_running_model(attempted) {
        own + start_calls_forest(m.dependents, loc, o.dependents)
    } else {
        own
    }
}

pub open spec fn start_calls_forest(
    ms: Seq<ResourceModel>,
    loc: Location,
    os: Seq<OutcomeView>,
) -> Seq<ResourceModel>
    decreases ms,
{
    if ms.len() == 0 {
        Seq::empty()
    } else {
        start_calls(ms[0], loc, os[0]) + start_calls_forest(ms.skip(1), loc, os.skip(1))
    }
}

/// A dependency-ordered start never issues a start for a resource that is
/// already running: every resource it starts was not running before.
pub proof fn lemma_start_never_restarts_running(m: ResourceModel, loc: Location, o: OutcomeView)
    ensures
        forall|i: int|
            0 <= i < start_calls(m, loc, o).len() ==> !is_running_model(
                #[trigger] start_calls(m, loc, o)[i],
            ),
    decreases m,
{
    lemma_start_calls_forest_not_running(m.dependents, loc, o.dependents);
    let calls = start_calls(m, loc, o);
    let own: Seq<ResourceModel> = if is_running_model(m) {
        Seq::empty()
    } else {
        seq![m]
    };
    let attempted = if is_running_model(m) {
        m
    } else {
        with_status(m, start_status(o.outcome, loc))
    };
    assert forall|i: int| 0 <= i < calls.len() implies !is_running_model(calls[i]) by {
        if is_running_model(attempted) {
            if i < own.len() {
                assert(calls[i] == own[i]);
            } else {
                assert(calls[i] == start_calls_forest(m.dependents, loc, o.dependents)[i
                    - own.len()]);
            }
        } else {
            assert(calls[i] == own[i]);
        }
    }
}

proof fn lemma_start_calls_forest_not_running(
    ms: Seq<ResourceModel>,
    loc: Location,
    os: Seq<OutcomeView>,
)
    ensures
        forall|i: int|
            0 <= i < start_calls_forest(ms, loc, os).len() ==> !is_running_model(
                #[trigger] start_calls_forest(ms, loc, os)[i],
            ),
    decreases ms,
{
    if ms.len() != 0 {
        lemma_start_never_restarts_running(ms[0], loc, os[0]);
        lemma_start_calls_forest_not_running(ms.skip(1), loc, os.skip(1));
        assert forall|i: int| 0 <= i < start_calls_forest(ms, loc, os).len() implies
            !is_running_model(#[trigger] start_calls_forest(ms, loc, os)[i]) by {
            let own = start_calls(ms[0], loc, os[0]);
            if i < own.len() {
                assert(start_calls_forest(ms, loc, os)[i] == own[i]);
            } else {
                assert(start_calls_forest(ms, loc, os)[i] == start_calls_forest(
                    ms.skip(1),
                    loc,
                    os.skip(1),
                )[i - own.len()]);
            }
        }
    }
}

/// When a resource's own start does not succeed, none of its dependents
/// is attempted in that tick: the start attempt stops at the parent.
pub proof fn lemma_start_skips_children_of_failed_parent(
    m: ResourceModel,
    loc: Location,
    o: OutcomeView,
)
    requires
        !is_running_model(m),
        o.outcome != Some(ocf::Status::Success),
    ensures
        start_calls(m, loc, o) == seq![m],
        start_step_model(m, loc, o) == with_status(m, start_status(o.outcome, loc)),
{
    assert(!is_running_model(with_status(m, start_status(o.outcome, loc))));
}

impl Resource {
    /// Start this resource if it is not already running, and on success
    /// go on to its dependents: the dependency-ordered start. The given
    /// outcome tree records what each issued start returned; outcomes of
    /// resources that are not attempted are ignored. Returns the log
    /// lines of every status change, in visiting order.
    pub fn start_if_needed_recursive(&mut self, loc: Location, outcomes: &OutcomeTree) -> (logs:
        Vec<String>)
        requires
            mirrors(outcomes@, old(self)@),
        ensures
            final(self)@ == start_step_model(old(self)@, loc, outcomes@),
            logs.deep_view() == start_logs(old(self)@, loc, outcomes@),
        decreases *old(self),
    {
        let ghost m0 = self@;
        let ghost ov = outcomes@;
        let mut logs: Vec<String> = Vec::new();
        if !self.is_running() {
            let new_status = match &outcomes.outcome {
                Ok(st) => match st {
                    ocf::Status::Success => match loc {
                        Location::Home => ResourceStatus::RunningOnHome,
                        Location::Away => ResourceStatus::RunningOnAway,
                    },
                    _ => ResourceStatus::Stopped,
                },
                Err(_) => ResourceStatus::Unknown,
            };
            proof {
                assert(new_status == start_status(ov.outcome, loc));
            }
            if let Some(l) = self.set_status(new_status) {
                logs.push(l);
            }
        }
        let ghost own_logs = logs.deep_view();
        proof {
            let new_st = start_status(ov.outcome, loc);
            if is_running_model(m0) {
                assert(own_logs =~= Seq::<Seq<char>>::empty());
            } else if m0.status != new_st && m0.verbose {
                assert(own_logs =~= seq![status_update_line(m0.parameters, m0.status, new_st)]);
            } else {
                assert(own_logs =~= Seq::<Seq<char>>::empty());
            }
        }
        let ghost attempted = self@;
        if self.is_running() {
            let ghost msd = m0.dependents;
            let ghost osd = ov.dependents;
            let mut i: usize = 0;
            proof {
                assert(msd.skip(0) =~= msd);
                assert(osd.skip(0) =~= osd);
                assert(start_logs(m0, loc, ov) == own_logs + start_logs_forest(msd, loc, osd));
                assert(self.dependents@ == old(self).dependents@);
                assert forall|j: int| 0 <= j < msd.len() implies (#[trigger] self.dependents@[j])@
                    == msd[j] by {
                    assert(m0.dependents[j] == old(self).dependents[j]@);
                }
            }
            while i < self.dependents.len()
                invariant
                    0 <= i <= msd.len(),
                    self.dependents@.len() == msd.len(),
                    old(self).dependents@.len() == msd.len(),
                    osd.len() == msd.len(),
                    mirrors_forest(osd, msd),
                    outcomes@.dependents == osd,
                    self@.kind == attempted.kind,
                    self@.parameters == attempted.parameters,
                    self@.status == attempted.status,
                    self@.home_node == attempted.home_node,
                    self@.failover_node == attempted.failover_node,
                    self@.verbose == attempted.verbose,
                    forall|j: int|
                        0 <= j < i ==> (#[trigger] self.dependents@[j])@ == start_step_model(
                            msd[j],
                            loc,
                            osd[j],
                        ),
                    forall|j: int|
                        i <= j < msd.len() ==> self.dependents@[j] == #[trigger] old(
                            self,
                        ).dependents@[j],
                    forall|j: int|
                        i <= j < msd.len() ==> (#[trigger] self.dependents@[j])@ == msd[j],
                    logs.deep_view() + start_logs_forest(msd.skip(i as int), loc, osd.skip(i as int))
                        == start_logs(m0, loc, ov),
                decreases msd.len() - i,
            {
                let ghost pre_logs = logs.deep_view();
                proof {
                    lemma_mirrors_forest_index(osd, msd, i as int);
                    assert(outcomes@.dependents[i as int] == outcomes.dependents@[i as int]@);
                    assert(self.dependents@[i as int]@ == msd[i as int]);
                    assert(self.dependents@[i as int] == old(self).dependents@[i as int]);
                    assert(decreases_to!(*old(self) => old(self).dependents));
                    assert(decreases_to!(old(self).dependents => old(self).dependents[i as int]));
                    assert(decreases_to!(*old(self) => old(self).dependents[i as int]));
                }
                let oc = &outcomes.dependents[i];
                let mut ls = self.dependents[i].start_if_needed_recursive(loc, oc);
                let ghost lsd = ls.deep_view();
                logs.append(&mut ls);
                proof {
                    let ii = i as int;
                    assert(msd.skip(ii)[0] == msd[ii]);
                    assert(osd.skip(ii)[0] == osd[ii]);
                    assert(msd.skip(ii).skip(1) =~= msd.skip(ii + 1));
                    assert(osd.skip(ii).skip(1) =~= osd.skip(ii + 1));
                    assert(start_logs_forest(msd.skip(ii), loc, osd.skip(ii)) == start_logs(
                        msd[ii],
                        loc,
                        osd[ii],
                    ) + start_logs_forest(msd.skip(ii + 1), loc, osd.skip(ii + 1)));
                    assert(lsd == start_logs(msd[ii], loc, osd[ii]));
                    assert(logs.deep_view() =~= pre_logs + lsd);
                    assert(logs.deep_view() + start_logs_forest(msd.skip(ii + 1), loc, osd.skip(ii + 1))
                        =~= pre_logs + start_logs_forest(msd.skip(ii), loc, osd.skip(ii)));
                }
                i = i + 1;
            }
            proof {
                let result = start_step_model(m0, loc, ov);
                assert(self@.dependents =~= result.dependents) by {
                    assert(forall|j: int|
                        0 <= j < msd.len() ==> self@.dependents[j] == (#[trigger] self.dependents@[j])@);
                    assert(forall|j: int|
                        0 <= j < msd.len() ==> (#[trigger] result.dependents[j]) == start_step_model(
                            msd[j],
                            loc,
                            osd[j],
                        ));
                }
                assert(self@ =~= result);
                assert(msd.skip(msd.len() as int) =~= Seq::<ResourceModel>::empty());
                assert(osd.skip(osd.len() as int) =~= Seq::<OutcomeView>::empty());
                assert(start_logs_forest(Seq::empty(), loc, Seq::empty())
                    == Seq::<Seq<char>>::empty());
                assert(logs.deep_view() + Seq::<Seq<char>>::empty() =~= logs.deep_view());
            }
        } else {
            proof {
                assert(self@ == start_step_model(m0, loc, ov));
                assert(logs.deep_view() == start_logs(m0, loc, ov));
            }
        }
        logs
    }
}

/// The tree after a monitor pass: every resource takes the status its
/// monitor outcome maps to.
pub open spec fn monitor_step_model(m: ResourceModel, o: OutcomeView) -> ResourceModel
    decreases m,
{
    ResourceModel {
        status: monitor_status(o.outcome),
        dependents: Seq::new(
            m.dependents.len(),
            |i: int|
                if 0 <= i < m.dependents.len() {
                    monitor_step_model(m.dependents[i], o.dependents[i])
                } else {
                    vstd::pervasive::arbitrary()
                },
        ),
        ..m
    }
}

/// The log lines of a monitor pass, in visiting order.
pub open spec fn monitor_logs(m: ResourceModel, o: OutcomeView) -> Seq<Seq<char>>
    decreases m,
{
    let new_st = monitor_status(o.outcome);
    let own: Seq<Seq<char>> = if m.status != new_st && m.verbose {
        seq![status_update_line(m.parameters, m.status, new_st)]
    } else {
        Seq::empty()
    };
    own + monitor_logs_forest(m.dependents, o.dependents)
}

pub open spec fn monitor_logs_forest(ms: Seq<ResourceModel>, os: Seq<OutcomeView>) -> Seq<
    Seq<char>,
>
    decreases ms,
{
    if ms.len() == 0 {
        Seq::empty()
    } else {
        monitor_logs(ms[0], os[0]) + monitor_logs_forest(ms.skip(1), os.skip(1))
    }
}

/// Some outcome in the tree was a transport failure.
pub open spec fn any_transport_error(o: OutcomeView) -> bool
    decreases o,
{
    o.outcome is None || any_transport_error_forest(o.dependents)
}

pub open spec fn any_transport_error_forest(os: Seq<OutcomeView>) -> bool
    decreases os,
{
    os.len() > 0 && (any_transport_error(os[0]) || any_transport_error_forest(os.skip(1)))
}

impl Resource {
    /// Apply a monitor outcome to this resource and, recursively, each
    /// dependent's outcome to it. Returns the log lines of every status
    /// change in visiting order, and whether any outcome was a transport
    /// failure.
    pub fn update_statuses_recursive(&mut self, outcomes: &OutcomeTree) -> (r: (Vec<String>, bool))
        requires
            mirrors(outcomes@, old(self)@),
        ensures
            final(self)@ == monitor_step_model(old(self)@, outcomes@),
            r.0.deep_view() == monitor_logs(old(self)@, outcomes@),
            r.1 == any_transport_error(outcomes@),
        decreases *old(self),
    {
        let ghost m0 = self@;
        let ghost ov = outcomes@;
        let mut logs: Vec<String> = Vec::new();
        let mut error_seen = match &outcomes.outcome {
            Ok(_) => false,
            Err(_) => true,
        };
        let new_status = match &outcomes.outcome {
            Ok(st) => match st {
                ocf::Status::Success => ResourceStatus::RunningOnHome,
                ocf::Status::ErrNotRunning => ResourceStatus::Stopped,
                _ => ResourceStatus::Unknown,
            },
            Err(_) => ResourceStatus::Unknown,
        };
        proof {
            assert(new_status == monitor_status(ov.outcome));
        }
        if let Some(l) = self.set_status(new_status) {
            logs.push(l);
        }
        let ghost own_logs = logs.deep_view();
        proof {
            if m0.status != monitor_status(ov.outcome) && m0.verbose {
                assert(own_logs =~= seq![
                    status_update_line(m0.parameters, m0.status, monitor_status(ov.outcome)),
                ]);
            } else {
                assert(own_logs =~= Seq::<Seq<char>>::empty());
            }
        }
        let ghost attempted = self@;
        let ghost msd = m0.dependents;
        let ghost osd = ov.dependents;
        let mut i: usize = 0;
        proof {
            assert(msd.skip(0) =~= msd);
            assert(osd.skip(0) =~= osd);
            assert(monitor_logs(m0, ov) == own_logs + monitor_logs_forest(msd, osd));
            assert(self.dependents@ == old(self).dependents@);
            assert forall|j: int| 0 <= j < msd.len() implies (#[trigger] self.dependents@[j])@
                == msd[j] by {
                assert(m0.dependents[j] == old(self).dependents[j]@);
            }
        }
        while i < self.dependents.len()
            invariant
                0 <= i <= msd.len(),
                self.dependents@.len() == msd.len(),
                old(self).dependents@.len() == msd.len(),
                osd.len() == msd.len(),
                mirrors_forest(osd, msd),
                outcomes@.dependents == osd,
                outcomes@.outcome == ov.outcome,
                self@.kind == attempted.kind,
                self@.parameters == attempted.parameters,
                self@.status == attempted.status,
                self@.home_node == attempted.home_node,
                self@.failover_node == attempted.failover_node,
                self@.verbose == attempted.verbose,
                error_seen == (ov.outcome is None || any_transport_error_forest(
                    osd.take(i as int),
                )),
                forall|j: int|
                    0 <= j < i ==> (#[trigger] self.dependents@[j])@ == monitor_step_model(
                        msd[j],
                        osd[j],
                    ),
                forall|j: int|
                    i <= j < msd.len() ==> self.dependents@[j] == #[trigger] old(
                        self,
                    ).dependents@[j],
                forall|j: int| i <= j < msd.len() ==> (#[trigger] self.dependents@[j])@ == msd[j],
                logs.deep_view() + monitor_logs_forest(msd.skip(i as int), osd.skip(i as int))
                    == monitor_logs(m0, ov),
            decreases msd.len() - i,
        {
            let ghost pre_logs = logs.deep_view();
            let ghost pre_err = error_seen;
            proof {
                lemma_mirrors_forest_index(osd, msd, i as int);
                assert(outcomes@.dependents[i as int] == outcomes.dependents@[i as int]@);
                assert(self.dependents@[i as int]@ == msd[i as int]);
                assert(self.dependents@[i as int] == old(self).dependents@[i as int]);
                assert(decreases_to!(*old(self) => old(self).dependents));
                assert(decreases_to!(old(self).dependents => old(self).dependents[i as int]));
                assert(decreases_to!(*old(self) => old(self).dependents[i as int]));
            }
            let oc = &outcomes.dependents[i];
            let (mut ls, child_err) = self.dependents[i].update_statuses_recursive(oc);
            let ghost lsd = ls.deep_view();
            logs.append(&mut ls);
            error_seen = error_seen || child_err;
            proof {
                let ii = i as int;
                assert(msd.skip(ii)[0] == msd[ii]);
                assert(osd.skip(ii)[0] == osd[ii]);
                assert(msd.skip(ii).skip(1) =~= msd.skip(ii + 1));
                assert(osd.skip(ii).skip(1) =~= osd.skip(ii + 1));
                assert(monitor_logs_forest(msd.skip(ii), osd.skip(ii)) == monitor_logs(
                    msd[ii],
                    osd[ii],
                ) + monitor_logs_forest(msd.skip(ii + 1), osd.skip(ii + 1)));
                assert(lsd == monitor_logs(msd[ii], osd[ii]));
                assert(logs.deep_view() =~= pre_logs + lsd);
                assert(logs.deep_view() + monitor_logs_forest(msd.skip(ii + 1), osd.skip(ii + 1))
                    =~= pre_logs + monitor_logs_forest(msd.skip(ii), osd.skip(ii)));
                lemma_any_transport_error_take_step(osd, ii);
            }
            i = i + 1;
        }
        proof {
            let result = monitor_step_model(m0, ov);
            assert(self@.dependents =~= result.dependents) by {
                assert(forall|j: int|
                    0 <= j < msd.len() ==> self@.dependents[j] == (
                    #[trigger] self.dependents@[j])@);
                assert(forall|j: int|
                    0 <= j < msd.len() ==> (#[trigger] result.dependents[j]) == monitor_step_model(
                        msd[j],
                        osd[j],
                    ));
            }
            assert(self@ =~= result);
            assert(msd.skip(msd.len() as int) =~= Seq::<ResourceModel>::empty());
            assert(osd.skip(osd.len() as int) =~= Seq::<OutcomeView>::empty());
            assert(monitor_logs_forest(Seq::empty(), Seq::empty()) == Seq::<Seq<char>>::empty());
            assert(logs.deep_view() + Seq::<Seq<char>>::empty() =~= logs.deep_view());
            assert(osd.take(osd.len() as int) =~= osd);
        }
        (logs, error_seen)
    }
}

/// Walking one more outcome forward extends the prefix's transport-error
/// flag by exactly that outcome's own tree.
proof fn lemma_any_transport_error_take_step(os: Seq<OutcomeView>, i: int)
    requires
        0 <= i < os.len(),
    ensures
        any_transport_error_forest(os.take(i + 1)) == (any_transport_error_forest(os.take(i))
            || any_transport_error(os[i])),
    decreases i,
{
    if i == 0 {
        assert(os.take(1)[0] == os[0]);
        assert(os.take(1).skip(1) =~= Seq::<OutcomeView>::empty());
        assert(os.take(0) =~= Seq::<OutcomeView>::empty());
    } else {
        assert(os.take(i + 1)[0] == os[0]);
        assert(os.take(i)[0] == os[0]);
        assert(os.take(i + 1).skip(1) =~= os.skip(1).take(i));
        assert(os.take(i).skip(1) =~= os.skip(1).take(i - 1));
        assert(os.skip(1)[i - 1] == os[i]);
        lemma_any_transport_error_take_step(os.skip(1), i - 1);
    }
}

/// A resource group: one storage-pool resource at the root together with
/// every resource that depends on it, and the group's aggregate status.
pub struct ResourceGroup {
    pub root: Resource,
    pub overall_status: ResourceStatus,
}

impl ResourceGroup {
    /// The group's aggregate status.
    pub open spec fn overall(self) -> ResourceStatus {
        self.overall_status
    }

    /// The group's members in breadth-first order.
    pub open spec fn members(self) -> Seq<ResourceModel> {
        bfs_tree(self.root@)
    }

    /// A group is rooted at a storage pool.
    pub fn new(root: Resource) -> (r: ResourceGroup)
        requires
            root@.kind == "heartbeat/ZFS"@,
        ensures
            r.root@ == root@,
            r.overall() == ResourceStatus::Unknown,
    {
        ResourceGroup { root, overall_status: ResourceStatus::Unknown }
    }

    pub fn get_overall_status(&self) -> (r: ResourceStatus)
        ensures
            r == self.overall(),
    {
        self.overall_status
    }

    pub fn set_overall_status(&mut self, new_status: ResourceStatus)
        ensures
            final(self).root == old(self).root,
            final(self).overall() == new_status,
    {
        self.overall_status = new_status;
    }

    /// The group's members, each with its subtree, in breadth-first
    /// order: the root first, then each visited resource's dependents in
    /// order behind everything already queued.
    pub fn resources(&self) -> (r: Vec<Resource>)
        ensures
            models_of(r@) == self.members(),
    {
        let ghost root_m = self.root@;
        let mut out: Vec<Resource> = Vec::new();
        let mut queue: Vec<Resource> = Vec::new();
        queue.push(self.root.duplicate());
        let mut head: usize = 0;
        proof {
            assert(models_of(queue@.skip(0)) =~= seq![root_m]);
            assert(models_of(out@) + bfs_from(seq![root_m]) =~= bfs_from(seq![root_m]));
        }
        while head < queue.len()
            invariant
                0 <= head <= queue@.len(),
                models_of(out@) + bfs_from(models_of(queue@.skip(head as int))) == bfs_from(
                    seq![root_m],
                ),
            decreases forest_size(models_of(queue@.skip(head as int))),
        {
            let ghost h0 = head as int;
            let ghost pre_q = queue@;
            let ghost pre_out = out@;
            let ghost qm = models_of(queue@.skip(h0));
            proof {
                assert(qm[0] == queue@[h0]@);
            }
            let r = queue[head].duplicate();
            let mut k: usize = 0;
            while k < r.dependents.len()
                invariant
                    0 <= k <= r.dependents@.len(),
                    queue@.len() == pre_q.len() + k,
                    r@ == qm[0],
                    forall|j: int| 0 <= j < pre_q.len() ==> queue@[j] == #[trigger] pre_q[j],
                    forall|j: int|
                        0 <= j < k ==> (#[trigger] queue@[pre_q.len() + j])@ == r@.dependents[j],
                decreases r.dependents@.len() - k,
            {
                let child = r.dependents[k].duplicate();
                queue.push(child);
                proof {
                    assert(r@.dependents[k as int] == r.dependents@[k as int]@);
                }
                k = k + 1;
            }
            out.push(r);
            head = head + 1;
            proof {
                let post_qm = models_of(queue@.skip(head as int));
                assert(qm.len() > 0);
                assert forall|i: int| 0 <= i < post_qm.len() implies post_qm[i] == (qm.skip(1)
                    + qm[0].dependents)[i] by {
                    assert(post_qm[i] == queue@[head + i]@);
                    if head + i < pre_q.len() {
                        assert(queue@[head + i] == pre_q[head + i]);
                        assert(qm.skip(1)[i] == qm[i + 1]);
                        assert(qm[i + 1] == pre_q[h0 + i + 1]@);
                    } else {
                        let j = head + i - pre_q.len();
                        assert(queue@[pre_q.len() + j]@ == qm[0].dependents[j]);
                    }
                }
                assert(post_qm =~= qm.skip(1) + qm[0].dependents);
                assert(bfs_from(qm) == seq![qm[0]] + bfs_from(qm.skip(1) + qm[0].dependents));
                assert(models_of(out@) =~= models_of(pre_out).push(qm[0]));
                assert(models_of(out@) + bfs_from(post_qm) =~= models_of(pre_out) + bfs_from(qm));
                lemma_forest_size_concat(qm.skip(1), qm[0].dependents);
                assert(forest_size(qm) == tree_size(qm[0]) + forest_size(qm.skip(1)));
                assert(tree_size(qm[0]) == 1 + forest_size(qm[0].dependents));
                assert(forest_size(post_qm) < forest_size(qm));
            }
        }
        proof {
            assert(models_of(queue@.skip(head as int)).len() == 0);
            assert(models_of(queue@.skip(head as int)) =~= Seq::<ResourceModel>::empty());
            assert(bfs_from(Seq::empty()) == Seq::<ResourceModel>::empty());
            assert(models_of(out@) + Seq::<ResourceModel>::empty() =~= models_of(out@));
        }
        out
    }

    /// The members' statuses in breadth-first order.
    pub fn member_statuses(&self) -> (r: Vec<ResourceStatus>)
        ensures
            r@ == self.members().map_values(|m: ResourceModel| m.status),
    {
        let all = self.resources();
        let mut out: Vec<ResourceStatus> = Vec::new();
        let mut i: usize = 0;
        while i < all.len()
            invariant
                0 <= i <= all@.len(),
                models_of(all@) == self.members(),
                all@.len() == self.members().len(),
                out@.len() == i,
                forall|j: int| 0 <= j < i ==> out@[j] == self.members()[j].status,
            decreases all@.len() - i,
        {
            let st = all[i].get_status();
            proof {
                assert(models_of(all@)[i as int] == all@[i as int]@);
            }
            out.push(st);
            i = i + 1;
        }
        proof {
            assert(out@ =~= self.members().map_values(|m: ResourceModel| m.status));
        }
        out
    }

    /// Recompute the group's aggregate status: the worst status among its
    /// members, `Unknown` for an empty membership.
    pub fn update_overall_status(&mut self)
        ensures
            final(self).root == old(self).root,
            aggregate_of(final(self).members(), final(self).overall()),
    {
        let statuses = self.member_statuses();
        let overall = ResourceStatus::get_worst(&statuses);
        self.set_overall_status(overall);
        proof {
            assert(statuses@ == old(self).members().map_values(|m: ResourceModel| m.status));
            assert(self.members() == old(self).members());
        }
    }
}

/// What one non-HA manage tick reports back to its caller.
pub struct NonHaTickReport {
    /// The status-change log lines of this tick, in order.
    pub logs: Vec<String>,
    /// When the tick ran a monitor pass: whether a transport failure was
    /// seen, which marks the home host's power status unknown.
    pub monitor_error: Option<bool>,
    /// The group stood in a state that cannot arise without a failover
    /// host; the group was parked at `Unknown`.
    pub invalid_state: bool,
}

/// The group states a non-HA manage loop can never reach.
pub open spec fn non_ha_invalid(st: ResourceStatus) -> bool {
    st == ResourceStatus::RunningOnAway || st == ResourceStatus::CheckingHome || st
        == ResourceStatus::CheckingAway
}

impl ResourceGroup {
    /// Refresh the status of every member from its monitor outcome.
    /// Returns the log lines and whether a transport failure was seen
    /// (the caller then marks the home host's power status unknown).
    pub fn update_resources(&mut self, loc: Location, outcomes: &OutcomeTree) -> (r: (
        Vec<String>,
        bool,
    ))
        requires
            mirrors(outcomes@, old(self).root@),
        ensures
            final(self).root@ == monitor_step_model(old(self).root@, outcomes@),
            final(self).overall() == old(self).overall(),
            r.0.deep_view() == monitor_logs(old(self).root@, outcomes@),
            r.1 == any_transport_error(outcomes@),
    {
        let _ = loc;
        self.root.update_statuses_recursive(outcomes)
    }

    /// Attempt a dependency-ordered start of the group at the given
    /// location.
    pub fn try_start_resources(&mut self, loc: Location, outcomes: &OutcomeTree) -> (logs: Vec<
        String,
    >)
        requires
            mirrors(outcomes@, old(self).root@),
        ensures
            final(self).root@ == start_step_model(old(self).root@, loc, outcomes@),
            final(self).overall() == old(self).overall(),
            logs.deep_view() == start_logs(old(self).root@, loc, outcomes@),
    {
        self.root.start_if_needed_recursive(loc, outcomes)
    }

    /// One tick of the manage loop for a group without a failover host.
    /// Depending on the group's aggregate status the tick refreshes the
    /// members at home, attempts a dependency-ordered start at home, or
    /// leaves them alone; afterwards the aggregate is recomputed. A state
    /// that cannot arise without a failover host parks the group at
    /// `Unknown` and is reported as an internal error.
    pub fn manage_tick_non_ha(&mut self, outcomes: &OutcomeTree) -> (r: NonHaTickReport)
        requires
            mirrors(outcomes@, old(self).root@),
        ensures
            r.invalid_state == non_ha_invalid(old(self).overall()),
            old(self).overall() == ResourceStatus::Unknown || old(self).overall()
                == ResourceStatus::RunningOnHome ==> {
                &&& final(self).root@ == monitor_step_model(old(self).root@, outcomes@)
                &&& r.logs.deep_view() == monitor_logs(old(self).root@, outcomes@)
                &&& r.monitor_error == Some(any_transport_error(outcomes@))
            },
            old(self).overall() == ResourceStatus::Stopped ==> {
                &&& final(self).root@ == start_step_model(old(self).root@, Location::Home, outcomes@)
                &&& r.logs.deep_view() == start_logs(old(self).root@, Location::Home, outcomes@)
                &&& r.monitor_error is None
            },
            old(self).overall() == ResourceStatus::Unrunnable || non_ha_invalid(old(self).overall())
                ==> {
                &&& final(self).root@ == old(self).root@
                &&& r.logs.deep_view() == Seq::<Seq<char>>::empty()
                &&& r.monitor_error is None
            },
            r.invalid_state ==> final(self).overall() == ResourceStatus::Unknown,
            !r.invalid_state ==> aggregate_of(final(self).members(), final(self).overall()),
    {
        let mut report = NonHaTickReport { logs: Vec::new(), monitor_error: None, invalid_state: false };
        match self.get_overall_status() {
            ResourceStatus::Unknown | ResourceStatus::RunningOnHome => {
                let (logs, error_seen) = self.update_resources(Location::Home, outcomes);
                report.logs = logs;
                report.monitor_error = Some(error_seen);
            },
            ResourceStatus::Stopped => {
                report.logs = self.try_start_resources(Location::Home, outcomes);
            },
            ResourceStatus::Unrunnable => {
                proof {
                    assert(report.logs.deep_view() =~= Seq::<Seq<char>>::empty());
                }
            },
            ResourceStatus::RunningOnAway
            | ResourceStatus::CheckingHome
            | ResourceStatus::CheckingAway => {
                report.invalid_state = true;
                proof {
                    assert(report.logs.deep_view() =~= Seq::<Seq<char>>::empty());
                }
            },
        }
        if report.invalid_state {
            self.set_overall_status(ResourceStatus::Unknown);
        } else {
            self.update_overall_status();
        }
        report
    }
}

/// The events the HA manage loop reacts to, distilled from probe and
/// start outcomes across the group's members and both hosts.
#[derive(Clone, Copy, Debug, PartialEq, Eq, Structural)]
pub enum HaEvent {
    /// Probing at home found every member running.
    AllHomeRunning,
    /// Every member reports not-running at home and running at the
    /// failover host.
    HomeStoppedAwayRunning,
    /// Every member reports not-running on both hosts.
    BothStopped,
    StartHomeSucceeded,
    StartHomeFailed,
    /// The home probe failed beyond tolerance, or reported a generic
    /// error.
    HomeProbeLost,
    /// A targeted re-probe confirmed that home is gone.
    HomeLossConfirmed,
    /// A targeted re-probe found home serving after all.
    HomeRecovered,
    AwayStartSucceeded,
    AwayStartFailed,
    /// Fencing the home host did not succeed; the planned failover is
    /// blocked.
    FencingFailed,
    /// The probes produced no usable evidence.
    NoEvidence,
}

/// What the HA manage loop does next to realise a transition.
#[derive(Clone, Copy, Debug, PartialEq, Eq, Structural)]
pub enum HaAction {
    NoAction,
    /// Attempt a dependency-ordered start at home.
    TryStartHome,
    /// Issue a targeted re-probe of the home host.
    ReProbeHome,
    /// Power the home host off and, once fencing succeeded, attempt a
    /// dependency-ordered start at the failover host.
    FenceHomeThenStartAway,
}

/// The HA transition table. Once a group runs at the failover host it
/// stays there until an operator intervenes; a fencing failure parks the
/// group at `Unknown` until the next tick retries; any pairing the table
/// does not name leaves the state alone.
pub open spec fn ha_next(s: ResourceStatus, e: HaEvent) -> (ResourceStatus, HaAction) {
    if e == HaEvent::FencingFailed {
        (ResourceStatus::Unknown, HaAction::NoAction)
    } else {
        match s {
            ResourceStatus::Unknown | ResourceStatus::Unrunnable => match e {
                HaEvent::AllHomeRunning => (ResourceStatus::RunningOnHome, HaAction::NoAction),
                HaEvent::HomeStoppedAwayRunning => (
                    ResourceStatus::RunningOnAway,
                    HaAction::NoAction,
                ),
                HaEvent::BothStopped => (ResourceStatus::Stopped, HaAction::TryStartHome),
                _ => (s, HaAction::NoAction),
            },
            ResourceStatus::Stopped => match e {
                HaEvent::StartHomeSucceeded => (ResourceStatus::RunningOnHome, HaAction::NoAction),
                HaEvent::StartHomeFailed => (
                    ResourceStatus::CheckingAway,
                    HaAction::FenceHomeThenStartAway,
                ),
                _ => (s, HaAction::NoAction),
            },
            ResourceStatus::RunningOnHome => match e {
                HaEvent::HomeProbeLost => (ResourceStatus::CheckingHome, HaAction::ReProbeHome),
                _ => (s, HaAction::NoAction),
            },
            ResourceStatus::CheckingHome => match e {
                HaEvent::HomeLossConfirmed => (
                    ResourceStatus::CheckingAway,
                    HaAction::FenceHomeThenStartAway,
                ),
                HaEvent::HomeRecovered => (ResourceStatus::RunningOnHome, HaAction::NoAction),
                _ => (s, HaAction::NoAction),
            },
            ResourceStatus::CheckingAway => match e {
                HaEvent::AwayStartSucceeded => (ResourceStatus::RunningOnAway, HaAction::NoAction),
                HaEvent::AwayStartFailed => (ResourceStatus::Unrunnable, HaAction::NoAction),
                _ => (s, HaAction::NoAction),
            },
            ResourceStatus::RunningOnAway => (s, HaAction::NoAction),
        }
    }
}

/// Once a group runs at the failover host, no event moves it anywhere
/// else by itself: fail-back is an operator's decision, never automatic.
pub proof fn lemma_ha_away_is_sticky(e: HaEvent)
    ensures
        e != HaEvent::FencingFailed ==> ha_next(ResourceStatus::RunningOnAway, e).0
            == ResourceStatus::RunningOnAway,
        e != HaEvent::FencingFailed ==> ha_next(ResourceStatus::RunningOnAway, e).1
            == HaAction::NoAction,
{
}

/// Every outcome in the tree is a reply carrying exactly this status.
pub open spec fn all_replied(o: OutcomeView, st: ocf::Status) -> bool
    decreases o,
{
    o.outcome == Some(st) && all_replied_forest(o.dependents, st)
}

pub open spec fn all_replied_forest(os: Seq<OutcomeView>, st: ocf::Status) -> bool
    decreases os,
{
    os.len() == 0 || (all_replied(os[0], st) && all_replied_forest(os.skip(1), st))
}

proof fn lemma_all_replied_forest_index(os: Seq<OutcomeView>, st: ocf::Status, i: int)
    requires
        all_replied_forest(os, st),
        0 <= i < os.len(),
    ensures
        all_replied(os[i], st),
    decreases os.len(),
{
    if i > 0 {
        assert(os.skip(1)[i - 1] == os[i]);
        lemma_all_replied_forest_index(os.skip(1), st, i - 1);
    }
}

proof fn lemma_all_replied_forest_from_each(os: Seq<OutcomeView>, st: ocf::Status)
    requires
        forall|k: int| 0 <= k < os.len() ==> all_replied(#[trigger] os[k], st),
    ensures
        all_replied_forest(os, st),
    decreases os.len(),
{
    if os.len() != 0 {
        assert(forall|k: int| 0 <= k < os.len() - 1 ==> os.skip(1)[k] == os[k + 1]);
        lemma_all_replied_forest_from_each(os.skip(1), st);
    }
}

/// Whether every outcome in the tree is a reply carrying exactly `st`.
pub fn tree_all_replied(o: &OutcomeTree, st: ocf::Status) -> (r: bool)
    ensures
        r == all_replied(o@, st),
    decreases *o,
{
    let own = match &o.outcome {
        Ok(s) => *s == st,
        Err(_) => false,
    };
    if !own {
        return false;
    }
    let mut i: usize = 0;
    while i < o.dependents.len()
        invariant
            0 <= i <= o.dependents@.len(),
            o@.outcome == Some(st),
            forall|k: int| 0 <= k < i ==> all_replied(#[trigger] o@.dependents[k], st),
        decreases o.dependents@.len() - i,
    {
        proof {
            assert(o@.dependents[i as int] == o.dependents@[i as int]@);
            assert(decreases_to!(*o => o.dependents));
            assert(decreases_to!(o.dependents => o.dependents[i as int]));
            assert(decreases_to!(*o => o.dependents[i as int]));
        }
        if !tree_all_replied(&o.dependents[i], st) {
            proof {
                if all_replied(o@, st) {
                    lemma_all_replied_forest_index(o@.dependents, st, i as int);
                }
            }
            return false;
        }
        i = i + 1;
    }
    proof {
        lemma_all_replied_forest_from_each(o@.dependents, st);
    }
    true
}

/// The event one round of HA probes amounts to: every member running at
/// home; everything stopped at home but running at the failover host;
/// everything stopped on both; or no usable evidence.
pub open spec fn ha_probe_event(home: OutcomeView, away: OutcomeView) -> HaEvent {
    if all_replied(home, ocf::Status::Success) {
        HaEvent::AllHomeRunning
    } else if all_replied(home, ocf::Status::ErrNotRunning) && all_replied(
        away,
        ocf::Status::Success,
    ) {
        HaEvent::HomeStoppedAwayRunning
    } else if all_replied(home, ocf::Status::ErrNotRunning) && all_replied(
        away,
        ocf::Status::ErrNotRunning,
    ) {
        HaEvent::BothStopped
    } else {
        HaEvent::NoEvidence
    }
}

/// Distil the event of one HA probe round from the monitor outcomes at
/// the home and failover hosts.
pub fn classify_ha_probes(home: &OutcomeTree, away: &OutcomeTree) -> (e: HaEvent)
    ensures
        e == ha_probe_event(home@, away@),
{
    if tree_all_replied(home, ocf::Status::Success) {
        HaEvent::AllHomeRunning
    } else if tree_all_replied(home, ocf::Status::ErrNotRunning) {
        if tree_all_replied(away, ocf::Status::Success) {
            HaEvent::HomeStoppedAwayRunning
        } else if tree_all_replied(away, ocf::Status::ErrNotRunning) {
            HaEvent::BothStopped
        } else {
            HaEvent::NoEvidence
        }
    } else {
        HaEvent::NoEvidence
    }
}

impl ResourceGroup {
    /// One transition of the HA manage loop: install the successor state
    /// for the given event and hand back the action that realises it.
    pub fn manage_tick_ha(&mut self, event: HaEvent) -> (action: HaAction)
        ensures
            final(self).root == old(self).root,
            (final(self).overall(), action) == ha_next(old(self).overall(), event),
    {
        let s = self.get_overall_status();
        let (next, action): (ResourceStatus, HaAction) = if matches!(event, HaEvent::FencingFailed) {
            (ResourceStatus::Unknown, HaAction::NoAction)
        } else {
            match s {
                ResourceStatus::Unknown | ResourceStatus::Unrunnable => match event {
                    HaEvent::AllHomeRunning => (ResourceStatus::RunningOnHome, HaAction::NoAction),
                    HaEvent::HomeStoppedAwayRunning => (
                        ResourceStatus::RunningOnAway,
                        HaAction::NoAction,
                    ),
                    HaEvent::BothStopped => (ResourceStatus::Stopped, HaAction::TryStartHome),
                    _ => (s, HaAction::NoAction),
                },
                ResourceStatus::Stopped => match event {
                    HaEvent::StartHomeSucceeded => (
                        ResourceStatus::RunningOnHome,
                        HaAction::NoAction,
                    ),
                    HaEvent::StartHomeFailed => (
                        ResourceStatus::CheckingAway,
                        HaAction::FenceHomeThenStartAway,
                    ),
                    _ => (s, HaAction::NoAction),
                },
                ResourceStatus::RunningOnHome => match event {
                    HaEvent::HomeProbeLost => (ResourceStatus::CheckingHome, HaAction::ReProbeHome),
                    _ => (s, HaAction::NoAction),
                },
                ResourceStatus::CheckingHome => match event {
                    HaEvent::HomeLossConfirmed => (
                        ResourceStatus::CheckingAway,
                        HaAction::FenceHomeThenStartAway,
                    ),
                    HaEvent::HomeRecovered => (ResourceStatus::RunningOnHome, HaAction::NoAction),
                    _ => (s, HaAction::NoAction),
                },
                ResourceStatus::CheckingAway => match event {
                    HaEvent::AwayStartSucceeded => (
                        ResourceStatus::RunningOnAway,
                        HaAction::NoAction,
                    ),
                    HaEvent::AwayStartFailed => (ResourceStatus::Unrunnable, HaAction::NoAction),
                    _ => (s, HaAction::NoAction),
                },
                ResourceStatus::RunningOnAway => (s, HaAction::NoAction),
            }
        };
        self.set_overall_status(next);
        action
    }
}

/// `agg` is the aggregate of members carrying these statuses: the worst
/// member status, or `Unknown` when there are none. The aggregate is
/// `Unknown` or one of the members' own statuses.
pub open spec fn aggregate_of(members: Seq<ResourceModel>, agg: ResourceStatus) -> bool {
    let sts = members.map_values(|m: ResourceModel| m.status);
    &&& sts.len() == 0 ==> agg == ResourceStatus::Unknown
    &&& sts.len() > 0 ==> sts.contains(agg)
    &&& forall|i: int| 0 <= i < sts.len() ==> agg.rank() <= (#[trigger] sts[i]).rank()
}

} // verus!
