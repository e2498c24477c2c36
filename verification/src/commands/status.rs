//! Rendering a cluster snapshot for the interactive status client.

use crate::resource::ResourceStatus;
use vstd::prelude::*;

verus! {

/// Arguments of the status subcommand.
pub struct StatusArgs {
    /// Leave out resources that are running normally.
    pub exclude_normal: bool,
}

/// The display form of a status on the control channel.
pub open spec fn display_form(s: ResourceStatus) -> Seq<char> {
    match s {
        ResourceStatus::Unknown => "Unknown"@,
        ResourceStatus::CheckingHome => "Checking on home"@,
        ResourceStatus::RunningOnHome => "Home"@,
        ResourceStatus::Stopped => "Stopped"@,
        ResourceStatus::CheckingAway => "Checking on failover"@,
        ResourceStatus::RunningOnAway => "Failed over"@,
        ResourceStatus::Unrunnable => "Can't run anywhere"@,
    }
}

/// The display form of a status on the control channel.
pub fn display_status(s: ResourceStatus) -> (r: &'static str)
    ensures
        r@ == display_form(s),
{
    match s {
        ResourceStatus::Unknown => "Unknown",
        ResourceStatus::CheckingHome => "Checking on home",
        ResourceStatus::RunningOnHome => "Home",
        ResourceStatus::Stopped => "Stopped",
        ResourceStatus::CheckingAway => "Checking on failover",
        ResourceStatus::RunningOnAway => "Failed over",
        ResourceStatus::Unrunnable => "Can't run anywhere",
    }
}

/// The word the status line opens with: `OK` for a resource running at
/// home, the display form otherwise.
pub open spec fn status_label(s: ResourceStatus) -> Seq<char> {
    if s == ResourceStatus::RunningOnHome {
        "OK"@
    } else {
        display_form(s)
    }
}

/// The bracketed parameter list of a status line, in the order the
/// parameters were delivered.
pub open spec fn params_list_form(params: Seq<(Seq<char>, Seq<char>)>) -> Seq<char>
    decreases params.len(),
{
    if params.len() == 0 {
        Seq::empty()
    } else if params.len() == 1 {
        params[0].0 + ": "@ + params[0].1
    } else {
        params[0].0 + ": "@ + params[0].1 + ", "@ + params_list_form(params.skip(1))
    }
}

/// One rendered line of the status report:
/// `<status>: [<key>: <value>, ...]`.
pub open spec fn status_line_form(s: ResourceStatus, params: Seq<(Seq<char>, Seq<char>)>) -> Seq<
    char,
> {
    status_label(s) + ": ["@ + params_list_form(params) + "]"@
}

/// Render one resource of a snapshot as its status line.
pub fn render_status_line(s: ResourceStatus, params: &Vec<(String, String)>) -> (r: String)
    ensures
        r@ == status_line_form(s, crate::resource::params_model(params@)),
{
    let ghost pm = crate::resource::params_model(params@);
    let mut out: String;
    if matches!(s, ResourceStatus::RunningOnHome) {
        out = "OK".to_owned();
    } else {
        out = display_status(s).to_owned();
    }
    out.append(": [");
    let mut i: usize = 0;
    proof {
        assert(pm.skip(0) =~= pm);
        assert(out@ + params_list_form(pm) =~= status_label(s) + ": ["@ + params_list_form(pm));
    }
    while i < params.len()
        invariant
            0 <= i <= params@.len(),
            pm == crate::resource::params_model(params@),
            pm.len() == params@.len(),
            out@ + params_list_form(pm.skip(i as int)) == status_label(s) + ": ["@
                + params_list_form(pm),
            i == params@.len() ==> out@ == status_label(s) + ": ["@ + params_list_form(pm),
        decreases params@.len() - i,
    {
        let ghost pre = out@;
        let ghost rest = pm.skip(i as int);
        proof {
            assert(pm[i as int] == (params@[i as int].0@, params@[i as int].1@));
            assert(rest[0] == pm[i as int]);
            assert(rest.skip(1) =~= pm.skip(i + 1));
        }
        out.append(params[i].0.as_str());
        out.append(": ");
        out.append(params[i].1.as_str());
        if i < params.len() - 1 {
            out.append(", ");
            proof {
                assert(rest.len() > 1);
                assert(params_list_form(rest) == rest[0].0 + ": "@ + rest[0].1 + ", "@
                    + params_list_form(pm.skip(i + 1)));
                assert(out@ + params_list_form(pm.skip(i + 1)) =~= pre + params_list_form(rest));
            }
        } else {
            proof {
                assert(rest.len() == 1);
                assert(params_list_form(rest) == rest[0].0 + ": "@ + rest[0].1);
                assert(out@ =~= pre + params_list_form(rest));
                assert(params_list_form(pm.skip(i + 1)) == Seq::<char>::empty());
                assert(out@ + Seq::<char>::empty() =~= out@);
            }
        }
        i = i + 1;
    }
    out.append("]");
    proof {
        if pm.len() == 0 {
            assert(params_list_form(pm) == Seq::<char>::empty());
        }
        assert(out@ =~= status_line_form(s, pm));
    }
    out
}

} // verus!
