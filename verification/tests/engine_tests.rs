//! The lifecycle engine: the observe mapping, the non-HA manage tick,
//! the dependency-ordered start, the HA transitions, and the shared
//! buffer.

use halo_lib::host::{Host, HostStatus};
use halo_lib::remote::ocf;
use halo_lib::resource::{
    classify_ha_probes, HaAction, HaEvent, OutcomeTree, Resource, ResourceGroup, ResourceStatus,
    RpcError,
};
use halo_lib::{Buffer, LogStream, StreamError};

fn make_res(
    kind: &str,
    params: &[(&str, &str)],
    status: ResourceStatus,
    verbose: bool,
    deps: Vec<Resource>,
) -> Resource {
    Resource {
        kind: kind.to_string(),
        parameters: params.iter().map(|(k, v)| (k.to_string(), v.to_string())).collect(),
        dependents: deps,
        status,
        home_node: 0,
        failover_node: None,
        verbose,
    }
}

fn outcome(o: Result<ocf::Status, &str>, deps: Vec<OutcomeTree>) -> OutcomeTree {
    OutcomeTree {
        outcome: o.map_err(|m| RpcError { message: m.to_string() }),
        dependents: deps,
    }
}

fn pool_group(pool_status: ResourceStatus, target_status: ResourceStatus) -> ResourceGroup {
    let target = make_res("lustre/Lustre", &[("target", "p1/t1")], target_status, true, vec![]);
    let root = make_res("heartbeat/ZFS", &[("pool", "p1")], pool_status, true, vec![target]);
    ResourceGroup::new(root)
}

fn pair_outcomes(root: Result<ocf::Status, &str>, child: Result<ocf::Status, &str>) -> OutcomeTree {
    outcome(root, vec![outcome(child, vec![])])
}

#[test]
fn observe_mapping_converges() {
    // A freshly observed running resource goes Unknown -> RunningOnHome
    // with exactly one report.
    let mut r = make_res("heartbeat/ZFS", &[("pool", "p1")], ResourceStatus::Unknown, true, vec![]);
    let log = r.update_status(Ok(ocf::Status::Success));
    assert_eq!(r.get_status(), ResourceStatus::RunningOnHome);
    assert_eq!(
        log.as_deref(),
        Some("Updating status of resource {\"pool\": \"p1\"} from Unknown to RunningOnHome")
    );
    // The next identical observation reports nothing.
    assert!(r.update_status(Ok(ocf::Status::Success)).is_none());
    // Not-running maps to Stopped, other replies and transport failures
    // to Unknown.
    let mut r2 = make_res("heartbeat/ZFS", &[("pool", "p1")], ResourceStatus::Unknown, false, vec![]);
    r2.update_status(Ok(ocf::Status::ErrNotRunning));
    assert_eq!(r2.get_status(), ResourceStatus::Stopped);
    r2.update_status(Ok(ocf::Status::ErrGeneric));
    assert_eq!(r2.get_status(), ResourceStatus::Unknown);
    r2.update_status(Err(RpcError { message: "connection refused".to_string() }));
    assert_eq!(r2.get_status(), ResourceStatus::Unknown);
}

#[test]
fn manage_recovery_sequence() {
    // All resources initially stopped, manager in manage mode without a
    // failover pair: Unknown -> Stopped, then Stopped -> RunningOnHome.
    let mut group = pool_group(ResourceStatus::Unknown, ResourceStatus::Unknown);

    let report = group.manage_tick_non_ha(&pair_outcomes(
        Ok(ocf::Status::ErrNotRunning),
        Ok(ocf::Status::ErrNotRunning),
    ));
    assert!(!report.invalid_state);
    assert_eq!(report.monitor_error, Some(false));
    assert_eq!(
        report.logs,
        vec![
            "Updating status of resource {\"pool\": \"p1\"} from Unknown to Stopped",
            "Updating status of resource {\"target\": \"p1/t1\"} from Unknown to Stopped",
        ]
    );
    assert_eq!(group.get_overall_status(), ResourceStatus::Stopped);

    let report = group.manage_tick_non_ha(&pair_outcomes(
        Ok(ocf::Status::Success),
        Ok(ocf::Status::Success),
    ));
    assert_eq!(report.monitor_error, None);
    assert_eq!(
        report.logs,
        vec![
            "Updating status of resource {\"pool\": \"p1\"} from Stopped to RunningOnHome",
            "Updating status of resource {\"target\": \"p1/t1\"} from Stopped to RunningOnHome",
        ]
    );
    assert_eq!(group.get_overall_status(), ResourceStatus::RunningOnHome);

    // The pool's state vanishes underneath: the next monitor pass sees
    // both not running, and the tick after that starts them again.
    let report = group.manage_tick_non_ha(&pair_outcomes(
        Ok(ocf::Status::ErrNotRunning),
        Ok(ocf::Status::ErrNotRunning),
    ));
    assert_eq!(report.monitor_error, Some(false));
    assert_eq!(group.get_overall_status(), ResourceStatus::Stopped);
    let report = group.manage_tick_non_ha(&pair_outcomes(
        Ok(ocf::Status::Success),
        Ok(ocf::Status::Success),
    ));
    assert_eq!(report.logs.len(), 2);
    assert_eq!(group.get_overall_status(), ResourceStatus::RunningOnHome);
}

#[test]
fn monitor_transport_error_marks_host_unknown() {
    let mut group = pool_group(ResourceStatus::Unknown, ResourceStatus::Unknown);
    let report = group.manage_tick_non_ha(&pair_outcomes(
        Err("connection timed out"),
        Ok(ocf::Status::Success),
    ));
    assert_eq!(report.monitor_error, Some(true));
    // The caller applies the verdict to the home host; Up is recorded on
    // a clean pass, Unknown stays installable, Down never is.
    let mut host = Host::new("mds01", None, 8000, None);
    assert!(host.set_status(HostStatus::Unknown).is_ok());
    assert!(host.set_status(HostStatus::Up).is_ok());
    assert_eq!(host.get_status(), HostStatus::Up);
}

#[test]
fn host_down_status_is_rejected() {
    let mut host = Host::new("mds01", None, 8000, None);
    assert!(host.set_status(HostStatus::Up).is_ok());
    assert!(host.set_status(HostStatus::Down).is_err());
    assert_eq!(host.get_status(), HostStatus::Up);
}

#[test]
fn start_skips_running_resources() {
    // The pool is already running: no start is issued for it, so the
    // outcome recorded for it is irrelevant and its status is untouched.
    let target = make_res("lustre/Lustre", &[("target", "p1/t1")], ResourceStatus::Stopped, false, vec![]);
    let root = make_res("heartbeat/ZFS", &[("pool", "p1")], ResourceStatus::RunningOnHome, false, vec![target]);
    let mut group = ResourceGroup::new(root);
    group.try_start_resources(
        halo_lib::resource::Location::Home,
        &pair_outcomes(Ok(ocf::Status::ErrGeneric), Ok(ocf::Status::Success)),
    );
    assert_eq!(group.root.get_status(), ResourceStatus::RunningOnHome);
    assert_eq!(group.root.dependents[0].get_status(), ResourceStatus::RunningOnHome);
}

#[test]
fn failed_parent_start_leaves_children_alone() {
    let mut group = pool_group(ResourceStatus::Stopped, ResourceStatus::Stopped);
    // The pool's start fails; the target must not be attempted even
    // though its recorded outcome would have been a success.
    group.try_start_resources(
        halo_lib::resource::Location::Home,
        &pair_outcomes(Ok(ocf::Status::ErrGeneric), Ok(ocf::Status::Success)),
    );
    assert_eq!(group.root.get_status(), ResourceStatus::Stopped);
    assert_eq!(group.root.dependents[0].get_status(), ResourceStatus::Stopped);
    // A transport failure on the parent start parks it at Unknown.
    let mut group = pool_group(ResourceStatus::Stopped, ResourceStatus::Stopped);
    group.try_start_resources(
        halo_lib::resource::Location::Home,
        &pair_outcomes(Err("broken pipe"), Ok(ocf::Status::Success)),
    );
    assert_eq!(group.root.get_status(), ResourceStatus::Unknown);
    assert_eq!(group.root.dependents[0].get_status(), ResourceStatus::Stopped);
}

#[test]
fn start_at_away_location() {
    let mut group = pool_group(ResourceStatus::Stopped, ResourceStatus::Stopped);
    let logs = group.try_start_resources(
        halo_lib::resource::Location::Away,
        &pair_outcomes(Ok(ocf::Status::Success), Ok(ocf::Status::Success)),
    );
    assert_eq!(group.root.get_status(), ResourceStatus::RunningOnAway);
    assert_eq!(group.root.dependents[0].get_status(), ResourceStatus::RunningOnAway);
    assert_eq!(logs.len(), 2);
}

#[test]
fn invalid_states_park_a_non_ha_group() {
    for st in [
        ResourceStatus::RunningOnAway,
        ResourceStatus::CheckingHome,
        ResourceStatus::CheckingAway,
    ] {
        let mut group = pool_group(ResourceStatus::Unknown, ResourceStatus::Unknown);
        group.set_overall_status(st);
        let report = group.manage_tick_non_ha(&pair_outcomes(
            Ok(ocf::Status::Success),
            Ok(ocf::Status::Success),
        ));
        assert!(report.invalid_state);
        assert!(report.logs.is_empty());
        assert_eq!(group.get_overall_status(), ResourceStatus::Unknown);
    }
}

#[test]
fn unrunnable_group_rests() {
    let mut group = pool_group(ResourceStatus::Unrunnable, ResourceStatus::Unrunnable);
    group.set_overall_status(ResourceStatus::Unrunnable);
    let report = group.manage_tick_non_ha(&pair_outcomes(
        Ok(ocf::Status::Success),
        Ok(ocf::Status::Success),
    ));
    assert!(!report.invalid_state);
    assert!(report.logs.is_empty());
    assert_eq!(report.monitor_error, None);
    assert_eq!(group.get_overall_status(), ResourceStatus::Unrunnable);
}

#[test]
fn ha_transitions_follow_the_table() {
    let mut group = pool_group(ResourceStatus::Unknown, ResourceStatus::Unknown);

    // Unknown + both stopped: attempt a start at home.
    let action = group.manage_tick_ha(HaEvent::BothStopped);
    assert_eq!(group.get_overall_status(), ResourceStatus::Stopped);
    assert_eq!(action, HaAction::TryStartHome);

    // Stopped + home start failed: fence home, then start away.
    let action = group.manage_tick_ha(HaEvent::StartHomeFailed);
    assert_eq!(group.get_overall_status(), ResourceStatus::CheckingAway);
    assert_eq!(action, HaAction::FenceHomeThenStartAway);

    // CheckingAway + away start succeeded: running at the failover host.
    let action = group.manage_tick_ha(HaEvent::AwayStartSucceeded);
    assert_eq!(group.get_overall_status(), ResourceStatus::RunningOnAway);
    assert_eq!(action, HaAction::NoAction);

    // Once on away, the group stays there: no automatic fail-back.
    let action = group.manage_tick_ha(HaEvent::HomeRecovered);
    assert_eq!(group.get_overall_status(), ResourceStatus::RunningOnAway);
    assert_eq!(action, HaAction::NoAction);
}

#[test]
fn ha_probe_loss_and_recovery() {
    let mut group = pool_group(ResourceStatus::RunningOnHome, ResourceStatus::RunningOnHome);
    group.set_overall_status(ResourceStatus::RunningOnHome);
    let action = group.manage_tick_ha(HaEvent::HomeProbeLost);
    assert_eq!(group.get_overall_status(), ResourceStatus::CheckingHome);
    assert_eq!(action, HaAction::ReProbeHome);
    let action = group.manage_tick_ha(HaEvent::HomeRecovered);
    assert_eq!(group.get_overall_status(), ResourceStatus::RunningOnHome);
    assert_eq!(action, HaAction::NoAction);
    // Confirmed loss instead: fence home and move away.
    group.set_overall_status(ResourceStatus::CheckingHome);
    let action = group.manage_tick_ha(HaEvent::HomeLossConfirmed);
    assert_eq!(group.get_overall_status(), ResourceStatus::CheckingAway);
    assert_eq!(action, HaAction::FenceHomeThenStartAway);
    // A fencing failure blocks the failover and parks the group.
    let action = group.manage_tick_ha(HaEvent::FencingFailed);
    assert_eq!(group.get_overall_status(), ResourceStatus::Unknown);
    assert_eq!(action, HaAction::NoAction);
    // An unrunnable group retries from the probe events.
    group.set_overall_status(ResourceStatus::Unrunnable);
    let action = group.manage_tick_ha(HaEvent::AllHomeRunning);
    assert_eq!(group.get_overall_status(), ResourceStatus::RunningOnHome);
    assert_eq!(action, HaAction::NoAction);
}

#[test]
fn probe_rounds_classify_into_events() {
    let all_up = pair_outcomes(Ok(ocf::Status::Success), Ok(ocf::Status::Success));
    let all_down = pair_outcomes(Ok(ocf::Status::ErrNotRunning), Ok(ocf::Status::ErrNotRunning));
    let mixed = pair_outcomes(Ok(ocf::Status::Success), Ok(ocf::Status::ErrNotRunning));
    let broken = pair_outcomes(Err("connection refused"), Ok(ocf::Status::ErrNotRunning));

    assert_eq!(classify_ha_probes(&all_up, &all_down), HaEvent::AllHomeRunning);
    assert_eq!(classify_ha_probes(&all_down, &all_up), HaEvent::HomeStoppedAwayRunning);
    assert_eq!(classify_ha_probes(&all_down, &all_down), HaEvent::BothStopped);
    assert_eq!(classify_ha_probes(&mixed, &all_down), HaEvent::NoEvidence);
    assert_eq!(classify_ha_probes(&broken, &all_down), HaEvent::NoEvidence);
    assert_eq!(classify_ha_probes(&all_down, &mixed), HaEvent::NoEvidence);
}

#[test]
fn buffer_hands_each_byte_out_once() {
    let mut b = Buffer::new();
    assert_eq!(b.read(16), Err(StreamError::WouldBlock));
    assert_eq!(b.write(&b"hello".to_vec()), 5);
    let first = b.read(3).unwrap();
    assert_eq!(first, b"hel".to_vec());
    let second = b.read(16).unwrap();
    assert_eq!(second, b"lo".to_vec());
    // Never the same data twice.
    assert_eq!(b.read(16), Err(StreamError::WouldBlock));
    assert_eq!(b.read(0), Err(StreamError::TooSmall));
}

#[test]
fn buffer_lines() {
    let mut b = Buffer::new();
    assert_eq!(b.writeln(&b"one".to_vec()), 4);
    b.write(&b"tw".to_vec());
    assert_eq!(b.readln(64).unwrap(), b"one\n".to_vec());
    // The second line is not complete yet.
    assert_eq!(b.readln(64), Err(StreamError::WouldBlock));
    b.writeln(&b"o".to_vec());
    assert_eq!(b.readln(64).unwrap(), b"two\n".to_vec());
    // A line that cannot fit the caller's buffer is refused.
    b.writeln(&b"a long line".to_vec());
    assert_eq!(b.readln(4), Err(StreamError::TooSmall));
}

#[test]
fn log_streams() {
    let mut s = LogStream::new_buffer();
    assert_eq!(s.writeln(&b"line".to_vec()), 5);
    assert_eq!(s.readln(64).unwrap(), b"line\n".to_vec());
    let mut out = LogStream::new_stdout();
    assert_eq!(out.writeln(&b"line".to_vec()), 5);
    assert_eq!(out.readln(64), Err(StreamError::NotReadable));
    let mut err = LogStream::new_stderr();
    assert_eq!(err.read(64), Err(StreamError::NotReadable));
}
