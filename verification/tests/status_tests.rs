//! Statuses, their ordering and aggregation, and status reporting.

use halo_lib::commands::status::render_status_line;
use halo_lib::remote::ocf;
use halo_lib::resource::{Resource, ResourceGroup, ResourceStatus};

fn res(
    kind: &str,
    params: &[(&str, &str)],
    status: ResourceStatus,
    verbose: bool,
    deps: Vec<Resource>,
) -> Resource {
    Resource {
        kind: kind.to_string(),
        parameters: params.iter().map(|(k, v)| (k.to_string(), v.to_string())).collect(),
        dependents: deps,
        status,
        home_node: 0,
        failover_node: None,
        verbose,
    }
}

#[test]
fn test_get_worst() {
    assert_eq!(
        ResourceStatus::Unknown,
        ResourceStatus::get_worst(&vec![ResourceStatus::Unknown, ResourceStatus::Unrunnable])
    );

    assert_eq!(ResourceStatus::get_worst(&vec![]), ResourceStatus::Unknown);

    assert_eq!(
        ResourceStatus::get_worst(&vec![
            ResourceStatus::RunningOnHome,
            ResourceStatus::RunningOnAway
        ]),
        ResourceStatus::RunningOnAway,
    );
}

#[test]
fn aggregation_of_three_members() {
    let t1 = res("lustre/Lustre", &[("target", "t1")], ResourceStatus::RunningOnHome, false, vec![]);
    let t2 = res("lustre/Lustre", &[("target", "t2")], ResourceStatus::Stopped, false, vec![]);
    let root = res(
        "heartbeat/ZFS",
        &[("pool", "p1")],
        ResourceStatus::RunningOnHome,
        false,
        vec![t1, t2],
    );
    let mut group = ResourceGroup::new(root);
    group.update_overall_status();
    assert_eq!(group.get_overall_status(), ResourceStatus::Stopped);

    // Swapping one member to Unknown drags the aggregate down to Unknown.
    group.root.dependents[1].status = ResourceStatus::Unknown;
    group.update_overall_status();
    assert_eq!(group.get_overall_status(), ResourceStatus::Unknown);
}

#[test]
fn ocf_status_codes_map_bijectively() {
    let all = [
        ocf::Status::Success,
        ocf::Status::ErrGeneric,
        ocf::Status::ErrArgs,
        ocf::Status::ErrUnimplemented,
        ocf::Status::ErrPerm,
        ocf::Status::ErrInstalled,
        ocf::Status::ErrConfigured,
        ocf::Status::ErrNotRunning,
    ];
    for code in 0..8 {
        let st = ocf::Status::from_code(code);
        assert_eq!(st, all[code as usize]);
        assert_eq!(st.code(), code);
    }
    assert_eq!(ocf::Status::from_code(8), ocf::Status::ErrUnimplemented);
    assert_eq!(ocf::Status::from_code(-1), ocf::Status::ErrUnimplemented);
    assert_eq!(ocf::Status::from_code(255), ocf::Status::ErrUnimplemented);
    assert_eq!(ocf::Status::from(0), ocf::Status::Success);
    assert_eq!(ocf::Status::from(7), ocf::Status::ErrNotRunning);
}

#[test]
fn params_string_orders_keys() {
    let r = res(
        "lustre/Lustre",
        &[("target", "p/t"), ("kind", "ost"), ("mountpoint", "/mnt/t")],
        ResourceStatus::Unknown,
        false,
        vec![],
    );
    assert_eq!(
        r.params_string(),
        "{\"kind\": \"ost\", \"mountpoint\": \"/mnt/t\", \"target\": \"p/t\"}"
    );
}

#[test]
fn params_string_of_empty_map() {
    let r = res("heartbeat/ZFS", &[], ResourceStatus::Unknown, false, vec![]);
    assert_eq!(r.params_string(), "{");
}

#[test]
fn status_update_string_format() {
    let r = res("heartbeat/ZFS", &[("pool", "p1")], ResourceStatus::Unknown, true, vec![]);
    assert_eq!(
        r.status_update_string(ResourceStatus::Unknown, ResourceStatus::Stopped),
        "Updating status of resource {\"pool\": \"p1\"} from Unknown to Stopped"
    );
}

#[test]
fn set_status_reports_each_change_exactly_once() {
    let mut r = res("heartbeat/ZFS", &[("pool", "p1")], ResourceStatus::Unknown, true, vec![]);
    let log = r.set_status(ResourceStatus::Stopped);
    assert_eq!(
        log.as_deref(),
        Some("Updating status of resource {\"pool\": \"p1\"} from Unknown to Stopped")
    );
    // Same value again: nothing changes, nothing is reported.
    let log = r.set_status(ResourceStatus::Stopped);
    assert!(log.is_none());
    // Without verbose reporting there is no line even on a change.
    let mut quiet = res("heartbeat/ZFS", &[("pool", "p1")], ResourceStatus::Unknown, false, vec![]);
    assert!(quiet.set_status(ResourceStatus::Stopped).is_none());
    assert_eq!(quiet.get_status(), ResourceStatus::Stopped);
}

#[test]
fn render_status_lines() {
    let params = vec![("pool".to_string(), "p1".to_string())];
    assert_eq!(render_status_line(ResourceStatus::RunningOnHome, &params), "OK: [pool: p1]");
    assert_eq!(render_status_line(ResourceStatus::Stopped, &params), "Stopped: [pool: p1]");
    assert_eq!(
        render_status_line(ResourceStatus::RunningOnAway, &params),
        "Failed over: [pool: p1]"
    );
    let two = vec![
        ("a".to_string(), "1".to_string()),
        ("b".to_string(), "2".to_string()),
    ];
    assert_eq!(render_status_line(ResourceStatus::Unknown, &two), "Unknown: [a: 1, b: 2]");
    let none: Vec<(String, String)> = vec![];
    assert_eq!(render_status_line(ResourceStatus::Unrunnable, &none), "Can't run anywhere: []");
}

#[test]
fn status_names() {
    assert_eq!(ResourceStatus::RunningOnHome.name(), "RunningOnHome");
    assert_eq!(ResourceStatus::Unknown.name(), "Unknown");
    assert_eq!(ResourceStatus::CheckingAway.name(), "CheckingAway");
}
