//! Assembly of the cluster from configuration, its enumeration, and the
//! control-channel snapshot.

use halo_lib::cluster::{get_failover_partner, Cluster};
use halo_lib::commands::unmanage::{unmanage, UnmanageArgs};
use halo_lib::commands::validate::validate;
use halo_lib::commands::Cli;
use halo_lib::config;
use halo_lib::config::ConfigError;
use halo_lib::host::HostStatus;
use halo_lib::manager::MgrContext;
use halo_lib::remote::ocf;
use halo_lib::resource::{Location, OutcomeTree, Resource, ResourceStatus, RpcError};

fn cfg_res(kind: &str, params: &[(&str, &str)], requires: Option<&str>) -> config::Resource {
    config::Resource {
        kind: kind.to_string(),
        parameters: params.iter().map(|(k, v)| (k.to_string(), v.to_string())).collect(),
        requires: requires.map(|s| s.to_string()),
    }
}

fn one_host_config(resources: Vec<(&str, config::Resource)>) -> config::Config {
    config::Config {
        hosts: vec![config::Host {
            hostname: "h1".to_string(),
            resources: resources.into_iter().map(|(k, v)| (k.to_string(), v)).collect(),
            fence_agent: None,
            fence_parameters: None,
        }],
        failover_pairs: None,
    }
}

fn build(config: config::Config) -> Result<Cluster, ConfigError> {
    Cluster::from_config(config, MgrContext::new(Cli::default()), 8000)
}

fn kinds(resources: &[Resource]) -> Vec<String> {
    resources.iter().map(|r| r.kind.clone()).collect()
}

#[test]
fn single_host_assembly() {
    let cluster = build(one_host_config(vec![
        ("p1", cfg_res("heartbeat/ZFS", &[("pool", "p1")], None)),
        ("ost1", cfg_res("lustre/Lustre", &[("target", "p1/ost1")], Some("p1"))),
        ("ost2", cfg_res("lustre/Lustre", &[("target", "p1/ost2")], Some("p1"))),
    ]))
    .unwrap();

    assert_eq!(cluster.num_zpools(), 1);
    assert_eq!(cluster.num_targets(), 2);
    assert_eq!(cluster.hosts().len(), 1);
    assert_eq!(cluster.hosts()[0].name(), "h1");
    assert_eq!(cluster.hosts()[0].port(), 8000);

    // Enumeration is breadth first: the pool, then its targets in
    // identifier order.
    let all = cluster.resources();
    assert_eq!(
        kinds(&all),
        vec!["heartbeat/ZFS", "lustre/Lustre", "lustre/Lustre"]
    );
    assert_eq!(all[1].parameters[0].1, "p1/ost1");
    assert_eq!(all[2].parameters[0].1, "p1/ost2");
    // Every resource starts out Unknown and bound to its host.
    for r in &all {
        assert_eq!(r.get_status(), ResourceStatus::Unknown);
        assert_eq!(r.home_node, 0);
        assert_eq!(r.failover_node, None);
    }
}

#[test]
fn bfs_visits_level_by_level() {
    // c depends on a, which depends on the pool; b depends on the pool
    // directly: enumeration is pool, a, b, c.
    let cluster = build(one_host_config(vec![
        ("pool", cfg_res("heartbeat/ZFS", &[("pool", "pool")], None)),
        ("a", cfg_res("lustre/Lustre", &[("target", "a")], Some("pool"))),
        ("b", cfg_res("lustre/Lustre", &[("target", "b")], Some("pool"))),
        ("c", cfg_res("lustre/Lustre", &[("target", "c")], Some("a"))),
    ]))
    .unwrap();
    let all = cluster.resources();
    let targets: Vec<String> = all
        .iter()
        .map(|r| r.parameters.first().map(|p| p.1.clone()).unwrap_or_default())
        .collect();
    assert_eq!(targets, vec!["pool", "a", "b", "c"]);
    assert_eq!(all.len(), 4);
}

#[test]
fn assembly_is_order_independent() {
    // The same resources written in two different orders produce the
    // same trees.
    let forward = build(one_host_config(vec![
        ("p1", cfg_res("heartbeat/ZFS", &[("pool", "p1")], None)),
        ("ost1", cfg_res("lustre/Lustre", &[("target", "p1/ost1")], Some("p1"))),
        ("ost2", cfg_res("lustre/Lustre", &[("target", "p1/ost2")], Some("p1"))),
    ]))
    .unwrap();
    let backward = build(one_host_config(vec![
        ("ost2", cfg_res("lustre/Lustre", &[("target", "p1/ost2")], Some("p1"))),
        ("ost1", cfg_res("lustre/Lustre", &[("target", "p1/ost1")], Some("p1"))),
        ("p1", cfg_res("heartbeat/ZFS", &[("pool", "p1")], None)),
    ]))
    .unwrap();
    assert_eq!(forward.snapshot(), backward.snapshot());
    assert_eq!(kinds(&forward.resources()), kinds(&backward.resources()));
}

#[test]
fn unresolved_requires_is_an_error() {
    let r = build(one_host_config(vec![
        ("p1", cfg_res("heartbeat/ZFS", &[("pool", "p1")], None)),
        ("ost1", cfg_res("lustre/Lustre", &[("target", "t")], Some("no_such_pool"))),
    ]));
    assert!(matches!(r, Err(ConfigError::UnresolvedRequires)));
}

#[test]
fn duplicate_identifiers_are_an_error() {
    let r = build(one_host_config(vec![
        ("p1", cfg_res("heartbeat/ZFS", &[("pool", "p1")], None)),
        ("p1", cfg_res("heartbeat/ZFS", &[("pool", "p2")], None)),
    ]));
    assert!(matches!(r, Err(ConfigError::DuplicateResourceId)));
}

#[test]
fn non_pool_roots_are_an_error() {
    let r = build(one_host_config(vec![(
        "t1",
        cfg_res("lustre/Lustre", &[("target", "t1")], None),
    )]));
    assert!(matches!(r, Err(ConfigError::RootNotAPool)));
}

#[test]
fn dependency_cycles_are_an_error() {
    let r = build(one_host_config(vec![
        ("p1", cfg_res("heartbeat/ZFS", &[("pool", "p1")], None)),
        ("a", cfg_res("lustre/Lustre", &[("target", "a")], Some("b"))),
        ("b", cfg_res("lustre/Lustre", &[("target", "b")], Some("a"))),
    ]));
    assert!(r.is_err());
}

#[test]
fn bad_host_address_is_an_error() {
    let mut cfg = one_host_config(vec![(
        "p1",
        cfg_res("heartbeat/ZFS", &[("pool", "p1")], None),
    )]);
    cfg.hosts[0].hostname = "h1:notaport".to_string();
    assert!(matches!(build(cfg), Err(ConfigError::BadHostAddress)));
}

#[test]
fn failover_partners_resolve_symmetrically() {
    let pairs = vec![vec!["h1".to_string(), "h2".to_string()]];
    assert_eq!(get_failover_partner(&pairs, "h1"), Some("h2".to_string()));
    assert_eq!(get_failover_partner(&pairs, "h2"), Some("h1".to_string()));
    assert_eq!(get_failover_partner(&pairs, "h3"), None);

    let config = config::Config {
        hosts: vec![
            config::Host {
                hostname: "h1".to_string(),
                resources: vec![(
                    "p1".to_string(),
                    cfg_res("heartbeat/ZFS", &[("pool", "p1")], None),
                )],
                fence_agent: None,
                fence_parameters: None,
            },
            config::Host {
                hostname: "h2".to_string(),
                resources: vec![(
                    "p2".to_string(),
                    cfg_res("heartbeat/ZFS", &[("pool", "p2")], None),
                )],
                fence_agent: None,
                fence_parameters: None,
            },
        ],
        failover_pairs: Some(vec![vec!["h1".to_string(), "h2".to_string()]]),
    };
    let cluster = build(config).unwrap();
    let all = cluster.resources();
    assert_eq!(all[0].home_node, 0);
    assert_eq!(all[0].failover_node, Some(1));
    assert_eq!(all[1].home_node, 1);
    assert_eq!(all[1].failover_node, Some(0));
}

#[test]
fn missing_failover_partner_is_an_error() {
    let mut cfg = one_host_config(vec![(
        "p1",
        cfg_res("heartbeat/ZFS", &[("pool", "p1")], None),
    )]);
    cfg.failover_pairs = Some(vec![vec!["other1".to_string(), "other2".to_string()]]);
    assert!(matches!(build(cfg), Err(ConfigError::MissingFailoverPartner)));
    let mut cfg = one_host_config(vec![(
        "p1",
        cfg_res("heartbeat/ZFS", &[("pool", "p1")], None),
    )]);
    cfg.failover_pairs = Some(vec![vec!["h1".to_string()]]);
    assert!(matches!(build(cfg), Err(ConfigError::InvalidFailoverPair)));
    let mut cfg = one_host_config(vec![(
        "p1",
        cfg_res("heartbeat/ZFS", &[("pool", "p1")], None),
    )]);
    cfg.failover_pairs = Some(vec![vec!["h1".to_string(), "nowhere".to_string()]]);
    assert!(matches!(build(cfg), Err(ConfigError::UnknownFailoverHost)));
}

#[test]
fn hosts_are_keyed_by_identity() {
    let mut cfg = one_host_config(vec![(
        "p1",
        cfg_res("heartbeat/ZFS", &[("pool", "p1")], None),
    )]);
    cfg.hosts[0].hostname = "127.0.0.1:8004".to_string();
    cfg.hosts[0].fence_agent = Some("fence_test".to_string());
    cfg.hosts[0].fence_parameters = Some(vec![
        ("test_id".to_string(), "fencing".to_string()),
        ("target".to_string(), "fence_mds00".to_string()),
    ]);
    let cluster = build(cfg).unwrap();
    // In the test harness the unique identity is the fencing target,
    // not the shared hostname.
    assert!(cluster.get_host("fence_mds00").is_some());
    assert!(cluster.get_host("127.0.0.1").is_none());
    assert_eq!(cluster.hosts()[0].port(), 8004);
}

#[test]
fn kind_filters() {
    let cluster = build(one_host_config(vec![
        ("p1", cfg_res("heartbeat/ZFS", &[("pool", "p1")], None)),
        (
            "mgs",
            cfg_res("lustre/Lustre", &[("target", "p1/mgs"), ("kind", "mgs")], Some("p1")),
        ),
        (
            "ost1",
            cfg_res("lustre/Lustre", &[("target", "p1/ost1"), ("kind", "ost")], Some("p1")),
        ),
    ]))
    .unwrap();
    assert_eq!(cluster.zpool_resources().len(), 1);
    assert_eq!(cluster.lustre_resources().len(), 2);
    let no_mgs = cluster.lustre_resources_no_mgs();
    assert_eq!(no_mgs.len(), 1);
    assert_eq!(no_mgs[0].parameters[0].1, "p1/ost1");
    let mgs = cluster.get_mgs().unwrap();
    assert_eq!(mgs.parameters[0].1, "p1/mgs");
}

#[test]
fn snapshot_covers_every_resource_in_order() {
    let cluster = build(one_host_config(vec![
        ("p1", cfg_res("heartbeat/ZFS", &[("pool", "p1")], None)),
        ("ost1", cfg_res("lustre/Lustre", &[("target", "p1/ost1")], Some("p1"))),
        ("ost2", cfg_res("lustre/Lustre", &[("target", "p1/ost2")], Some("p1"))),
    ]))
    .unwrap();
    let snap = cluster.snapshot();
    assert_eq!(snap.len(), 3);
    assert_eq!(snap[0].1, vec![("pool".to_string(), "p1".to_string())]);
    assert_eq!(snap[1].1, vec![("target".to_string(), "p1/ost1".to_string())]);
    assert_eq!(snap[2].1, vec![("target".to_string(), "p1/ost2".to_string())]);
    for entry in &snap {
        assert_eq!(entry.0, ResourceStatus::Unknown);
    }
}

#[test]
fn validate_reports_assembly_outcome() {
    let good = one_host_config(vec![(
        "p1",
        cfg_res("heartbeat/ZFS", &[("pool", "p1")], None),
    )]);
    assert!(validate(good, 8000).is_ok());
    let bad = one_host_config(vec![(
        "t1",
        cfg_res("lustre/Lustre", &[("target", "t")], Some("gone")),
    )]);
    assert!(validate(bad, 8000).is_err());
}

#[test]
fn tick_applies_the_power_verdict_to_the_home_host() {
    let mut cluster = build(one_host_config(vec![(
        "p1",
        cfg_res("heartbeat/ZFS", &[("pool", "p1")], None),
    )]))
    .unwrap();

    // A clean monitor pass reports the home host as up.
    let clean = OutcomeTree { outcome: Ok(ocf::Status::Success), dependents: vec![] };
    let report = cluster.manage_tick_group(0, &clean);
    assert_eq!(report.monitor_error, Some(false));
    assert_eq!(cluster.hosts()[0].get_status(), HostStatus::Up);
    assert_eq!(
        cluster.resource_groups[0].get_overall_status(),
        ResourceStatus::RunningOnHome
    );

    // A transport failure makes the host's power status unknown again.
    let broken = OutcomeTree {
        outcome: Err(RpcError { message: "connection refused".to_string() }),
        dependents: vec![],
    };
    let report = cluster.manage_tick_group(0, &broken);
    assert_eq!(report.monitor_error, Some(true));
    assert_eq!(cluster.hosts()[0].get_status(), HostStatus::Unknown);
}

#[test]
fn unbuildable_fencing_is_an_error() {
    // An unknown agent name.
    let mut cfg = one_host_config(vec![(
        "p1",
        cfg_res("heartbeat/ZFS", &[("pool", "p1")], None),
    )]);
    cfg.hosts[0].fence_agent = Some("ipmilan".to_string());
    assert!(matches!(build(cfg), Err(ConfigError::Fence(_))));
    // A known agent missing its parameters.
    let mut cfg = one_host_config(vec![(
        "p1",
        cfg_res("heartbeat/ZFS", &[("pool", "p1")], None),
    )]);
    cfg.hosts[0].fence_agent = Some("redfish".to_string());
    assert!(matches!(build(cfg), Err(ConfigError::Fence(_))));
    // An empty port is as bad as a malformed one.
    let mut cfg = one_host_config(vec![(
        "p1",
        cfg_res("heartbeat/ZFS", &[("pool", "p1")], None),
    )]);
    cfg.hosts[0].hostname = "h1:".to_string();
    assert!(matches!(build(cfg), Err(ConfigError::BadHostAddress)));
}

#[test]
fn target_addresses_resolve_per_location() {
    let config = config::Config {
        hosts: vec![
            config::Host {
                hostname: "h1:8001".to_string(),
                resources: vec![(
                    "p1".to_string(),
                    cfg_res("heartbeat/ZFS", &[("pool", "p1")], None),
                )],
                fence_agent: None,
                fence_parameters: None,
            },
            config::Host {
                hostname: "h2:8002".to_string(),
                resources: vec![(
                    "p2".to_string(),
                    cfg_res("heartbeat/ZFS", &[("pool", "p2")], None),
                )],
                fence_agent: None,
                fence_parameters: None,
            },
        ],
        failover_pairs: Some(vec![vec!["h1:8001".to_string(), "h2:8002".to_string()]]),
    };
    let cluster = build(config).unwrap();
    let all = cluster.resources();
    assert_eq!(cluster.target_address(&all[0], Location::Home).unwrap(), "h1:8001");
    assert_eq!(cluster.target_address(&all[0], Location::Away).unwrap(), "h2:8002");
    assert_eq!(cluster.target_address(&all[1], Location::Away).unwrap(), "h1:8001");
    // A resource without a failover host has no away address.
    let lone = build(one_host_config(vec![(
        "p1",
        cfg_res("heartbeat/ZFS", &[("pool", "p1")], None),
    )]))
    .unwrap();
    let lone_all = lone.resources();
    assert!(lone.target_address(&lone_all[0], Location::Away).is_err());
}

#[test]
fn unmanage_is_not_offered() {
    let r = unmanage(&UnmanageArgs { resource: "p1".to_string() });
    assert!(r.is_err());
}
