//! Parsers and formatters: discovery output, addresses, numbers,
//! networks, and fencing argument blobs.

use halo_lib::commands::discover::{parse_lustre_output, parse_zpool_output};
use halo_lib::config::Resource;
use halo_lib::host::{
    interpret_power_output, FenceAgent, FenceCommand, Host, RedfishArgs, TestFenceArgs,
};
use halo_lib::remote::{address_in_network, ocf, parse_ipv4_cidr};
use halo_lib::resource::ResourceStatus;
use halo_lib::strutil::{parse_u16, str_contains, u64_to_string};
use halo_lib::test_env::agent_expected_line;

#[test]
fn parse_zpools() {
    let output = String::from("zpool_1\nzpool_2");
    let resources = parse_zpool_output(output);
    assert_eq!(resources.len(), 2);

    let goal = vec![
        (
            "zpool_1".to_string(),
            Resource::new_zpool("zpool_1".to_string()),
        ),
        (
            "zpool_2".to_string(),
            Resource::new_zpool("zpool_2".to_string()),
        ),
    ];

    assert_eq!(resources, goal);
}

#[test]
fn parse_lustre() {
    let output = "oss01e0/ost2 on /mnt/ost2 type lustre (ro,svname=test-OST0002,mgsnode=10.0.0.1@tcp:10.0.0.2@tcp,osd=osd-zfs)\noss01e1/ost3 on /mnt/ost3 type lustre (ro,svname=test-OST0003,mgsnode=10.0.0.1@tcp:10.0.0.2@tcp,osd=osd-zfs)";

    let resources = parse_lustre_output(output.to_string()).unwrap();
    assert_eq!(resources.len(), 2);

    let goal_1 = Resource {
        kind: "lustre/Lustre".to_string(),
        parameters: vec![
            ("mountpoint".to_string(), "/mnt/ost2".to_string()),
            ("target".to_string(), "oss01e0/ost2".to_string()),
            ("kind".to_string(), "ost".to_string()),
        ],
        requires: Some("oss01e0".to_string()),
    };
    let goal_2 = Resource {
        kind: "lustre/Lustre".to_string(),
        parameters: vec![
            ("mountpoint".to_string(), "/mnt/ost3".to_string()),
            ("target".to_string(), "oss01e1/ost3".to_string()),
            ("kind".to_string(), "ost".to_string()),
        ],
        requires: Some("oss01e1".to_string()),
    };
    let goal = vec![
        ("oss01e0/ost2".to_string(), goal_1),
        ("oss01e1/ost3".to_string(), goal_2),
    ];

    assert_eq!(resources, goal);
}

#[test]
fn lustre_kinds_from_service_names() {
    let mdt = Resource::new_lustre(
        "p0/mdt0 on /mnt/mdt0 type lustre (ro,svname=fs-MDT0000,osd=osd-zfs)",
    )
    .unwrap();
    assert_eq!(mdt.parameters[2], ("kind".to_string(), "mdt".to_string()));
    let mgs = Resource::new_lustre(
        "p0/mgs on /mnt/mgs type lustre (ro,svname=MGS,osd=osd-zfs)",
    )
    .unwrap();
    assert_eq!(mgs.parameters[2], ("kind".to_string(), "mgs".to_string()));
}

#[test]
fn malformed_mount_lines_are_errors() {
    assert!(Resource::new_lustre("").is_err());
    assert!(Resource::new_lustre("p0/ost0 on /mnt/ost0").is_err());
    // All tokens present, but no service name to take the kind from.
    assert!(Resource::new_lustre("p0/ost0 on /mnt/ost0 type lustre (ro,osd=osd-zfs)").is_err());
    let bad = parse_lustre_output("p0/ost0 on /mnt/ost0\n".to_string());
    assert!(bad.is_err());
}

#[test]
fn host_addresses_split_into_name_and_port() {
    assert_eq!(
        Host::get_host_port("mds01:8001").unwrap(),
        ("mds01".to_string(), Some(8001))
    );
    assert_eq!(Host::get_host_port("mds01").unwrap(), ("mds01".to_string(), None));
    assert!(Host::get_host_port("mds01:notaport").is_err());
    assert!(Host::get_host_port("mds01:99999").is_err());
}

#[test]
fn host_address_and_id() {
    let plain = Host::new("mds01", None, 8000, None);
    assert_eq!(plain.address(), "mds01:8000");
    assert_eq!(plain.id(), "mds01");
    let test_agent = FenceAgent::Test(TestFenceArgs {
        test_id: "t1".to_string(),
        target: "fence_mds00".to_string(),
    });
    let harness = Host::new("127.0.0.1", Some(8004), 8000, Some(test_agent));
    assert_eq!(harness.address(), "127.0.0.1:8004");
    assert_eq!(harness.id(), "fence_mds00");
}

#[test]
fn decimal_round_trip() {
    assert_eq!(u64_to_string(0), "0");
    assert_eq!(u64_to_string(8000), "8000");
    assert_eq!(u64_to_string(65535), "65535");
    assert_eq!(parse_u16("8000"), Some(8000));
    assert_eq!(parse_u16("0"), Some(0));
    assert_eq!(parse_u16(""), None);
    assert_eq!(parse_u16("12a"), None);
    assert_eq!(parse_u16("70000"), None);
}

#[test]
fn networks_parse_and_contain() {
    let (base, plen) = parse_ipv4_cidr("127.0.0.0/24").unwrap();
    assert_eq!(base, 0x7f000000);
    assert_eq!(plen, 24);
    assert!(address_in_network(0x7f000001, base, plen));
    assert!(!address_in_network(0x7f000101, base, plen));
    assert!(parse_ipv4_cidr("127.0.0.0").is_none());
    assert!(parse_ipv4_cidr("127.0.0/24").is_none());
    assert!(parse_ipv4_cidr("127.0.0.256/24").is_none());
    assert!(parse_ipv4_cidr("127.0.0.0/33").is_none());
}

#[test]
fn power_output_is_read_literally() {
    assert_eq!(interpret_power_output("plug 7 is ON").unwrap(), true);
    assert_eq!(interpret_power_output("plug 7 is OFF").unwrap(), false);
    assert!(interpret_power_output("no such plug").is_err());
    assert!(str_contains("plug 7 is ON", "is ON"));
}

#[test]
fn fence_command_blobs() {
    let powerman = FenceAgent::Powerman;
    assert_eq!(
        powerman.generate_command_bytes("mds01", FenceCommand::Off),
        b"ipaddr=localhost\naction=off\nplug=mds01\n".to_vec()
    );
    let redfish = FenceAgent::Redfish(RedfishArgs::new("u".to_string(), "SECRET-REDACTED".to_string()));
    assert_eq!(
        redfish.generate_command_bytes("mds01", FenceCommand::On),
        b"ipaddr=mds01\naction=on\nusername=u\npassword=SECRET-REDACTED\nssl-insecure=true".to_vec()
    );
    let test = FenceAgent::Test(TestFenceArgs {
        test_id: "fencing".to_string(),
        target: "fence_mds00".to_string(),
    });
    assert_eq!(
        test.generate_command_bytes("127.0.0.1", FenceCommand::Status),
        b"action=status\ntest_id=fencing\ntarget=fence_mds00".to_vec()
    );
}

#[test]
fn fence_agents_from_parameters() {
    assert!(matches!(
        FenceAgent::from_params("powerman", &None),
        Ok(FenceAgent::Powerman)
    ));
    let params = vec![
        ("username".to_string(), "u".to_string()),
        ("password".to_string(), "SECRET-REDACTED".to_string()),
    ];
    match FenceAgent::from_params("redfish", &Some(params)) {
        Ok(FenceAgent::Redfish(args)) => {
            assert_eq!(args.username, "u");
        }
        other => panic!("unexpected: {:?}", other),
    }
    assert!(FenceAgent::from_params("redfish", &None).is_err());
    assert!(FenceAgent::from_params("redfish", &Some(vec![])).is_err());
    assert!(FenceAgent::from_params("ipmilan", &Some(vec![])).is_err());
}

#[test]
fn reskey_arguments_are_prefixed() {
    let args = ocf::Arguments::from_pairs(&vec![
        ("pool".to_string(), "p1".to_string()),
        ("mountpoint".to_string(), "/mnt/t".to_string()),
    ]);
    assert_eq!(args.args[0], ("OCF_RESKEY_pool".to_string(), "p1".to_string()));
    assert_eq!(
        args.args[1],
        ("OCF_RESKEY_mountpoint".to_string(), "/mnt/t".to_string())
    );
}

#[test]
fn script_paths_and_labels() {
    assert_eq!(
        ocf::script_path("/usr/lib/ocf", "heartbeat/ZFS"),
        "/usr/lib/ocf/resource.d/heartbeat/ZFS"
    );
    assert_eq!(ocf::Operation::Monitor.label(), "monitor");
    assert_eq!(ocf::Operation::Start.label(), "start");
    assert_eq!(ocf::Operation::Stop.label(), "stop");
    assert_eq!(FenceCommand::On.label(), "on");
    assert_eq!(FenceCommand::Off.label(), "off");
    assert_eq!(FenceCommand::Status.label(), "status");
}

#[test]
fn agent_expected_lines() {
    let zfs = halo_lib::resource::Resource {
        kind: "heartbeat/ZFS".to_string(),
        parameters: vec![("pool".to_string(), "p1".to_string())],
        dependents: vec![],
        status: ResourceStatus::Unknown,
        home_node: 0,
        failover_node: None,
        verbose: false,
    };
    assert_eq!(agent_expected_line("start", &zfs), "zfs start pool=p1");
    let lustre = halo_lib::resource::Resource {
        kind: "lustre/Lustre".to_string(),
        parameters: vec![
            ("mountpoint".to_string(), "/mnt/t".to_string()),
            ("target".to_string(), "p1/t".to_string()),
        ],
        dependents: vec![],
        status: ResourceStatus::Unknown,
        home_node: 0,
        failover_node: None,
        verbose: false,
    };
    assert_eq!(
        agent_expected_line("monitor", &lustre),
        "lustre monitor mountpoint=/mnt/t target=p1/t"
    );
}
