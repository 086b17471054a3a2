//! Finding devices, containers and groups.

use agpeek::discover::{
    app_group_args, app_groups, bullet_list, condense, container_id, container_root, containers,
    device_list_args, friendly_runtime, parse_devices, parse_groups, read_container_id,
    resolve_container, select_device, simctl, Container, ContainerKind, Device, DeviceList,
    DiscoverError, Found, Ran, RawDevice, METADATA_PLIST,
};
use agpeek::decode::property_list::Tree;

fn raw(udid: &str, name: &str, state: &str, is_available: bool, data_path: Option<&str>) -> RawDevice {
    RawDevice {
        udid: udid.to_string(),
        name: name.to_string(),
        state: state.to_string(),
        is_available,
        data_path: data_path.map(str::to_string),
    }
}

/// Trimmed from real `simctl list devices -j` output.
fn device_list() -> DeviceList {
    DeviceList {
        devices: vec![(
            "com.apple.CoreSimulator.SimRuntime.iOS-26-5".to_string(),
            vec![
                raw(
                    "B943F0CB-ED32-487F-9D2D-F1977C064AE7",
                    "iPhone 17",
                    "Booted",
                    true,
                    Some("/tmp/devices/booted/data"),
                ),
                raw(
                    "11C81E92-46FB-436D-AEC4-357C075E6DCB",
                    "iPhone 17 Pro",
                    "Shutdown",
                    true,
                    Some("/tmp/devices/shutdown/data"),
                ),
                raw(
                    "00000000-0000-0000-0000-000000000000",
                    "Unavailable Phone",
                    "Shutdown",
                    false,
                    Some("/tmp/devices/unavailable/data"),
                ),
            ],
        )],
    }
}

fn devices() -> Vec<Device> {
    parse_devices(&device_list())
}

fn metadata(id: &str) -> Vec<u8> {
    format!(
        "<?xml version=\"1.0\"?><plist version=\"1.0\"><dict>\
         <key>MCMMetadataContentClass</key><integer>7</integer>\
         <key>MCMMetadataIdentifier</key><string>{id}</string></dict></plist>"
    )
    .into_bytes()
}

fn found(path: &str, id: &str) -> Found {
    Found {
        path: path.to_string(),
        is_dir: true,
        metadata: Some(metadata(id)),
    }
}

fn container(id: &str, kind: ContainerKind, uuid: &str) -> Container {
    Container {
        id: id.to_string(),
        kind,
        uuid: uuid.to_string(),
        path: format!("/containers/{uuid}"),
    }
}

#[test]
fn friendly_runtime_formats_ios_versions() {
    assert_eq!(
        friendly_runtime("com.apple.CoreSimulator.SimRuntime.iOS-26-5"),
        "iOS 26.5"
    );
    assert_eq!(
        friendly_runtime("com.apple.CoreSimulator.SimRuntime.watchOS-11-0"),
        "watchOS 11.0"
    );
}

#[test]
fn friendly_runtime_passes_through_unknown_identifiers() {
    assert_eq!(friendly_runtime("something-else"), "something-else");
}

#[test]
fn friendly_runtime_without_a_version_is_the_platform() {
    assert_eq!(
        friendly_runtime("com.apple.CoreSimulator.SimRuntime.xrOS"),
        "xrOS"
    );
    assert_eq!(
        friendly_runtime("com.apple.CoreSimulator.SimRuntime.iOS-26-5-1"),
        "iOS 26.5.1"
    );
    assert_eq!(friendly_runtime("com.apple.CoreSimulator.SimRuntime."), "");
    assert_eq!(friendly_runtime("com.apple"), "com.apple");
}

#[test]
fn parse_devices_skips_unavailable_and_sorts_booted_first() {
    let devices = devices();
    assert_eq!(devices.len(), 2, "the unavailable device is filtered out");
    assert_eq!(devices[0].name, "iPhone 17");
    assert!(devices[0].is_booted());
    assert_eq!(devices[0].runtime, "iOS 26.5");
}

#[test]
fn parse_devices_orders_by_state_name_and_udid() {
    let list = DeviceList {
        devices: vec![
            (
                "a".to_string(),
                vec![
                    raw("3", "B", "Shutdown", true, Some("/3")),
                    raw("2", "A", "Shutdown", true, Some("/2")),
                    raw("9", "Z", "booted", true, Some("/9")),
                    raw("8", "N", "Booted", true, None),
                ],
            ),
            (
                "b".to_string(),
                vec![raw("1", "A", "Creating", true, Some("/1"))],
            ),
        ],
    };
    let rows: Vec<(String, String)> = parse_devices(&list)
        .into_iter()
        .map(|device| (device.udid, device.runtime))
        .collect();
    assert_eq!(
        rows,
        vec![
            ("9".to_string(), "a".to_string()),
            ("1".to_string(), "b".to_string()),
            ("2".to_string(), "a".to_string()),
            ("3".to_string(), "a".to_string()),
        ]
    );
}

#[test]
fn select_device_defaults_to_the_only_booted_device() {
    let device = select_device(devices(), None).expect("one booted device");
    assert_eq!(device.name, "iPhone 17");
}

#[test]
fn select_device_errors_when_nothing_is_booted() {
    let shutdown: Vec<Device> = devices()
        .into_iter()
        .map(|mut device| {
            device.state = "Shutdown".into();
            device
        })
        .collect();

    let err = select_device(shutdown, None).unwrap_err().message();
    assert!(err.contains("no booted simulator"), "got: {err}");
    assert!(err.contains("iPhone 17 Pro"), "lists candidates: {err}");
}

#[test]
fn select_device_errors_when_several_are_booted() {
    let booted: Vec<Device> = devices()
        .into_iter()
        .map(|mut device| {
            device.state = "Booted".into();
            device
        })
        .collect();

    let err = select_device(booted, None).unwrap_err().message();
    assert!(err.contains("2 simulators are booted"), "got: {err}");
}

#[test]
fn select_device_matches_udid_case_insensitively() {
    let device = select_device(devices(), Some("b943f0cb-ed32-487f-9d2d-f1977c064ae7"))
        .expect("matches by udid");
    assert_eq!(device.name, "iPhone 17");
}

#[test]
fn select_device_matches_by_name() {
    let device = select_device(devices(), Some("iPhone 17 Pro")).expect("matches by name");
    assert!(!device.is_booted());
}

#[test]
fn select_device_reports_unknown_names() {
    let err = select_device(devices(), Some("iPad"))
        .unwrap_err()
        .message();
    assert!(err.contains("no simulator matches `iPad`"), "got: {err}");
}

#[test]
fn select_device_reports_ambiguous_names() {
    let mut duplicated = devices();
    duplicated[1].name = "iPhone 17".into();

    let err = select_device(duplicated, Some("iPhone 17"))
        .unwrap_err()
        .message();
    assert!(err.contains("matches 2 simulators"), "got: {err}");
}

#[test]
fn select_device_errors_read_exactly_as_written() {
    let list = "  iPhone 17 (iOS 26.5, B943F0CB-ED32-487F-9D2D-F1977C064AE7)\n  \
                iPhone 17 Pro (iOS 26.5, 11C81E92-46FB-436D-AEC4-357C075E6DCB)";
    assert_eq!(bullet_list(&devices()), list);
    assert_eq!(bullet_list(&vec![]), "  (none)");
    assert_eq!(
        select_device(devices(), Some("x")).unwrap_err().message(),
        format!("no simulator matches `x`\n\navailable:\n{list}")
    );
    assert_eq!(
        select_device(vec![], None).unwrap_err().message(),
        "no booted simulator — boot one, or pass --device\n\navailable:\n  (none)"
    );
    let mut twice = devices();
    twice[1].state = "BOOTED".into();
    assert_eq!(
        select_device(twice, None).unwrap_err().message(),
        format!("2 simulators are booted — pass --device to choose:\n{list}")
    );
    let mut named = devices();
    named[0].name = "Same".into();
    named[1].name = "same".into();
    assert_eq!(
        select_device(named, Some("SAME")).unwrap_err().message(),
        "`SAME` matches 2 simulators — pass a UDID instead:\n  \
         Same (iOS 26.5, B943F0CB-ED32-487F-9D2D-F1977C064AE7)\n  \
         same (iOS 26.5, 11C81E92-46FB-436D-AEC4-357C075E6DCB)"
    );
}

#[test]
fn condense_flattens_simctls_multi_line_stderr() {
    let stderr = "An error was encountered processing the command (domain=NSPOSIXErrorDomain, code=2):\n\
                  The operation couldn't be completed. No such file or directory\n\
                  No such file or directory\n";
    let condensed = condense(stderr);
    assert!(!condensed.contains('\n'), "got: {condensed}");
    assert!(condensed.starts_with("An error was encountered"));
}

#[test]
fn condense_of_blank_output_is_empty() {
    assert_eq!(condense("  \n\n "), "");
}

#[test]
fn condense_splits_at_every_kind_of_white_space() {
    let text = " a\tb\u{a0}c\u{2003}d\r\n e\u{3000}";
    assert_eq!(condense(text), "a b c d e");
    assert_eq!(
        condense(text),
        text.split_whitespace().collect::<Vec<_>>().join(" ")
    );
}

#[test]
fn parse_groups_splits_on_the_first_tab() {
    let groups = parse_groups(
        "group.com.apple.weather\t/tmp/App Group/one\n\
         systemgroup.com.apple.accessorysetupkit\t/tmp/two\n",
    )
    .expect("parses");

    assert_eq!(groups.len(), 2);
    assert_eq!(groups[0].id, "group.com.apple.weather");
    assert_eq!(groups[0].path, "/tmp/App Group/one");
    assert_eq!(groups[1].id, "systemgroup.com.apple.accessorysetupkit");
}

#[test]
fn parse_groups_accepts_identifiers_without_the_group_prefix() {
    let groups = parse_groups("com.apple.CoreODI\t/tmp/odi").expect("parses");
    assert_eq!(groups[0].id, "com.apple.CoreODI");
}

#[test]
fn parse_groups_ignores_blank_lines() {
    let groups = parse_groups("\n\ngroup.a\t/tmp/a\n\n").expect("parses");
    assert_eq!(groups.len(), 1);
}

#[test]
fn parse_groups_rejects_lines_without_a_tab() {
    assert!(parse_groups("group.a /tmp/a").is_err());
}

#[test]
fn parse_groups_returns_empty_for_empty_output() {
    assert!(parse_groups("").expect("parses").is_empty());
}

#[test]
fn parse_groups_trims_and_keeps_later_tabs() {
    let groups = parse_groups(" a \t /x\ty \r\n\t\nb\t/z").expect("parses");
    let rows: Vec<(&str, &str)> = groups
        .iter()
        .map(|group| (group.id.as_str(), group.path.as_str()))
        .collect();
    assert_eq!(rows, vec![("a", "/x\ty"), ("b", "/z")]);
}

#[test]
fn parse_groups_names_the_first_bad_line() {
    let err = parse_groups("a\t/a\nbad \"line\"  \nworse\n").unwrap_err();
    match &err {
        DiscoverError::UnexpectedLine { line } => assert_eq!(line, "bad \"line\""),
        other => panic!("expected a line, got {other:?}"),
    }
    assert_eq!(
        err.message(),
        "unexpected line from simctl: \"bad \\\"line\\\"\""
    );
}

#[test]
fn app_groups_tells_the_two_failures_apart() {
    let device = &devices()[0];
    let failed = Err(DiscoverError::Failed {
        command: "c".to_string(),
        detail: "d".to_string(),
    });
    let err = app_groups(device, "app.x", failed).unwrap_err();
    assert_eq!(
        err.message(),
        "could not read App Groups for `app.x` on iPhone 17 \
         (B943F0CB-ED32-487F-9D2D-F1977C064AE7) — is the app installed?"
    );
    match err {
        DiscoverError::GroupsUnreadable { cause, .. } => {
            assert_eq!(cause.message(), "`c` failed: d")
        }
        other => panic!("expected a cause, got {other:?}"),
    }

    let err = app_groups(device, "app.x", Ok("\n".to_string())).unwrap_err();
    assert_eq!(
        err.message(),
        "`app.x` is installed on iPhone 17 but declares no App Groups"
    );

    let groups = app_groups(device, "app.x", Ok("g\t/p\n".to_string())).expect("groups");
    assert_eq!(groups.len(), 1);
    assert!(app_groups(device, "app.x", Ok("no tab".to_string())).is_err());
}

#[test]
fn simctl_hands_on_output_and_explains_failures() {
    let args = device_list_args();
    assert_eq!(args, vec!["list", "devices", "-j"]);
    assert_eq!(
        app_group_args(&devices()[1], "app.x"),
        vec![
            "get_app_container",
            "11C81E92-46FB-436D-AEC4-357C075E6DCB",
            "app.x",
            "groups"
        ]
    );
    let finished = |success, stderr: &str| Ran::Finished {
        success,
        status: "exit status: 2".to_string(),
        stdout: "out".to_string(),
        stderr: stderr.to_string(),
    };
    assert_eq!(simctl(&args, finished(true, "noise")).expect("output"), "out");
    assert_eq!(
        simctl(&args, finished(false, " \n")).unwrap_err().message(),
        "`xcrun simctl list devices -j` failed with exit status: 2"
    );
    assert_eq!(
        simctl(&args, finished(false, "went\nwrong\n"))
            .unwrap_err()
            .message(),
        "`xcrun simctl list devices -j` failed: went wrong"
    );
    assert_eq!(
        simctl(&args, Ran::NotStarted).unwrap_err().message(),
        "failed to run `xcrun simctl list devices -j`"
    );
}

#[test]
fn container_roots_lie_under_the_data_volume() {
    let device = &devices()[0];
    assert_eq!(
        container_root(device, ContainerKind::App),
        "/tmp/devices/booted/data/Containers/Shared/AppGroup"
    );
    assert_eq!(
        container_root(device, ContainerKind::System),
        "/tmp/devices/booted/data/Containers/Shared/SystemGroup"
    );
    assert_eq!(
        METADATA_PLIST,
        ".com.apple.mobile_container_manager.metadata.plist"
    );
}

#[test]
fn containers_are_listed_by_kind_then_uuid() {
    let app = vec![found("/r/B", "group.b"), found("/r/A", "group.a")];
    let system = vec![found("/s/0", "systemgroup.s")];
    let rows: Vec<(String, ContainerKind, String, String)> = containers(&app, &system)
        .into_iter()
        .map(|found| (found.id, found.kind, found.uuid, found.path))
        .collect();
    let row = |id: &str, kind, uuid: &str, path: &str| {
        (id.to_string(), kind, uuid.to_string(), path.to_string())
    };
    assert_eq!(
        rows,
        vec![
            row("group.a", ContainerKind::App, "A", "/r/A"),
            row("group.b", ContainerKind::App, "B", "/r/B"),
            row("systemgroup.s", ContainerKind::System, "0", "/s/0"),
        ]
    );
}

#[test]
fn a_malformed_neighbour_does_not_hide_the_others() {
    let broken = Found {
        path: "/r/1".to_string(),
        is_dir: true,
        metadata: Some(b"bplist00 broken".to_vec()),
    };
    let unread = Found {
        path: "/r/2".to_string(),
        is_dir: true,
        metadata: None,
    };
    let file = Found {
        path: "/r/3".to_string(),
        is_dir: false,
        metadata: Some(metadata("group.file")),
    };
    let listed = containers(&vec![broken, unread, file, found("/r/4", "group.ok")], &vec![]);
    assert_eq!(listed.len(), 1);
    assert_eq!(listed[0].id, "group.ok");
}

#[test]
fn the_identifier_is_read_from_binary_metadata_too() {
    let mut entries = plist::Dictionary::new();
    entries.insert(
        "MCMMetadataIdentifier".to_string(),
        plist::Value::String("group.app.natively.shared".to_string()),
    );
    let mut bytes = Vec::new();
    plist::to_writer_binary(&mut bytes, &plist::Value::Dictionary(entries)).expect("encodes");
    assert_eq!(
        read_container_id(&bytes),
        Some("group.app.natively.shared".to_string())
    );
    assert_eq!(read_container_id(b"not a plist"), None);
    assert_eq!(read_container_id(&metadata("x")), Some("x".to_string()));
}

#[test]
fn container_id_wants_a_string_under_the_key() {
    let entry = |key: &str, value| (key.to_string(), value);
    assert_eq!(
        container_id(&Tree::Dict(vec![
            entry("other", Tree::Bool(true)),
            entry("MCMMetadataIdentifier", Tree::String("g".to_string())),
        ])),
        Some("g".to_string())
    );
    assert_eq!(
        container_id(&Tree::Dict(vec![entry("MCMMetadataIdentifier", Tree::Uid(1))])),
        None
    );
    assert_eq!(container_id(&Tree::Dict(vec![])), None);
    assert_eq!(container_id(&Tree::Array(vec![])), None);
}

#[test]
fn resolve_container_goes_by_uuid_first_then_by_group() {
    let available = vec![
        container("group.a", ContainerKind::App, "AAAA"),
        container("BBBB", ContainerKind::App, "CCCC"),
        container("group.b", ContainerKind::System, "bbbb"),
    ];
    let device = &devices()[0];
    let uuid = |query: &str| {
        resolve_container(&available, device, query)
            .expect("resolves")
            .uuid
    };
    assert_eq!(uuid("aaaa"), "AAAA");
    assert_eq!(uuid("group.a"), "AAAA");
    assert_eq!(uuid("BBBB"), "bbbb", "the UUID wins over the identifier");
}

#[test]
fn resolve_container_explains_what_it_cannot_find() {
    let available = vec![
        container("systemgroup.s", ContainerKind::App, "U1"),
        container("systemgroup.s", ContainerKind::System, "U2"),
    ];
    let device = &devices()[0];
    assert_eq!(
        resolve_container(&available, device, "systemgroup.s")
            .unwrap_err()
            .message(),
        "`systemgroup.s` matches 2 containers — pass the UUID instead:\n  U1 (app)\n  U2 (system)"
    );
    assert_eq!(
        resolve_container(&available, device, "SYSTEMGROUP.S")
            .unwrap_err()
            .message(),
        "no container for `SYSTEMGROUP.S` on iPhone 17\n\n\
         run `agpeek groups <bundle-id>` to see what an app declares"
    );
}
