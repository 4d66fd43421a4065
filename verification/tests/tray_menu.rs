use tailscale_tray::menu::{
    actions_for, build_control_items, get_menu_item_ids, message_for_event, rebuild_menu,
    AppMessage, MenuEntry, SubmenuEntry, TrayAction,
};
use tailscale_tray::tailscale::{ExitNode, ExitNodeData, MachineData, VPNNodeData};
use tailscale_tray::MachineData as ListedMachine;

fn m(name: &str, ip: &str, online: bool, exit: bool) -> MachineData {
    MachineData { ip: String::from(ip), hostname: String::from(name), online, is_exit_node: exit }
}

fn vpn(host: &str, country: &str, city: &str, active: bool) -> ExitNode {
    ExitNode::VPN(VPNNodeData {
        hostname: String::from(host),
        country: String::from(country),
        city: String::from(city),
        is_exit_node: active,
    })
}

fn own(host: &str, ip: &str) -> ExitNode {
    ExitNode::Machine(ExitNodeData { hostname: String::from(host), ip: String::from(ip) })
}

/// A readable outline of a menu.
fn outline(menu: &[MenuEntry]) -> Vec<String> {
    let mut out = Vec::new();
    for e in menu {
        match e {
            MenuEntry::Item(i) => out.push(format!("[{}] {}", i.id, i.text)),
            MenuEntry::Separator => out.push(String::from("---")),
            MenuEntry::Submenu { text, entries } => {
                out.push(format!("> {}", text));
                for s in entries {
                    match s {
                        SubmenuEntry::Item(i) => out.push(format!("  [{}] {}", i.id, i.text)),
                        SubmenuEntry::Submenu { text, items } => {
                            out.push(format!("  > {}", text));
                            for i in items {
                                out.push(format!("    [{}] {}", i.id, i.text));
                            }
                        },
                    }
                }
            },
        }
    }
    out
}

#[test]
fn control_items() {
    let (t, r, q) = build_control_items(true);
    assert_eq!((t.id.as_str(), t.text.as_str()), ("toggle", "Turn Tailscale Off"));
    assert_eq!((r.id.as_str(), r.text.as_str()), ("refresh", "Refresh"));
    assert_eq!((q.id.as_str(), q.text.as_str()), ("quit", "Quit"));
    let (t, _, _) = build_control_items(false);
    assert_eq!(t.text, "Turn Tailscale On");
    let ids = get_menu_item_ids();
    assert_eq!(ids, (String::from("toggle"), String::from("refresh"), String::from("quit")));
}

#[test]
fn menu_when_disabled() {
    let menu = rebuild_menu(false, &vec![m("a", "1", true, false)], &vec![own("x", "2")]);
    assert_eq!(outline(&menu), vec![
        "[toggle] Turn Tailscale On",
        "[refresh] Refresh",
        "---",
        "[quit] Quit",
    ]);
}

#[test]
fn menu_when_enabled_without_exit_nodes() {
    let machines = vec![m("laptop", "100.64.0.1", true, false), m("nas", "100.64.0.2", false, false)];
    let menu = rebuild_menu(true, &machines, &vec![]);
    assert_eq!(outline(&menu), vec![
        "[toggle] Turn Tailscale Off",
        "[refresh] Refresh",
        "---",
        "[copy-100.64.0.1] 🟢 laptop (100.64.0.1)",
        "[copy-100.64.0.2] ⚫ nas (100.64.0.2)",
        "---",
        "[quit] Quit",
    ]);
}

#[test]
fn menu_with_exit_nodes() {
    let machines = vec![m("home", "100.64.0.9", true, true), m("nas", "100.64.0.2", false, false)];
    let nodes = vec![
        vpn("se-sto", "Sweden", "Stockholm", false),
        own("home.ts.net", "100.64.0.9"),
        vpn("de-ber", "Germany", "Berlin", true),
        vpn("de-fra", "Germany", "Frankfurt", false),
        vpn("ch-zrh", "Switzerland", "Zurich", false),
        vpn("ch-gva", "Switzerland", "Geneva", false),
    ];
    let menu = rebuild_menu(true, &machines, &nodes);
    assert_eq!(outline(&menu), vec![
        "[toggle] Turn Tailscale Off",
        "[refresh] Refresh",
        "---",
        "[deselect_exit_node] Deselect Exit Node",
        "---",
        "[copy-100.64.0.9] 🔽 home (100.64.0.9)",
        "[copy-100.64.0.2] ⚫ nas (100.64.0.2)",
        "---",
        "> Exit Node",
        "  [set-exit-node-home.ts.net] home.ts.net",
        "> VPN Exit Nodes",
        "  > 🔽 Germany",
        "    [set-exit-node-de-ber] 🔽 Germany - Berlin",
        "    [set-exit-node-de-fra] Germany - Frankfurt",
        "  [set-exit-node-se-sto] Sweden - Stockholm",
        "  > Switzerland",
        "    [set-exit-node-ch-zrh] Switzerland - Zurich",
        "    [set-exit-node-ch-gva] Switzerland - Geneva",
        "---",
        "[quit] Quit",
    ]);
}

#[test]
fn deselect_shown_for_active_vpn_only() {
    let menu = rebuild_menu(true, &vec![], &vec![vpn("x", "A", "B", true)]);
    assert_eq!(outline(&menu)[3], "[deselect_exit_node] Deselect Exit Node");
    let menu = rebuild_menu(true, &vec![], &vec![vpn("x", "A", "B", false)]);
    assert_eq!(outline(&menu)[3], "---");
    assert_eq!(outline(&menu)[4], "> Exit Node");
}

#[test]
fn only_machine_exit_nodes_give_empty_vpn_menu() {
    let menu = rebuild_menu(true, &vec![], &vec![own("box", "100.64.0.7")]);
    assert_eq!(outline(&menu), vec![
        "[toggle] Turn Tailscale Off",
        "[refresh] Refresh",
        "---",
        "---",
        "> Exit Node",
        "  [set-exit-node-box] box",
        "> VPN Exit Nodes",
        "---",
        "[quit] Quit",
    ]);
}

#[test]
fn clicks_give_messages() {
    assert!(matches!(message_for_event("toggle"), Some(AppMessage::Toggle)));
    assert!(matches!(message_for_event("refresh"), Some(AppMessage::Refresh)));
    assert!(matches!(message_for_event("deselect_exit_node"), Some(AppMessage::DeselectExitNode)));
    assert!(matches!(message_for_event("quit"), Some(AppMessage::Quit)));
    match message_for_event("copy-100.64.0.1") {
        Some(AppMessage::CopyIp(ip)) => assert_eq!(ip, "100.64.0.1"),
        other => panic!("unexpected {:?}", other),
    }
    match message_for_event("set-exit-node-de-ber.mullvad.ts.net") {
        Some(AppMessage::SetExitNode(h)) => assert_eq!(h, "de-ber.mullvad.ts.net"),
        other => panic!("unexpected {:?}", other),
    }
    // The prefix is cut out wherever it occurs.
    match message_for_event("copy-a-copy-b") {
        Some(AppMessage::CopyIp(ip)) => assert_eq!(ip, "a-b"),
        other => panic!("unexpected {:?}", other),
    }
    assert!(message_for_event("unknown").is_none());
    assert!(message_for_event("").is_none());
    assert!(message_for_event("Toggle").is_none());
}

#[test]
fn every_item_of_a_menu_answers_its_click() {
    let machines = vec![m("home", "100.64.0.9", true, true)];
    let nodes = vec![vpn("de-ber", "Germany", "Berlin", true), own("box", "100.64.0.7")];
    let menu = rebuild_menu(true, &machines, &nodes);
    let mut ids = Vec::new();
    for e in &menu {
        match e {
            MenuEntry::Item(i) => ids.push(i.id.clone()),
            MenuEntry::Separator => {},
            MenuEntry::Submenu { entries, .. } => {
                for s in entries {
                    match s {
                        SubmenuEntry::Item(i) => ids.push(i.id.clone()),
                        SubmenuEntry::Submenu { items, .. } => {
                            ids.extend(items.iter().map(|i| i.id.clone()))
                        },
                    }
                }
            },
        }
    }
    assert_eq!(ids.len(), 7);
    for id in &ids {
        let msg = message_for_event(id).expect("every item answers");
        match msg {
            AppMessage::CopyIp(ip) => assert_eq!(ip, "100.64.0.9"),
            AppMessage::SetExitNode(h) => assert!(h == "de-ber" || h == "box"),
            _ => {},
        }
    }
}

#[test]
fn actions_for_messages() {
    assert!(matches!(actions_for(AppMessage::Refresh).as_slice(), [TrayAction::RebuildMenu]));
    assert!(matches!(
        actions_for(AppMessage::Toggle).as_slice(),
        [TrayAction::ToggleTailscale, TrayAction::RebuildMenu]
    ));
    match actions_for(AppMessage::CopyIp(String::from("1.2.3.4"))).as_slice() {
        [TrayAction::CopyToClipboard(t)] => assert_eq!(t, "1.2.3.4"),
        other => panic!("unexpected {:?}", other),
    }
    match actions_for(AppMessage::SetExitNode(String::from("de-ber"))).as_slice() {
        [TrayAction::RunTailscale(inv), TrayAction::RebuildMenu] => {
            assert_eq!(inv.program, "tailscale");
            assert_eq!(inv.args, vec![String::from("set"), String::from("--exit-node=de-ber")]);
        },
        other => panic!("unexpected {:?}", other),
    }
    match actions_for(AppMessage::DeselectExitNode).as_slice() {
        [TrayAction::RunTailscale(inv), TrayAction::RebuildMenu] => {
            assert_eq!(inv.args, vec![String::from("set"), String::from("--exit-node=")]);
        },
        other => panic!("unexpected {:?}", other),
    }
    assert!(matches!(actions_for(AppMessage::Quit).as_slice(), [TrayAction::Quit]));
}

#[test]
fn listed_machine_holds_its_fields() {
    let lm = ListedMachine { ip: String::from("1"), hostname: String::from("h"), online: true };
    let copy = lm.clone();
    assert_eq!((copy.ip.as_str(), copy.hostname.as_str(), copy.online), ("1", "h", true));
}
