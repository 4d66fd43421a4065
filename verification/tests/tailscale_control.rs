use tailscale_tray::command::{CommandOutput, Invocation};
use tailscale_tray::tailscale::{
    ExitNode, PeerInfo, PeerLocation, Tailscale, TailscaleError, TailscaleStatus,
};

fn output(success: bool, stdout: &str, stderr: &str) -> CommandOutput {
    CommandOutput {
        success,
        code: if success { Some(0) } else { Some(1) },
        stdout: stdout.as_bytes().to_vec(),
        stderr: stderr.as_bytes().to_vec(),
    }
}

fn io_error() -> std::io::Error {
    std::io::Error::new(std::io::ErrorKind::NotFound, "tailscale not found")
}

fn args(inv: &Invocation) -> Vec<&str> {
    inv.args.iter().map(|a| a.as_str()).collect()
}

fn machine(name: &str, ip: &str, online: bool, exit_node: bool, exit_option: bool) -> PeerInfo {
    PeerInfo {
        host_name: String::from(name),
        dns_name: format!("{}.tail1234.ts.net.", name),
        tailscale_i_ps: if ip.is_empty() { vec![] } else { vec![String::from(ip), String::from("fd7a::1")] },
        online,
        exit_node,
        exit_node_option: exit_option,
        location: None,
    }
}

fn vpn(dns: &str, country: &str, city: &str, exit_node: bool) -> PeerInfo {
    PeerInfo {
        host_name: String::from("vpn"),
        dns_name: String::from(dns),
        tailscale_i_ps: vec![String::from("100.80.0.1")],
        online: true,
        exit_node,
        exit_node_option: true,
        location: Some(PeerLocation { country: String::from(country), city: String::from(city) }),
    }
}

fn running(peers: Vec<PeerInfo>) -> TailscaleStatus {
    TailscaleStatus {
        backend_state: String::from("Running"),
        self_node: Some(machine("laptop", "100.64.0.1", true, false, false)),
        peer: peers,
    }
}

#[test]
fn commands() {
    let up = Tailscale::up();
    assert_eq!(up.program, "tailscale");
    assert_eq!(args(&up), vec!["up"]);
    assert_eq!(args(&Tailscale::down()), vec!["down"]);
    assert_eq!(args(&Tailscale::set_exit_node("se-sto-wg-001.mullvad.ts.net")), vec![
        "set",
        "--exit-node=se-sto-wg-001.mullvad.ts.net",
    ]);
    assert_eq!(args(&Tailscale::deselect_exit_node()), vec!["set", "--exit-node="]);
    assert_eq!(args(&Tailscale::status_command()), vec!["status", "--json"]);
}

#[test]
fn command_outcome_cases() {
    assert!(Tailscale::command_outcome(Ok(output(true, "", ""))).is_ok());
    match Tailscale::command_outcome(Ok(output(false, "", "access denied"))) {
        Err(TailscaleError::CommandFailed(s)) => assert_eq!(s, "access denied"),
        other => panic!("unexpected {:?}", other),
    }
    assert!(matches!(
        Tailscale::command_outcome(Err(io_error())),
        Err(TailscaleError::CommandError(_))
    ));
}

#[test]
fn status_json_output_cases() {
    assert_eq!(Tailscale::status_json_output(Ok(output(true, "{}", ""))).unwrap(), b"{}".to_vec());
    assert!(matches!(
        Tailscale::status_json_output(Ok(output(false, "", "Tailscale is not running\n"))),
        Err(TailscaleError::DaemonStopped)
    ));
    assert!(matches!(
        Tailscale::status_json_output(Ok(output(
            false,
            "",
            "failed to connect: Cannot connect to the Tailscale daemon"
        ))),
        Err(TailscaleError::DaemonStopped)
    ));
    match Tailscale::status_json_output(Ok(output(false, "", "something else"))) {
        Err(TailscaleError::CommandFailed(s)) => assert_eq!(s, "something else"),
        other => panic!("unexpected {:?}", other),
    }
    assert!(matches!(
        Tailscale::status_json_output(Err(io_error())),
        Err(TailscaleError::CommandError(_))
    ));
}

#[test]
fn is_enabled_cases() {
    assert!(Tailscale::is_enabled(Ok(running(vec![]))).unwrap());
    let mut stopped = running(vec![]);
    stopped.backend_state = String::from("Stopped");
    assert!(!Tailscale::is_enabled(Ok(stopped)).unwrap());
    assert!(!Tailscale::is_enabled(Err(TailscaleError::DaemonStopped)).unwrap());
    assert!(matches!(
        Tailscale::is_enabled(Err(TailscaleError::CommandFailed(String::from("x")))),
        Err(TailscaleError::CommandFailed(_))
    ));
}

#[test]
fn toggle_cases() {
    assert_eq!(args(&Tailscale::toggle(Ok(true))), vec!["down"]);
    assert_eq!(args(&Tailscale::toggle(Ok(false))), vec!["up"]);
    assert_eq!(args(&Tailscale::toggle(Err(TailscaleError::DaemonStopped))), vec!["up"]);
}

#[test]
fn self_node_cases() {
    let m = Tailscale::self_node(Ok(running(vec![]))).unwrap().unwrap();
    assert_eq!(m.hostname, "laptop");
    assert_eq!(m.ip, "100.64.0.1");
    assert!(m.online);
    assert!(!m.is_exit_node);
    let mut none = running(vec![]);
    none.self_node = None;
    assert!(Tailscale::self_node(Ok(none)).unwrap().is_none());
    let mut no_ip = running(vec![]);
    no_ip.self_node = Some(machine("bare", "", false, false, false));
    assert_eq!(Tailscale::self_node(Ok(no_ip)).unwrap().unwrap().ip, "");
    assert!(matches!(
        Tailscale::self_node(Err(TailscaleError::DaemonStopped)),
        Err(TailscaleError::DaemonStopped)
    ));
}

#[test]
fn status_puts_online_machines_first() {
    let peers = vec![
        machine("a", "100.64.0.2", true, false, false),
        machine("b", "100.64.0.3", false, false, false),
        vpn("de-ber.mullvad.ts.net.", "Germany", "Berlin", false),
        machine("c", "100.64.0.4", true, true, true),
        machine("d", "", false, false, true),
    ];
    let ms = Tailscale::status(Ok(running(peers))).unwrap();
    let names: Vec<&str> = ms.iter().map(|m| m.hostname.as_str()).collect();
    assert_eq!(names, vec!["c", "a", "b", "d"]);
    assert_eq!(ms[0].ip, "100.64.0.4");
    assert!(ms[0].is_exit_node);
    assert_eq!(ms[3].ip, "");
    // Online machines before offline ones.
    let first_offline = ms.iter().position(|m| !m.online).unwrap();
    assert!(ms[first_offline..].iter().all(|m| !m.online));
}

#[test]
fn status_of_stopped_backend() {
    let mut st = running(vec![machine("a", "100.64.0.2", true, false, false)]);
    st.backend_state = String::from("NeedsLogin");
    assert!(matches!(Tailscale::status(Ok(st)), Err(TailscaleError::DaemonStopped)));
    assert!(matches!(
        Tailscale::status(Err(TailscaleError::CommandFailed(String::new()))),
        Err(TailscaleError::CommandFailed(_))
    ));
}

fn describe(nodes: &[ExitNode]) -> Vec<String> {
    nodes
        .iter()
        .map(|n| match n {
            ExitNode::VPN(v) => format!("vpn {} {}/{} {}", v.hostname, v.country, v.city, v.is_exit_node),
            ExitNode::Machine(m) => format!("machine {} {}", m.hostname, m.ip),
        })
        .collect()
}

#[test]
fn exit_nodes_one_per_city_active_preferred() {
    let peers = vec![
        vpn("de-ber-1.mullvad.ts.net.", "Germany", "Berlin", false),
        machine("home", "100.64.0.9", true, false, true),
        vpn("de-ber-2.mullvad.ts.net.", "Germany", "Berlin", true),
        vpn("de-fra-1.mullvad.ts.net.", "Germany", "Frankfurt", false),
        machine("desk", "100.64.0.5", true, false, false),
        vpn("se-sto-1.mullvad.ts.net", "Sweden", "Stockholm", false),
        vpn("de-fra-2.mullvad.ts.net.", "Germany", "Frankfurt", false),
    ];
    let nodes = Tailscale::get_exit_nodes(Ok(running(peers))).unwrap();
    assert_eq!(describe(&nodes), vec![
        "vpn de-ber-2.mullvad.ts.net Germany/Berlin true",
        "machine home.tail1234.ts.net 100.64.0.9",
        "vpn de-fra-1.mullvad.ts.net Germany/Frankfurt false",
        "vpn se-sto-1.mullvad.ts.net Sweden/Stockholm false",
    ]);
}

#[test]
fn exit_nodes_error_passes_through() {
    assert!(matches!(
        Tailscale::get_exit_nodes(Err(TailscaleError::DaemonStopped)),
        Err(TailscaleError::DaemonStopped)
    ));
    assert!(Tailscale::get_exit_nodes(Ok(running(vec![]))).unwrap().is_empty());
}

#[test]
fn tailscale_error_messages() {
    assert_eq!(TailscaleError::DaemonStopped.message(), "Tailscale daemon is stopped.");
    assert_eq!(
        TailscaleError::CommandFailed(String::from("boom")).message(),
        "Tailscale command failed with stderr: boom"
    );
    let e = io_error();
    let text = e.to_string();
    assert_eq!(
        TailscaleError::CommandError(e).message(),
        format!("Failed to execute tailscale command: {}", text)
    );
    let json = serde_json::from_str::<serde_json::Value>("{").unwrap_err();
    let text = json.to_string();
    assert_eq!(TailscaleError::JsonError(json).message(), format!("Failed to parse JSON: {}", text));
}
