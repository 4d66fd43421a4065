use tailscale_tray::command::{CommandOutput, Invocation};
use tailscale_tray::docker::{Docker, DockerError, DockerStatus, RootStep};

const RUNNING: &str = "● docker.service - Docker Application Container Engine
     Loaded: loaded (/lib/systemd/system/docker.service; enabled; vendor preset: enabled)
     Active: active (running) since Mon 2024-01-01 10:00:00 UTC; 1h ago
TriggeredBy: ● docker.socket
       Docs: https://docs.docker.com
   Main PID: 1234 (dockerd)
      Tasks: 20
     Memory: 50.0M
   Mem peak: 80.5M
        CPU: 1.234s
     CGroup: /system.slice/docker.service
";

const STOPPED: &str = "○ docker.service - Docker Application Container Engine\r
     Loaded: loaded (/lib/systemd/system/docker.service; disabled)\r
     Active: inactive (dead) since Mon 2024-01-01 11:00:00 UTC; 5s ago\r
   Main PID: 1234 (code=exited, status=0/SUCCESS)\r
        CPU: 2.5s";

fn output(success: bool, code: Option<i32>, stdout: &str, stderr: &str) -> CommandOutput {
    CommandOutput {
        success,
        code,
        stdout: stdout.as_bytes().to_vec(),
        stderr: stderr.as_bytes().to_vec(),
    }
}

fn io_error() -> std::io::Error {
    std::io::Error::new(std::io::ErrorKind::NotFound, "no such program")
}

fn args(inv: &Invocation) -> Vec<&str> {
    inv.args.iter().map(|a| a.as_str()).collect()
}

#[test]
fn parse_running_status() {
    let st = Docker::parse_status(RUNNING);
    assert_eq!(st.raw_output, RUNNING);
    assert_eq!(st.active_state, "active (running) since Mon 2024-01-01 10:00:00 UTC; 1h ago");
    assert!(st.is_active);
    assert_eq!(
        st.loaded_state,
        "loaded (/lib/systemd/system/docker.service; enabled; vendor preset: enabled)"
    );
    assert_eq!(st.main_pid, Some(1234));
    assert_eq!(st.memory_peak, Some(String::from("80.5M")));
    assert_eq!(st.cpu_time, Some(String::from("1.234s")));
}

#[test]
fn parse_stopped_status() {
    let st = Docker::parse_status(STOPPED);
    assert_eq!(st.active_state, "inactive (dead) since Mon 2024-01-01 11:00:00 UTC; 5s ago");
    assert!(!st.is_active);
    assert_eq!(st.loaded_state, "loaded (/lib/systemd/system/docker.service; disabled)");
    assert_eq!(st.main_pid, Some(1234));
    assert_eq!(st.memory_peak, None);
    assert_eq!(st.cpu_time, Some(String::from("2.5s")));
}

#[test]
fn parse_empty_status_is_default() {
    let st = Docker::parse_status("");
    let d = DockerStatus::default();
    assert_eq!(st.raw_output, d.raw_output);
    assert_eq!(st.active_state, d.active_state);
    assert_eq!(st.is_active, d.is_active);
    assert_eq!(st.loaded_state, d.loaded_state);
    assert_eq!(st.main_pid, d.main_pid);
    assert_eq!(st.memory_peak, d.memory_peak);
    assert_eq!(st.cpu_time, d.cpu_time);
}

#[test]
fn later_lines_win_and_bad_pid_is_none() {
    let st = Docker::parse_status("Active: active (running)\nActive: failed\nMain PID: abc\nCPU:");
    assert_eq!(st.active_state, "failed");
    assert!(!st.is_active);
    assert_eq!(st.main_pid, None);
    assert_eq!(st.cpu_time, Some(String::new()));
}

#[test]
fn status_law_on_examples() {
    // The activity flag agrees with the "Active" value.
    for text in [RUNNING, STOPPED, "", "Active: reactivating\n", "Active:   active (running)x"] {
        let st = Docker::parse_status(text);
        assert_eq!(st.is_active, st.active_state.contains("active (running)"));
        assert_eq!(st.raw_output, text);
    }
}

#[test]
fn parse_line_value_trims() {
    assert_eq!(Docker::parse_line_value("CPU:  1s ", "CPU:"), Some(String::from("1s")));
    assert_eq!(Docker::parse_line_value("Tasks: 3", "CPU:"), None);
}

#[test]
fn start_stop_and_status_commands() {
    let start = Docker::start();
    assert_eq!(start.program, "pkexec");
    assert_eq!(args(&start), vec!["/bin/systemctl", "start", "docker"]);
    let stop = Docker::stop();
    assert_eq!(stop.program, "pkexec");
    assert_eq!(args(&stop), vec!["/bin/systemctl", "stop", "docker"]);
    let status = Docker::status_command();
    assert_eq!(status.program, "/bin/systemctl");
    assert_eq!(args(&status), vec!["status", "docker", "--no-pager"]);
}

#[test]
fn run_as_root_prefixes_systemctl() {
    let inv = Docker::run_as_root("/bin/systemctl", vec![String::from("restart"), String::from("docker")]);
    assert_eq!(inv.program, "pkexec");
    assert_eq!(args(&inv), vec!["/bin/systemctl", "restart", "docker"]);
}

#[test]
fn root_outcome_cases() {
    assert!(Docker::root_outcome(Ok(output(true, Some(0), "", ""))).is_ok());
    match Docker::root_outcome(Ok(output(false, Some(126), "", "Request dismissed"))) {
        Err(DockerError::Failed { code, stderr }) => {
            assert_eq!(code, Some(126));
            assert_eq!(stderr, "Request dismissed");
        },
        other => panic!("unexpected {:?}", other),
    }
    match Docker::root_outcome(Ok(output(false, None, "", ""))) {
        Err(DockerError::Failed { code, stderr }) => {
            assert_eq!(code, None);
            assert_eq!(stderr, "");
        },
        other => panic!("unexpected {:?}", other),
    }
    assert!(matches!(Docker::root_outcome(Err(io_error())), Err(DockerError::Io(_))));
}

#[test]
fn toggle_stops_active_and_starts_inactive() {
    let inv = Docker::toggle(Ok(true)).unwrap();
    assert_eq!(args(&inv), vec!["/bin/systemctl", "stop", "docker"]);
    let inv = Docker::toggle(Ok(false)).unwrap();
    assert_eq!(args(&inv), vec!["/bin/systemctl", "start", "docker"]);
    assert!(matches!(Docker::toggle(Err(DockerError::Io(io_error()))), Err(DockerError::Io(_))));
}

#[test]
fn status_ignores_exit_code() {
    // `systemctl status` exits with 3 for an inactive unit; the output is read anyway.
    let st = Docker::status(Ok(output(false, Some(3), STOPPED, ""))).unwrap();
    assert!(!st.is_active);
    let st = Docker::status(Ok(output(true, Some(0), RUNNING, ""))).unwrap();
    assert!(st.is_active);
    assert!(matches!(Docker::status(Err(io_error())), Err(DockerError::Io(_))));
}

#[test]
fn is_active_reads_status() {
    assert!(Docker::is_active(Ok(output(true, Some(0), RUNNING, ""))).unwrap());
    assert!(!Docker::is_active(Ok(output(false, Some(3), STOPPED, ""))).unwrap());
    assert!(matches!(Docker::is_active(Err(io_error())), Err(DockerError::Io(_))));
}

#[test]
fn lossy_decoding_replaces_invalid_bytes() {
    let st = Docker::status(Ok(output(true, Some(0), "Active: ok \u{25cf}", ""))).unwrap();
    assert_eq!(st.active_state, "ok ●");
    let st = Docker::status(Ok(CommandOutput {
        success: true,
        code: Some(0),
        stdout: b"Active: active (running)\n\xffCPU: 1s".to_vec(),
        stderr: Vec::new(),
    }))
    .unwrap();
    assert!(st.is_active);
    assert_eq!(st.cpu_time, None);
    assert_eq!(st.raw_output, "Active: active (running)\n\u{FFFD}CPU: 1s");
}

#[test]
fn docker_error_messages() {
    let failed = DockerError::Failed { code: Some(126), stderr: String::from("Request dismissed") };
    assert_eq!(failed.message(), "command failed (code Some(126)): Request dismissed");
    let killed = DockerError::Failed { code: None, stderr: String::new() };
    assert_eq!(killed.message(), "command failed (code None): ");
    let e = io_error();
    let text = e.to_string();
    assert_eq!(DockerError::Io(e).message(), format!("io: {}", text));
}

#[test]
fn pkexec_success_finishes() {
    let start = Docker::start();
    assert!(matches!(Docker::after_pkexec(&start, Ok(output(true, Some(0), "", ""))), RootStep::Succeeded));
}

#[test]
fn failed_pkexec_falls_back_to_sudo() {
    let start = Docker::start();
    match Docker::after_pkexec(&start, Ok(output(false, Some(126), "", "Request dismissed"))) {
        RootStep::Fallback(sudo) => {
            assert_eq!(sudo.program, "sudo");
            assert_eq!(args(&sudo), vec!["/bin/systemctl", "start", "docker"]);
            // The root command succeeds exactly when sudo does.
            assert!(Docker::root_outcome(Ok(output(true, Some(0), "", ""))).is_ok());
        },
        other => panic!("unexpected {:?}", other),
    }
    let stop = Docker::stop();
    match Docker::after_pkexec(&stop, Err(io_error())) {
        RootStep::Fallback(sudo) => {
            assert_eq!(sudo.program, "sudo");
            assert_eq!(args(&sudo), vec!["/bin/systemctl", "stop", "docker"]);
            assert!(matches!(
                Docker::root_outcome(Ok(output(false, Some(1), "", "no tty"))),
                Err(DockerError::Failed { .. })
            ));
        },
        other => panic!("unexpected {:?}", other),
    }
}
