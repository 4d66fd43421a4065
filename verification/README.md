# tailscale_tray

A system-tray controller for Tailscale (and the Docker daemon), with its
decisions verified by Verus.

- `src/` — the verified library:
  - `text.rs`: character-level string operations (trim, prefixes, search,
    replace, ordering, number parsing and printing), each with its spec.
  - `command.rs`: commands to run (`Invocation`) and what running one gave
    (`CommandOutput`).
  - `docker.rs`: `systemctl` commands for the Docker daemon, run as root
    through `pkexec` with a fallback to `sudo`, and the parsing of
    `systemctl status` output.
  - `icon.rs`: decoding the tray icon's image file.
  - `tailscale.rs`: `tailscale` commands, and the reading of the
    `tailscale status --json` report: machines, exit nodes, errors.
  - `menu.rs`: the tray menu as plain values, what a click asks for, and
    what the tray does in answer.
- `tests/` — tests on concrete values.
- `app/` — the GTK tray program: runs the commands (for Docker, the
  `sudo` fallback when `pkexec` fails), parses the JSON report
  with serde, draws the menu with muda/tray-icon and reacts to clicks.
