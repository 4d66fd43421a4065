//! Control of the Docker daemon through `systemctl`.
//!
//! Starting and stopping run `systemctl` as root: first through `pkexec`
//! (an authorization dialog), and, when that fails, through `sudo` (on the
//! terminal). The status is read, without root, from the text that
//! `systemctl status` prints.
use vstd::prelude::*;
use vstd::string::*;
use crate::command::{
    decode_lossy, push_text, strings_view, utf8_lossy, CommandOutput, Invocation, InvocationView,
};
use crate::text::{
    chars_of, concat_str, contains, starts_with, contains_str, debug_opt_i32, debug_opt_i32_str, occurs_at, first_word, first_word_str, lemma_split_lines_nonempty,
    lemma_split_lines_step, opt_text, parse_u32, parse_u32_str, split_lines, strip_prefix,
    strip_prefix_str, substring, trim, trim_str,
};

verus! {

/// The `systemctl` binary.
pub const SYSTEMCTL: &'static str = "/bin/systemctl";

/// The unit that is controlled.
pub const SERVICE: &'static str = "docker";

/// The program through which commands run as root first.
pub const ROOT_RUNNER: &'static str = "pkexec";

/// The program through which commands run as root when `pkexec` fails.
pub const FALLBACK_ROOT_RUNNER: &'static str = "sudo";

/// The parsed status of the Docker daemon.
#[derive(Clone, Debug)]
pub struct DockerStatus {
    /// The raw, multi-line output of `systemctl status`.
    pub raw_output: String,
    /// The value of the "Active" field, e.g. "active (running)".
    pub active_state: String,
    /// Whether the service is running.
    pub is_active: bool,
    /// The value of the "Loaded" field.
    pub loaded_state: String,
    /// The main process ID of the daemon, if it is running.
    pub main_pid: Option<u32>,
    /// The peak memory usage reported by systemd.
    pub memory_peak: Option<String>,
    /// The total CPU time consumed, as reported by systemd.
    pub cpu_time: Option<String>,
}

/// A status as plain values.
pub struct DockerStatusView {
    pub raw_output: Seq<char>,
    pub active_state: Seq<char>,
    pub is_active: bool,
    pub loaded_state: Seq<char>,
    pub main_pid: Option<u32>,
    pub memory_peak: Option<Seq<char>>,
    pub cpu_time: Option<Seq<char>>,
}

impl View for DockerStatus {
    type V = DockerStatusView;

    open spec fn view(&self) -> DockerStatusView {
        DockerStatusView {
            raw_output: self.raw_output@,
            active_state: self.active_state@,
            is_active: self.is_active,
            loaded_state: self.loaded_state@,
            main_pid: self.main_pid,
            memory_peak: opt_text(self.memory_peak),
            cpu_time: opt_text(self.cpu_time),
        }
    }
}

/// The status before any line has been read: empty texts and no values.
pub open spec fn blank_status(raw_output: Seq<char>) -> DockerStatusView {
    DockerStatusView {
        raw_output,
        active_state: seq![],
        is_active: false,
        loaded_state: seq![],
        main_pid: None,
        memory_peak: None,
        cpu_time: None,
    }
}

impl Default for DockerStatus {
    fn default() -> (s: Self)
        ensures
            s@ == blank_status(seq![]),
    {
        DockerStatus {
            raw_output: String::new(),
            active_state: String::new(),
            is_active: false,
            loaded_state: String::new(),
            main_pid: None,
            memory_peak: None,
            cpu_time: None,
        }
    }
}

/// The errors that controlling the daemon can meet.
#[derive(Debug)]
pub enum DockerError {
    /// The command could not be started.
    Io(std::io::Error),
    /// The command ran and failed, with its exit code and error output.
    Failed { code: Option<i32>, stderr: String },
}

impl DockerError {
    /// The text of the error, as its `Display` prints it: "io: " and the
    /// I/O error's own text, or "command failed (code <code>): <stderr>"
    /// with the code as `Debug` prints it.
    pub fn message(&self) -> (s: String)
        ensures
            match self {
                DockerError::Io(e) => exists|t: String|
                    to_string_from_display_ensures::<std::io::Error>(e, t) && s@ == "io: "@ + t@,
                DockerError::Failed { code, stderr } => s@ == "command failed (code "@
                    + debug_opt_i32(*code) + "): "@ + stderr@,
            },
    {
        match self {
            DockerError::Io(e) => {
                let t = e.to_string();
                concat_str("io: ", t.as_str())
            },
            DockerError::Failed { code, stderr } => {
                let mut s = concat_str("command failed (code ", debug_opt_i32_str(*code).as_str());
                s.append("): ");
                s.append(stderr.as_str());
                s
            },
        }
    }
}

/// What follows an attempt to run a command as root through `pkexec`.
#[derive(Debug)]
pub enum RootStep {
    /// The command ran and succeeded: the root command is done.
    Succeeded,
    /// The attempt failed: run this `sudo` command next; its outcome is
    /// the outcome of the root command.
    Fallback(Invocation),
}

/// Controls the Docker daemon through `systemctl`: start and stop try
/// `pkexec` (GUI authorization) and fall back to `sudo` (terminal).
pub struct Docker;

/// The value of a "Key: Value" line: what follows `key`, trimmed.
pub open spec fn line_value(line: Seq<char>, key: Seq<char>) -> Option<Seq<char>> {
    match strip_prefix(line, key) {
        Some(rest) => Some(trim(rest)),
        None => None,
    }
}

/// The process ID that a "Main PID" value gives: its first word as a number.
pub open spec fn pid_of(value: Seq<char>) -> Option<u32> {
    match first_word(value) {
        Some(w) => parse_u32(w),
        None => None,
    }
}

/// What one line of `systemctl status` output does to the status: the
/// trimmed line is matched against the known keys, first match wins.
pub open spec fn apply_status_line(st: DockerStatusView, line: Seq<char>) -> DockerStatusView {
    let t = trim(line);
    if let Some(v) = line_value(t, "Active:"@) {
        DockerStatusView {
            active_state: v,
            is_active: contains(v, "active (running)"@),
            ..st
        }
    } else if let Some(v) = line_value(t, "Loaded:"@) {
        DockerStatusView { loaded_state: v, ..st }
    } else if let Some(v) = line_value(t, "Main PID:"@) {
        DockerStatusView { main_pid: pid_of(v), ..st }
    } else if let Some(v) = line_value(t, "Mem peak:"@) {
        DockerStatusView { memory_peak: Some(v), ..st }
    } else if let Some(v) = line_value(t, "CPU:"@) {
        DockerStatusView { cpu_time: Some(v), ..st }
    } else {
        st
    }
}

/// The status after the lines, in order.
pub open spec fn apply_status_lines(st: DockerStatusView, lines: Seq<Seq<char>>) -> DockerStatusView
    decreases lines.len(),
{
    if lines.len() == 0 {
        st
    } else {
        apply_status_line(apply_status_lines(st, lines.drop_last()), lines.last())
    }
}

/// The status that the text of `systemctl status` describes. The text is cut
/// at each newline; since each piece is trimmed, this reads the same values
/// as `str::lines` would (a `'\r'` before a newline, or an empty last piece,
/// changes nothing).
pub open spec fn parsed_status(text: Seq<char>) -> DockerStatusView {
    apply_status_lines(blank_status(text), split_lines(text))
}

/// The command that runs `cmd` with `args` as root.
pub open spec fn root_invocation(cmd: Seq<char>, args: Seq<Seq<char>>) -> InvocationView {
    InvocationView { program: ROOT_RUNNER@, args: seq![cmd] + args }
}

/// The command that runs `cmd` with `args` as root through `sudo`.
pub open spec fn sudo_invocation(cmd: Seq<char>, args: Seq<Seq<char>>) -> InvocationView {
    InvocationView { program: FALLBACK_ROOT_RUNNER@, args: seq![cmd] + args }
}

/// The command that runs `systemctl` with `args` as root.
pub open spec fn root_command(args: Seq<Seq<char>>) -> InvocationView {
    root_invocation(SYSTEMCTL@, args)
}

/// The result of a command run as root.
pub open spec fn root_outcome_spec(
    run: Result<CommandOutput, std::io::Error>,
    r: Result<(), DockerError>,
) -> bool {
    match run {
        Err(e) => r == Err::<(), DockerError>(DockerError::Io(e)),
        Ok(o) => if o.success {
            r == Ok::<(), DockerError>(())
        } else {
            r matches Err(DockerError::Failed { code, stderr }) && code == o.code && stderr@
                == utf8_lossy(o.stderr@)
        },
    }
}

/// What every line keeps: the raw output, and an activity flag that says
/// whether the "Active" value reads "active (running)".
proof fn lemma_status_lines_consistent(st: DockerStatusView, lines: Seq<Seq<char>>)
    requires
        st.is_active == contains(st.active_state, "active (running)"@),
    ensures
        apply_status_lines(st, lines).is_active == contains(
            apply_status_lines(st, lines).active_state,
            "active (running)"@,
        ),
        apply_status_lines(st, lines).raw_output == st.raw_output,
    decreases lines.len(),
{
    if lines.len() > 0 {
        lemma_status_lines_consistent(st, lines.drop_last());
    }
}

/// A text that starts with `p` has `p`'s characters in front.
proof fn lemma_prefix_char(t: Seq<char>, p: Seq<char>, i: int)
    requires
        starts_with(t, p),
        0 <= i < p.len(),
    ensures
        t[i] == p[i],
{
    assert(t.take(p.len() as int)[i] == t[i]);
}

/// The keys of the status lines exclude one another: a line starts with
/// at most one of them.
proof fn lemma_keys_exclusive(t: Seq<char>)
    ensures
        starts_with(t, "Active:"@) ==> !starts_with(t, "Loaded:"@) && !starts_with(t, "Main PID:"@)
            && !starts_with(t, "Mem peak:"@) && !starts_with(t, "CPU:"@),
        starts_with(t, "Loaded:"@) ==> !starts_with(t, "Main PID:"@) && !starts_with(t, "Mem peak:"@)
            && !starts_with(t, "CPU:"@),
        starts_with(t, "Main PID:"@) ==> !starts_with(t, "Mem peak:"@) && !starts_with(t, "CPU:"@),
        starts_with(t, "Mem peak:"@) ==> !starts_with(t, "CPU:"@),
{
    reveal_strlit("Active:");
    reveal_strlit("Loaded:");
    reveal_strlit("Main PID:");
    reveal_strlit("Mem peak:");
    reveal_strlit("CPU:");
    if starts_with(t, "Active:"@) {
        lemma_prefix_char(t, "Active:"@, 0);
        lemma_prefix_char(t, "Active:"@, 1);
    }
    if starts_with(t, "Loaded:"@) {
        lemma_prefix_char(t, "Loaded:"@, 0);
        lemma_prefix_char(t, "Loaded:"@, 1);
    }
    if starts_with(t, "Main PID:"@) {
        lemma_prefix_char(t, "Main PID:"@, 0);
        lemma_prefix_char(t, "Main PID:"@, 1);
    }
    if starts_with(t, "Mem peak:"@) {
        lemma_prefix_char(t, "Mem peak:"@, 0);
        lemma_prefix_char(t, "Mem peak:"@, 1);
    }
    if starts_with(t, "CPU:"@) {
        lemma_prefix_char(t, "CPU:"@, 0);
        lemma_prefix_char(t, "CPU:"@, 1);
    }
}

/// What one line does to each field: a line whose trimmed form starts with
/// the field's key sets the field from the rest of the line; any other line
/// leaves it as it was.
proof fn lemma_line_effect(st: DockerStatusView, line: Seq<char>)
    ensures
        !starts_with(trim(line), "Active:"@) ==> (apply_status_line(st, line).active_state, apply_status_line(st, line).is_active) == (st.active_state, st.is_active),
        starts_with(trim(line), "Active:"@) ==> (apply_status_line(st, line).active_state, apply_status_line(st, line).is_active) == ({
            let v = trim(trim(line).skip("Active:"@.len() as int));
            (v, contains(v, "active (running)"@))
        }),
        !starts_with(trim(line), "Loaded:"@) ==> apply_status_line(st, line).loaded_state == st.loaded_state,
        starts_with(trim(line), "Loaded:"@) ==> apply_status_line(st, line).loaded_state == ({
            let v = trim(trim(line).skip("Loaded:"@.len() as int));
            v
        }),
        !starts_with(trim(line), "Main PID:"@) ==> apply_status_line(st, line).main_pid == st.main_pid,
        starts_with(trim(line), "Main PID:"@) ==> apply_status_line(st, line).main_pid == ({
            let v = trim(trim(line).skip("Main PID:"@.len() as int));
            match first_word(v) {
            Some(w) => parse_u32(w),
            None => None,
        }
        }),
        !starts_with(trim(line), "Mem peak:"@) ==> apply_status_line(st, line).memory_peak == st.memory_peak,
        starts_with(trim(line), "Mem peak:"@) ==> apply_status_line(st, line).memory_peak == ({
            let v = trim(trim(line).skip("Mem peak:"@.len() as int));
            Some(v)
        }),
        !starts_with(trim(line), "CPU:"@) ==> apply_status_line(st, line).cpu_time == st.cpu_time,
        starts_with(trim(line), "CPU:"@) ==> apply_status_line(st, line).cpu_time == ({
            let v = trim(trim(line).skip("CPU:"@.len() as int));
            Some(v)
        }),
{
    let t = trim(line);
    lemma_keys_exclusive(t);
    assert(strip_prefix(t, "Active:"@) is Some <==> starts_with(t, "Active:"@));
    assert(strip_prefix(t, "Loaded:"@) is Some <==> starts_with(t, "Loaded:"@));
    assert(strip_prefix(t, "Main PID:"@) is Some <==> starts_with(t, "Main PID:"@));
    assert(strip_prefix(t, "Mem peak:"@) is Some <==> starts_with(t, "Mem peak:"@));
    assert(strip_prefix(t, "CPU:"@) is Some <==> starts_with(t, "CPU:"@));
}

proof fn lemma_lines_active_absent(st: DockerStatusView, lines: Seq<Seq<char>>)
    requires
        forall|k: int| 0 <= k < lines.len() ==> !starts_with(trim(#[trigger] lines[k]), "Active:"@),
    ensures
        (apply_status_lines(st, lines).active_state, apply_status_lines(st, lines).is_active) == (st.active_state, st.is_active),
    decreases lines.len(),
{
    if lines.len() > 0 {
        let init = lines.drop_last();
        assert forall|k: int| 0 <= k < init.len() implies !starts_with(
            trim(#[trigger] init[k]),
            "Active:"@,
        ) by {
            assert(init[k] == lines[k]);
        }
        lemma_lines_active_absent(st, init);
        assert(!starts_with(trim(lines[lines.len() - 1]), "Active:"@));
        lemma_line_effect(apply_status_lines(st, init), lines.last());
    }
}

proof fn lemma_lines_active_last(st: DockerStatusView, lines: Seq<Seq<char>>, j: int)
    requires
        0 <= j < lines.len(),
        starts_with(trim(lines[j]), "Active:"@),
        forall|k: int| j < k < lines.len() ==> !starts_with(trim(#[trigger] lines[k]), "Active:"@),
    ensures
        (apply_status_lines(st, lines).active_state, apply_status_lines(st, lines).is_active) == ({
            let v = trim(trim(lines[j]).skip("Active:"@.len() as int));
            (v, contains(v, "active (running)"@))
        }),
    decreases lines.len(),
{
    let init = lines.drop_last();
    let n = lines.len() - 1;
    assert(lines.last() == lines[n]);
    lemma_line_effect(apply_status_lines(st, init), lines[n]);
    if j < n {
        assert forall|k: int| j < k < init.len() implies !starts_with(
            trim(#[trigger] init[k]),
            "Active:"@,
        ) by {
            assert(init[k] == lines[k]);
        }
        assert(init[j] == lines[j]);
        lemma_lines_active_last(st, init, j);
        assert(!starts_with(trim(lines[n]), "Active:"@));
    }
}

/// The "Active" value is the rest of the last line that starts with "Active:"
/// (lines trimmed), itself trimmed, and the daemon counts as active exactly
/// when that value contains "active (running)"; with no such line, the value
/// is empty and the daemon inactive.
pub proof fn lemma_status_active(text: Seq<char>)
    ensures
        (forall|k: int|
            0 <= k < split_lines(text).len() ==> !starts_with(
                trim(#[trigger] split_lines(text)[k]),
                "Active:"@,
            )) ==> (parsed_status(text).active_state, parsed_status(text).is_active) == (Seq::<char>::empty(), false),
        forall|j: int|
            0 <= j < split_lines(text).len() && starts_with(
                trim(#[trigger] split_lines(text)[j]),
                "Active:"@,
            ) && (forall|k: int|
                j < k < split_lines(text).len() ==> !starts_with(
                    trim(#[trigger] split_lines(text)[k]),
                    "Active:"@,
                )) ==> (parsed_status(text).active_state, parsed_status(text).is_active) == ({
                let v = trim(trim(split_lines(text)[j]).skip("Active:"@.len() as int));
                (v, contains(v, "active (running)"@))
            }),
{
    let lines = split_lines(text);
    if forall|k: int| 0 <= k < lines.len() ==> !starts_with(trim(#[trigger] lines[k]), "Active:"@) {
        lemma_lines_active_absent(blank_status(text), lines);
    }
    assert forall|j: int|
        0 <= j < lines.len() && starts_with(trim(#[trigger] lines[j]), "Active:"@) && (forall|k: int|
            j < k < lines.len() ==> !starts_with(trim(#[trigger] lines[k]), "Active:"@)) implies (parsed_status(text).active_state, parsed_status(text).is_active)
        == ({
        let v = trim(trim(lines[j]).skip("Active:"@.len() as int));
        (v, contains(v, "active (running)"@))
    }) by {
        lemma_lines_active_last(blank_status(text), lines, j);
    }
}

proof fn lemma_lines_loaded_absent(st: DockerStatusView, lines: Seq<Seq<char>>)
    requires
        forall|k: int| 0 <= k < lines.len() ==> !starts_with(trim(#[trigger] lines[k]), "Loaded:"@),
    ensures
        apply_status_lines(st, lines).loaded_state == st.loaded_state,
    decreases lines.len(),
{
    if lines.len() > 0 {
        let init = lines.drop_last();
        assert forall|k: int| 0 <= k < init.len() implies !starts_with(
            trim(#[trigger] init[k]),
            "Loaded:"@,
        ) by {
            assert(init[k] == lines[k]);
        }
        lemma_lines_loaded_absent(st, init);
        assert(!starts_with(trim(lines[lines.len() - 1]), "Loaded:"@));
        lemma_line_effect(apply_status_lines(st, init), lines.last());
    }
}

proof fn lemma_lines_loaded_last(st: DockerStatusView, lines: Seq<Seq<char>>, j: int)
    requires
        0 <= j < lines.len(),
        starts_with(trim(lines[j]), "Loaded:"@),
        forall|k: int| j < k < lines.len() ==> !starts_with(trim(#[trigger] lines[k]), "Loaded:"@),
    ensures
        apply_status_lines(st, lines).loaded_state == ({
            let v = trim(trim(lines[j]).skip("Loaded:"@.len() as int));
            v
        }),
    decreases lines.len(),
{
    let init = lines.drop_last();
    let n = lines.len() - 1;
    assert(lines.last() == lines[n]);
    lemma_line_effect(apply_status_lines(st, init), lines[n]);
    if j < n {
        assert forall|k: int| j < k < init.len() implies !starts_with(
            trim(#[trigger] init[k]),
            "Loaded:"@,
        ) by {
            assert(init[k] == lines[k]);
        }
        assert(init[j] == lines[j]);
        lemma_lines_loaded_last(st, init, j);
        assert(!starts_with(trim(lines[n]), "Loaded:"@));
    }
}

/// The "Loaded" value is the rest of the last line that starts with
/// "Loaded:" (lines trimmed), itself trimmed; empty when there is none.
pub proof fn lemma_status_loaded(text: Seq<char>)
    ensures
        (forall|k: int|
            0 <= k < split_lines(text).len() ==> !starts_with(
                trim(#[trigger] split_lines(text)[k]),
                "Loaded:"@,
            )) ==> parsed_status(text).loaded_state == Seq::<char>::empty(),
        forall|j: int|
            0 <= j < split_lines(text).len() && starts_with(
                trim(#[trigger] split_lines(text)[j]),
                "Loaded:"@,
            ) && (forall|k: int|
                j < k < split_lines(text).len() ==> !starts_with(
                    trim(#[trigger] split_lines(text)[k]),
                    "Loaded:"@,
                )) ==> parsed_status(text).loaded_state == ({
                let v = trim(trim(split_lines(text)[j]).skip("Loaded:"@.len() as int));
                v
            }),
{
    let lines = split_lines(text);
    if forall|k: int| 0 <= k < lines.len() ==> !starts_with(trim(#[trigger] lines[k]), "Loaded:"@) {
        lemma_lines_loaded_absent(blank_status(text), lines);
    }
    assert forall|j: int|
        0 <= j < lines.len() && starts_with(trim(#[trigger] lines[j]), "Loaded:"@) && (forall|k: int|
            j < k < lines.len() ==> !starts_with(trim(#[trigger] lines[k]), "Loaded:"@)) implies parsed_status(text).loaded_state
        == ({
        let v = trim(trim(lines[j]).skip("Loaded:"@.len() as int));
        v
    }) by {
        lemma_lines_loaded_last(blank_status(text), lines, j);
    }
}

proof fn lemma_lines_main_pid_absent(st: DockerStatusView, lines: Seq<Seq<char>>)
    requires
        forall|k: int| 0 <= k < lines.len() ==> !starts_with(trim(#[trigger] lines[k]), "Main PID:"@),
    ensures
        apply_status_lines(st, lines).main_pid == st.main_pid,
    decreases lines.len(),
{
    if lines.len() > 0 {
        let init = lines.drop_last();
        assert forall|k: int| 0 <= k < init.len() implies !starts_with(
            trim(#[trigger] init[k]),
            "Main PID:"@,
        ) by {
            assert(init[k] == lines[k]);
        }
        lemma_lines_main_pid_absent(st, init);
        assert(!starts_with(trim(lines[lines.len() - 1]), "Main PID:"@));
        lemma_line_effect(apply_status_lines(st, init), lines.last());
    }
}

proof fn lemma_lines_main_pid_last(st: DockerStatusView, lines: Seq<Seq<char>>, j: int)
    requires
        0 <= j < lines.len(),
        starts_with(trim(lines[j]), "Main PID:"@),
        forall|k: int| j < k < lines.len() ==> !starts_with(trim(#[trigger] lines[k]), "Main PID:"@),
    ensures
        apply_status_lines(st, lines).main_pid == ({
            let v = trim(trim(lines[j]).skip("Main PID:"@.len() as int));
            match first_word(v) {
            Some(w) => parse_u32(w),
            None => None,
        }
        }),
    decreases lines.len(),
{
    let init = lines.drop_last();
    let n = lines.len() - 1;
    assert(lines.last() == lines[n]);
    lemma_line_effect(apply_status_lines(st, init), lines[n]);
    if j < n {
        assert forall|k: int| j < k < init.len() implies !starts_with(
            trim(#[trigger] init[k]),
            "Main PID:"@,
        ) by {
            assert(init[k] == lines[k]);
        }
        assert(init[j] == lines[j]);
        lemma_lines_main_pid_last(st, init, j);
        assert(!starts_with(trim(lines[n]), "Main PID:"@));
    }
}

/// The main process ID is the first word of the rest of the last line that
/// starts with "Main PID:" (lines trimmed), read as a `u32`; none when there
/// is no such line, no word, or the word is no `u32`.
pub proof fn lemma_status_main_pid(text: Seq<char>)
    ensures
        (forall|k: int|
            0 <= k < split_lines(text).len() ==> !starts_with(
                trim(#[trigger] split_lines(text)[k]),
                "Main PID:"@,
            )) ==> parsed_status(text).main_pid == None::<u32>,
        forall|j: int|
            0 <= j < split_lines(text).len() && starts_with(
                trim(#[trigger] split_lines(text)[j]),
                "Main PID:"@,
            ) && (forall|k: int|
                j < k < split_lines(text).len() ==> !starts_with(
                    trim(#[trigger] split_lines(text)[k]),
                    "Main PID:"@,
                )) ==> parsed_status(text).main_pid == ({
                let v = trim(trim(split_lines(text)[j]).skip("Main PID:"@.len() as int));
                match first_word(v) {
            Some(w) => parse_u32(w),
            None => None,
        }
            }),
{
    let lines = split_lines(text);
    if forall|k: int| 0 <= k < lines.len() ==> !starts_with(trim(#[trigger] lines[k]), "Main PID:"@) {
        lemma_lines_main_pid_absent(blank_status(text), lines);
    }
    assert forall|j: int|
        0 <= j < lines.len() && starts_with(trim(#[trigger] lines[j]), "Main PID:"@) && (forall|k: int|
            j < k < lines.len() ==> !starts_with(trim(#[trigger] lines[k]), "Main PID:"@)) implies parsed_status(text).main_pid
        == ({
        let v = trim(trim(lines[j]).skip("Main PID:"@.len() as int));
        match first_word(v) {
            Some(w) => parse_u32(w),
            None => None,
        }
    }) by {
        lemma_lines_main_pid_last(blank_status(text), lines, j);
    }
}

proof fn lemma_lines_memory_peak_absent(st: DockerStatusView, lines: Seq<Seq<char>>)
    requires
        forall|k: int| 0 <= k < lines.len() ==> !starts_with(trim(#[trigger] lines[k]), "Mem peak:"@),
    ensures
        apply_status_lines(st, lines).memory_peak == st.memory_peak,
    decreases lines.len(),
{
    if lines.len() > 0 {
        let init = lines.drop_last();
        assert forall|k: int| 0 <= k < init.len() implies !starts_with(
            trim(#[trigger] init[k]),
            "Mem peak:"@,
        ) by {
            assert(init[k] == lines[k]);
        }
        lemma_lines_memory_peak_absent(st, init);
        assert(!starts_with(trim(lines[lines.len() - 1]), "Mem peak:"@));
        lemma_line_effect(apply_status_lines(st, init), lines.last());
    }
}

proof fn lemma_lines_memory_peak_last(st: DockerStatusView, lines: Seq<Seq<char>>, j: int)
    requires
        0 <= j < lines.len(),
        starts_with(trim(lines[j]), "Mem peak:"@),
        forall|k: int| j < k < lines.len() ==> !starts_with(trim(#[trigger] lines[k]), "Mem peak:"@),
    ensures
        apply_status_lines(st, lines).memory_peak == ({
            let v = trim(trim(lines[j]).skip("Mem peak:"@.len() as int));
            Some(v)
        }),
    decreases lines.len(),
{
    let init = lines.drop_last();
    let n = lines.len() - 1;
    assert(lines.last() == lines[n]);
    lemma_line_effect(apply_status_lines(st, init), lines[n]);
    if j < n {
        assert forall|k: int| j < k < init.len() implies !starts_with(
            trim(#[trigger] init[k]),
            "Mem peak:"@,
        ) by {
            assert(init[k] == lines[k]);
        }
        assert(init[j] == lines[j]);
        lemma_lines_memory_peak_last(st, init, j);
        assert(!starts_with(trim(lines[n]), "Mem peak:"@));
    }
}

/// The peak memory is the rest of the last line that starts with "Mem peak:"
/// (lines trimmed), itself trimmed; none when there is no such line.
pub proof fn lemma_status_memory_peak(text: Seq<char>)
    ensures
        (forall|k: int|
            0 <= k < split_lines(text).len() ==> !starts_with(
                trim(#[trigger] split_lines(text)[k]),
                "Mem peak:"@,
            )) ==> parsed_status(text).memory_peak == None::<Seq<char>>,
        forall|j: int|
            0 <= j < split_lines(text).len() && starts_with(
                trim(#[trigger] split_lines(text)[j]),
                "Mem peak:"@,
            ) && (forall|k: int|
                j < k < split_lines(text).len() ==> !starts_with(
                    trim(#[trigger] split_lines(text)[k]),
                    "Mem peak:"@,
                )) ==> parsed_status(text).memory_peak == ({
                let v = trim(trim(split_lines(text)[j]).skip("Mem peak:"@.len() as int));
                Some(v)
            }),
{
    let lines = split_lines(text);
    if forall|k: int| 0 <= k < lines.len() ==> !starts_with(trim(#[trigger] lines[k]), "Mem peak:"@) {
        lemma_lines_memory_peak_absent(blank_status(text), lines);
    }
    assert forall|j: int|
        0 <= j < lines.len() && starts_with(trim(#[trigger] lines[j]), "Mem peak:"@) && (forall|k: int|
            j < k < lines.len() ==> !starts_with(trim(#[trigger] lines[k]), "Mem peak:"@)) implies parsed_status(text).memory_peak
        == ({
        let v = trim(trim(lines[j]).skip("Mem peak:"@.len() as int));
        Some(v)
    }) by {
        lemma_lines_memory_peak_last(blank_status(text), lines, j);
    }
}

proof fn lemma_lines_cpu_time_absent(st: DockerStatusView, lines: Seq<Seq<char>>)
    requires
        forall|k: int| 0 <= k < lines.len() ==> !starts_with(trim(#[trigger] lines[k]), "CPU:"@),
    ensures
        apply_status_lines(st, lines).cpu_time == st.cpu_time,
    decreases lines.len(),
{
    if lines.len() > 0 {
        let init = lines.drop_last();
        assert forall|k: int| 0 <= k < init.len() implies !starts_with(
            trim(#[trigger] init[k]),
            "CPU:"@,
        ) by {
            assert(init[k] == lines[k]);
        }
        lemma_lines_cpu_time_absent(st, init);
        assert(!starts_with(trim(lines[lines.len() - 1]), "CPU:"@));
        lemma_line_effect(apply_status_lines(st, init), lines.last());
    }
}

proof fn lemma_lines_cpu_time_last(st: DockerStatusView, lines: Seq<Seq<char>>, j: int)
    requires
        0 <= j < lines.len(),
        starts_with(trim(lines[j]), "CPU:"@),
        forall|k: int| j < k < lines.len() ==> !starts_with(trim(#[trigger] lines[k]), "CPU:"@),
    ensures
        apply_status_lines(st, lines).cpu_time == ({
            let v = trim(trim(lines[j]).skip("CPU:"@.len() as int));
            Some(v)
        }),
    decreases lines.len(),
{
    let init = lines.drop_last();
    let n = lines.len() - 1;
    assert(lines.last() == lines[n]);
    lemma_line_effect(apply_status_lines(st, init), lines[n]);
    if j < n {
        assert forall|k: int| j < k < init.len() implies !starts_with(
            trim(#[trigger] init[k]),
            "CPU:"@,
        ) by {
            assert(init[k] == lines[k]);
        }
        assert(init[j] == lines[j]);
        lemma_lines_cpu_time_last(st, init, j);
        assert(!starts_with(trim(lines[n]), "CPU:"@));
    }
}

/// The CPU time is the whole rest of the last line that starts with "CPU:"
/// (lines trimmed), itself trimmed; none when there is no such line.
pub proof fn lemma_status_cpu_time(text: Seq<char>)
    ensures
        (forall|k: int|
            0 <= k < split_lines(text).len() ==> !starts_with(
                trim(#[trigger] split_lines(text)[k]),
                "CPU:"@,
            )) ==> parsed_status(text).cpu_time == None::<Seq<char>>,
        forall|j: int|
            0 <= j < split_lines(text).len() && starts_with(
                trim(#[trigger] split_lines(text)[j]),
                "CPU:"@,
            ) && (forall|k: int|
                j < k < split_lines(text).len() ==> !starts_with(
                    trim(#[trigger] split_lines(text)[k]),
                    "CPU:"@,
                )) ==> parsed_status(text).cpu_time == ({
                let v = trim(trim(split_lines(text)[j]).skip("CPU:"@.len() as int));
                Some(v)
            }),
{
    let lines = split_lines(text);
    if forall|k: int| 0 <= k < lines.len() ==> !starts_with(trim(#[trigger] lines[k]), "CPU:"@) {
        lemma_lines_cpu_time_absent(blank_status(text), lines);
    }
    assert forall|j: int|
        0 <= j < lines.len() && starts_with(trim(#[trigger] lines[j]), "CPU:"@) && (forall|k: int|
            j < k < lines.len() ==> !starts_with(trim(#[trigger] lines[k]), "CPU:"@)) implies parsed_status(text).cpu_time
        == ({
        let v = trim(trim(lines[j]).skip("CPU:"@.len() as int));
        Some(v)
    }) by {
        lemma_lines_cpu_time_last(blank_status(text), lines, j);
    }
}

/// The daemon counts as active exactly when the "Active" value of its
/// status reads "active (running)"; the raw output is the whole text.
pub proof fn lemma_status_consistent(text: Seq<char>)
    ensures
        parsed_status(text).is_active == contains(
            parsed_status(text).active_state,
            "active (running)"@,
        ),
        parsed_status(text).raw_output == text,
{
    reveal_strlit("active (running)");
    let p = "active (running)"@;
    assert forall|i: int| !#[trigger] occurs_at(seq![], p, i) by {}
    lemma_status_lines_consistent(blank_status(text), split_lines(text));
}

impl Docker {
    /// The value of a "Key: Value" line, if the line starts with `key`.
    pub fn parse_line_value(line: &str, key: &str) -> (r: Option<String>)
        ensures
            opt_text(r) == line_value(line@, key@),
    {
        match strip_prefix_str(line, key) {
            Some(rest) => Some(trim_str(rest.as_str())),
            None => None,
        }
    }

    fn apply_line(st: &mut DockerStatus, line: &str)
        ensures
            final(st)@ == apply_status_line(old(st)@, line@),
    {
        let t = trim_str(line);
        if let Some(v) = Self::parse_line_value(t.as_str(), "Active:") {
            let running = contains_str(v.as_str(), "active (running)");
            st.active_state = v;
            st.is_active = running;
        } else if let Some(v) = Self::parse_line_value(t.as_str(), "Loaded:") {
            st.loaded_state = v;
        } else if let Some(v) = Self::parse_line_value(t.as_str(), "Main PID:") {
            let pid = match first_word_str(v.as_str()) {
                Some(w) => parse_u32_str(w.as_str()),
                None => None,
            };
            st.main_pid = pid;
        } else if let Some(v) = Self::parse_line_value(t.as_str(), "Mem peak:") {
            st.memory_peak = Some(v);
        } else if let Some(v) = Self::parse_line_value(t.as_str(), "CPU:") {
            st.cpu_time = Some(v);
        }
    }

    /// Reads the status from the text that `systemctl status` printed.
    pub fn parse_status(text: &str) -> (st: DockerStatus)
        ensures
            st@ == parsed_status(text@),
    {
        let v = chars_of(text);
        let n = v.len();
        let mut st = DockerStatus {
            raw_output: String::from_str(text),
            active_state: String::new(),
            is_active: false,
            loaded_state: String::new(),
            main_pid: None,
            memory_peak: None,
            cpu_time: None,
        };
        let ghost init = blank_status(text@);
        let mut start: usize = 0;
        let mut i: usize = 0;
        proof {
            assert(text@.take(0) =~= seq![]);
            assert(split_lines(text@.take(0)).drop_last() =~= seq![]);
            assert(text@.subrange(0, 0) =~= seq![]);
        }
        while i < n
            invariant
                start <= i <= n,
                n == v@.len(),
                v@ == text@,
                st@ == apply_status_lines(init, split_lines(text@.take(i as int)).drop_last()),
                split_lines(text@.take(i as int)).last() == text@.subrange(start as int, i as int),
            decreases n - i,
        {
            let ghost lines = split_lines(text@.take(i as int));
            proof {
                lemma_split_lines_step(text@, i as int);
                lemma_split_lines_nonempty(text@.take(i as int));
            }
            if v[i] == '\n' {
                let line = substring(text, start, i);
                Self::apply_line(&mut st, line.as_str());
                proof {
                    let next = lines.push(seq![]);
                    assert(next.drop_last() =~= lines);
                    assert(lines.drop_last().push(lines.last()) =~= lines);
                    assert(text@.subrange(i + 1, i + 1) =~= seq![]);
                }
                start = i + 1;
            } else {
                proof {
                    let next = lines.update(lines.len() - 1, lines.last().push(v@[i as int]));
                    assert(next.drop_last() =~= lines.drop_last());
                    assert(text@.subrange(start as int, i + 1) =~= text@.subrange(
                        start as int,
                        i as int,
                    ).push(text@[i as int]));
                }
            }
            i = i + 1;
        }
        let line = substring(text, start, n);
        Self::apply_line(&mut st, line.as_str());
        proof {
            let lines = split_lines(text@.take(n as int));
            lemma_split_lines_nonempty(text@.take(n as int));
            assert(text@.take(n as int) =~= text@);
            assert(lines.drop_last().push(lines.last()) =~= lines);
        }
        st
    }

    /// The first command that runs `cmd` with `args` as root: through
    /// `pkexec`, which asks for authorization in a dialog. When it fails,
    /// [`Docker::after_pkexec`] gives the `sudo` command to run instead.
    pub fn run_as_root(cmd: &str, args: Vec<String>) -> (inv: Invocation)
        ensures
            inv@ == root_invocation(cmd@, strings_view(args@)),
    {
        let mut all: Vec<String> = Vec::new();
        push_text(&mut all, cmd);
        let mut i: usize = 0;
        while i < args.len()
            invariant
                i <= args@.len(),
                strings_view(all@) == seq![cmd@] + strings_view(args@).take(i as int),
            decreases args@.len() - i,
        {
            push_text(&mut all, args[i].as_str());
            proof {
                assert(strings_view(args@).take(i + 1) =~= strings_view(args@).take(
                    i as int,
                ).push(args@[i as int]@));
                assert(seq![cmd@] + strings_view(args@).take(i + 1) =~= (seq![cmd@]
                    + strings_view(args@).take(i as int)).push(args@[i as int]@));
            }
            i = i + 1;
        }
        assert(strings_view(args@).take(i as int) =~= strings_view(args@));
        Invocation { program: String::from_str(ROOT_RUNNER), args: all }
    }

    /// What follows the `pkexec` attempt `attempt`, given what running it
    /// gave: done when it succeeded; otherwise (it failed, or could not
    /// start) the same command through `sudo`, to run next.
    pub fn after_pkexec(attempt: &Invocation, run: Result<CommandOutput, std::io::Error>) -> (step:
        RootStep)
        ensures
            (run matches Ok(o) && o.success) ==> step matches RootStep::Succeeded,
            !(run matches Ok(o) && o.success) ==> (step matches RootStep::Fallback(inv) && inv@
                == (InvocationView { program: FALLBACK_ROOT_RUNNER@, args: attempt@.args })),
            forall|cmd: Seq<char>, args: Seq<Seq<char>>|
                attempt@ == root_invocation(cmd, args) && !(run matches Ok(o) && o.success) ==> (
                step matches RootStep::Fallback(inv) && inv@ == sudo_invocation(cmd, args)),
    {
        let succeeded = match &run {
            Ok(o) => o.success,
            Err(_) => false,
        };
        if succeeded {
            RootStep::Succeeded
        } else {
            let mut args: Vec<String> = Vec::new();
            let mut i: usize = 0;
            while i < attempt.args.len()
                invariant
                    i <= attempt.args@.len(),
                    strings_view(args@) == strings_view(attempt.args@).take(i as int),
                decreases attempt.args@.len() - i,
            {
                push_text(&mut args, attempt.args[i].as_str());
                assert(strings_view(attempt.args@).take(i + 1) =~= strings_view(attempt.args@).take(
                    i as int,
                ).push(attempt.args@[i as int]@));
                i = i + 1;
            }
            assert(strings_view(attempt.args@).take(i as int) =~= strings_view(attempt.args@));
            RootStep::Fallback(Invocation { program: String::from_str(FALLBACK_ROOT_RUNNER), args })
        }
    }

    /// The outcome of the root command from what running its `sudo`
    /// fallback gave: success, the failure with its exit code and error
    /// output, or the error that kept it from starting.
    pub fn root_outcome(run: Result<CommandOutput, std::io::Error>) -> (r: Result<(), DockerError>)
        ensures
            root_outcome_spec(run, r),
    {
        match run {
            Ok(o) => {
                if o.success {
                    Ok(())
                } else {
                    let stderr = decode_lossy(o.stderr.as_slice());
                    Err(DockerError::Failed { code: o.code, stderr })
                }
            },
            Err(e) => Err(DockerError::Io(e)),
        }
    }

    /// Starts the daemon: `systemctl start docker`, as root (the `pkexec`
    /// attempt; see [`Docker::after_pkexec`] for the `sudo` fallback).
    pub fn start() -> (inv: Invocation)
        ensures
            inv@ == root_command(seq!["start"@, SERVICE@]),
    {
        let mut args: Vec<String> = Vec::new();
        push_text(&mut args, "start");
        push_text(&mut args, SERVICE);
        proof {
            assert(strings_view(args@) =~= seq!["start"@, SERVICE@]);
        }
        Self::run_as_root(SYSTEMCTL, args)
    }

    /// Stops the daemon: `systemctl stop docker`, as root (the `pkexec`
    /// attempt; see [`Docker::after_pkexec`] for the `sudo` fallback).
    pub fn stop() -> (inv: Invocation)
        ensures
            inv@ == root_command(seq!["stop"@, SERVICE@]),
    {
        let mut args: Vec<String> = Vec::new();
        push_text(&mut args, "stop");
        push_text(&mut args, SERVICE);
        proof {
            assert(strings_view(args@) =~= seq!["stop"@, SERVICE@]);
        }
        Self::run_as_root(SYSTEMCTL, args)
    }

    /// Toggles the daemon: stops it if it is active, starts it if not, and
    /// passes on the error of the status query.
    pub fn toggle(active: Result<bool, DockerError>) -> (r: Result<Invocation, DockerError>)
        ensures
            match active {
                Ok(true) => r matches Ok(inv) && inv@ == root_command(seq!["stop"@, SERVICE@]),
                Ok(false) => r matches Ok(inv) && inv@ == root_command(seq!["start"@, SERVICE@]),
                Err(e) => r matches Err(e2) && e2 == e,
            },
    {
        match active {
            Ok(true) => Ok(Self::stop()),
            Ok(false) => Ok(Self::start()),
            Err(e) => Err(e),
        }
    }

    /// The command that reads the status: `systemctl status docker
    /// --no-pager`, which needs no root.
    pub fn status_command() -> (inv: Invocation)
        ensures
            inv@ == (InvocationView {
                program: SYSTEMCTL@,
                args: seq!["status"@, SERVICE@, "--no-pager"@],
            }),
    {
        let mut args: Vec<String> = Vec::new();
        push_text(&mut args, "status");
        push_text(&mut args, SERVICE);
        push_text(&mut args, "--no-pager");
        proof {
            assert(strings_view(args@) =~= seq!["status"@, SERVICE@, "--no-pager"@]);
        }
        Invocation { program: String::from_str(SYSTEMCTL), args }
    }

    /// The status that the status command gave. Its exit code is not
    /// looked at: `systemctl status` fails for an inactive unit and still
    /// prints the status.
    pub fn status(run: Result<CommandOutput, std::io::Error>) -> (r: Result<DockerStatus, DockerError>)
        ensures
            match run {
                Ok(o) => r matches Ok(st) && st@ == parsed_status(utf8_lossy(o.stdout@)),
                Err(e) => r matches Err(err) && err == DockerError::Io(e),
            },
    {
        match run {
            Ok(o) => {
                let text = decode_lossy(o.stdout.as_slice());
                Ok(Self::parse_status(text.as_str()))
            },
            Err(e) => Err(DockerError::Io(e)),
        }
    }

    /// Whether the daemon is active and running, as the status command tells.
    pub fn is_active(run: Result<CommandOutput, std::io::Error>) -> (r: Result<bool, DockerError>)
        ensures
            match run {
                Ok(o) => r == Ok::<bool, DockerError>(
                    parsed_status(utf8_lossy(o.stdout@)).is_active,
                ),
                Err(e) => r matches Err(err) && err == DockerError::Io(e),
            },
    {
        match Self::status(run) {
            Ok(st) => Ok(st.is_active),
            Err(e) => Err(e),
        }
    }
}

} // verus!
