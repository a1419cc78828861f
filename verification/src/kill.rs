//! Process termination rules: identity checks against PID reuse, protected
//! processes, the system process snapshot and the process-tree walk.
//!
//! A PID can be reused once its process exits, so a PID alone never
//! identifies a process: the creation time and executable path recorded at
//! scan time must still match before anything is terminated.  Critical
//! system processes and this program itself are always refused.  When a
//! tree is terminated, every descendant is checked again against the
//! creation time recorded in the snapshot.
use vstd::prelude::*;

use crate::bytes::{le_u32, le_u64, read_le_u32, read_le_u64};
use crate::detect::{last_segment, last_segment_chars};
use crate::text::{
    ascii_lower_chars, chars_eq, chars_of, digits_value, is_digit, lemma_decimal_digits, lemma_digits_value_grows,
    lemma_digits_value_mono, owned, push_chars, push_decimal, push_str, seq_ascii_lower,
    spec_decimal, spec_trim, string_of, trim_chars,
};
use crate::winutil::{normalize_path_string, spec_normalize_path_string, spec_win32_err, win32_err};

verus! {

// ---------------------------------------------------------------------------
// Creation time parsing
// ---------------------------------------------------------------------------
/// The digits part of an unsigned integer literal: `s` without a leading `+`.
pub open spec fn unsigned_digits(s: Seq<char>) -> Seq<char> {
    if s.len() > 0 && s[0] == '+' {
        s.drop_first()
    } else {
        s
    }
}

/// Whether every character of `d` is a decimal digit.
pub open spec fn all_digits(d: Seq<char>) -> bool {
    forall|i: int| 0 <= i < d.len() ==> is_digit(#[trigger] d[i])
}

/// `u64::from_str`: an optional `+`, then one or more decimal digits whose
/// value fits in a `u64`.
pub open spec fn spec_parse_u64(s: Seq<char>) -> Option<u64> {
    let d = unsigned_digits(s);
    if d.len() > 0 && all_digits(d) && digits_value(d) <= u64::MAX {
        Some(digits_value(d) as u64)
    } else {
        None
    }
}

/// A creation time written out by a scan (`spec_decimal`) parses back to
/// the same value.
pub proof fn lemma_creation_time_round_trip(n: u64)
    ensures
        spec_parse_u64(spec_decimal(n as nat)) == Some(n),
{
    lemma_decimal_digits(n as nat);
    assert(unsigned_digits(spec_decimal(n as nat)) == spec_decimal(n as nat));
}

/// Parses the creation time sent back with a scan result (a FILETIME count
/// in decimal).
pub fn parse_creation_time(raw: &str) -> (res: Result<u64, String>)
    ensures
        match spec_parse_u64(raw@) {
            Some(v) => res == Ok::<u64, String>(v),
            None => res is Err && res->Err_0@ == "无效的进程创建时间："@ + raw@,
        },
{
    let chars = chars_of(raw);
    let mut start: usize = 0;
    if chars.len() > 0 && chars[0] == '+' {
        start = 1;
    }
    let ghost d = unsigned_digits(chars@);
    assert(d == chars@.skip(start as int));
    let mut value: u64 = 0;
    let mut ok = chars.len() > start;
    let mut i = start;
    while i < chars.len()
        invariant
            start <= i <= chars.len(),
            d == chars@.skip(start as int),
            d == unsigned_digits(chars@),
            chars@ == raw@,
            ok ==> (forall|j: int| 0 <= j < i - start ==> is_digit(#[trigger] d[j])),
            ok ==> value as nat == digits_value(d.take(i - start)),
            !ok ==> spec_parse_u64(chars@) is None,
            ok ==> d.len() > 0,
        decreases chars.len() - i,
    {
        if ok {
            let c = chars[i];
            assert(c == d[i - start]);
            if !('0' <= c && c <= '9') {
                assert(!is_digit(d[i - start]));
                assert(!all_digits(d));
                assert(spec_parse_u64(chars@) is None);
                ok = false;
            } else {
                let dv = (c as u32 - '0' as u32) as u64;
                proof {
                    assert(d.take(i - start + 1) =~= d.take(i - start).push(c));
                    lemma_digits_value_grows(d.take(i - start), c);
                }
                let next = value.checked_mul(10);
                let next = match next {
                    None => None,
                    Some(m) => m.checked_add(dv),
                };
                match next {
                    None => {
                        proof {
                            assert(digits_value(d.take(i - start + 1)) > u64::MAX);
                            if all_digits(d) {
                                lemma_digits_value_mono(d, i - start + 1);
                            }
                            assert(spec_parse_u64(chars@) is None);
                        }
                        ok = false;
                    },
                    Some(v) => {
                        value = v;
                    },
                }
            }
        }
        i = i + 1;
    }
    if ok {
        assert(d.take(i - start) =~= d);
        Ok(value)
    } else {
        let mut msg = chars_of("无效的进程创建时间：");
        push_str(&mut msg, raw);
        Err(string_of(&msg))
    }
}

// ---------------------------------------------------------------------------
// Protected processes
// ---------------------------------------------------------------------------
/// Executable names that are never terminated (compared lowercased).
pub open spec fn protected_process_names() -> Seq<Seq<char>> {
    seq![
        "explorer.exe"@,
        "winlogon.exe"@,
        "csrss.exe"@,
        "services.exe"@,
        "lsass.exe"@,
        "smss.exe"@,
        "wininit.exe"@,
        "dwm.exe"@,
        "sihost.exe"@,
        "fontdrvhost.exe"@,
    ]
}

/// Whether the executable at `exe_path` is a protected system process.
pub open spec fn spec_is_protected_process_path(exe_path: Seq<char>) -> bool {
    protected_process_names().contains(seq_ascii_lower(last_segment(exe_path)))
}

/// Exactly the ten critical executables are protected, wherever they lie
/// and however their name is cased: explorer, winlogon, csrss, services,
/// lsass, smss, wininit, dwm, sihost and fontdrvhost (`.exe`).
pub proof fn lemma_critical_processes_are_protected(p: Seq<char>)
    ensures
        seq_ascii_lower(last_segment(p)) == "explorer.exe"@ ==> spec_is_protected_process_path(p),
        seq_ascii_lower(last_segment(p)) == "winlogon.exe"@ ==> spec_is_protected_process_path(p),
        seq_ascii_lower(last_segment(p)) == "csrss.exe"@ ==> spec_is_protected_process_path(p),
        seq_ascii_lower(last_segment(p)) == "services.exe"@ ==> spec_is_protected_process_path(p),
        seq_ascii_lower(last_segment(p)) == "lsass.exe"@ ==> spec_is_protected_process_path(p),
        seq_ascii_lower(last_segment(p)) == "smss.exe"@ ==> spec_is_protected_process_path(p),
        seq_ascii_lower(last_segment(p)) == "wininit.exe"@ ==> spec_is_protected_process_path(p),
        seq_ascii_lower(last_segment(p)) == "dwm.exe"@ ==> spec_is_protected_process_path(p),
        seq_ascii_lower(last_segment(p)) == "sihost.exe"@ ==> spec_is_protected_process_path(p),
        seq_ascii_lower(last_segment(p)) == "fontdrvhost.exe"@ ==> spec_is_protected_process_path(p),
        spec_is_protected_process_path(p) ==> ({
            let n = seq_ascii_lower(last_segment(p));
            n == "explorer.exe"@ || n == "winlogon.exe"@ || n == "csrss.exe"@ || n == "services.exe"@ || n == "lsass.exe"@ || n == "smss.exe"@ || n == "wininit.exe"@ || n == "dwm.exe"@ || n == "sihost.exe"@ || n == "fontdrvhost.exe"@
        }),
{
    let n = seq_ascii_lower(last_segment(p));
    let names = protected_process_names();
    assert(names[0] == "explorer.exe"@);
    assert(names[1] == "winlogon.exe"@);
    assert(names[2] == "csrss.exe"@);
    assert(names[3] == "services.exe"@);
    assert(names[4] == "lsass.exe"@);
    assert(names[5] == "smss.exe"@);
    assert(names[6] == "wininit.exe"@);
    assert(names[7] == "dwm.exe"@);
    assert(names[8] == "sihost.exe"@);
    assert(names[9] == "fontdrvhost.exe"@);
    if names.contains(n) {
        let k = choose|k: int| 0 <= k < names.len() && names[k] == n;
        assert(0 <= k < 10);
    }
}

fn name_is(name: &Vec<char>, lit: &str) -> (res: bool)
    ensures
        res == (name@ == lit@),
{
    let l = chars_of(lit);
    chars_eq(name, &l)
}

/// Whether `exe_path` names one of the critical processes that are always
/// refused.
pub fn is_protected_process_path(exe_path: &str) -> (res: bool)
    ensures
        res == spec_is_protected_process_path(exe_path@),
        seq_ascii_lower(last_segment(exe_path@)) == "explorer.exe"@ ==> res,
        seq_ascii_lower(last_segment(exe_path@)) == "winlogon.exe"@ ==> res,
        seq_ascii_lower(last_segment(exe_path@)) == "csrss.exe"@ ==> res,
        seq_ascii_lower(last_segment(exe_path@)) == "services.exe"@ ==> res,
        seq_ascii_lower(last_segment(exe_path@)) == "lsass.exe"@ ==> res,
        seq_ascii_lower(last_segment(exe_path@)) == "smss.exe"@ ==> res,
        seq_ascii_lower(last_segment(exe_path@)) == "wininit.exe"@ ==> res,
        seq_ascii_lower(last_segment(exe_path@)) == "dwm.exe"@ ==> res,
        seq_ascii_lower(last_segment(exe_path@)) == "sihost.exe"@ ==> res,
        seq_ascii_lower(last_segment(exe_path@)) == "fontdrvhost.exe"@ ==> res,
{
    proof {
        lemma_critical_processes_are_protected(exe_path@);
    }
    let chars = chars_of(exe_path);
    let seg = last_segment_chars(&chars);
    let name = ascii_lower_chars(&seg);
    let r = name_is(&name, "explorer.exe") || name_is(&name, "winlogon.exe") || name_is(
        &name,
        "csrss.exe",
    ) || name_is(&name, "services.exe") || name_is(&name, "lsass.exe") || name_is(
        &name,
        "smss.exe",
    ) || name_is(&name, "wininit.exe") || name_is(&name, "dwm.exe") || name_is(
        &name,
        "sihost.exe",
    ) || name_is(&name, "fontdrvhost.exe");
    proof {
        let names = protected_process_names();
        if r {
            assert(names.contains(name@)) by {
                if name@ == "explorer.exe"@ {
                    assert(names[0] == name@);
                } else if name@ == "winlogon.exe"@ {
                    assert(names[1] == name@);
                } else if name@ == "csrss.exe"@ {
                    assert(names[2] == name@);
                } else if name@ == "services.exe"@ {
                    assert(names[3] == name@);
                } else if name@ == "lsass.exe"@ {
                    assert(names[4] == name@);
                } else if name@ == "smss.exe"@ {
                    assert(names[5] == name@);
                } else if name@ == "wininit.exe"@ {
                    assert(names[6] == name@);
                } else if name@ == "dwm.exe"@ {
                    assert(names[7] == name@);
                } else if name@ == "sihost.exe"@ {
                    assert(names[8] == name@);
                } else {
                    assert(names[9] == name@);
                }
            }
        } else {
            assert(!names.contains(name@)) by {
                if names.contains(name@) {
                    let k = choose|k: int| 0 <= k < names.len() && names[k] == name@;
                    assert(0 <= k < 10);
                }
            }
        }
    }
    r
}

// ---------------------------------------------------------------------------
// Opening a process: identity verification
// ---------------------------------------------------------------------------
/// Why a process could not be opened for termination.
#[derive(Debug, Clone)]
pub enum ProcessOpenError {
    /// The process has already exited.
    Gone,
    /// The process must not be terminated; the message says why.
    Rejected(String),
}

/// The message refusing a system process.
pub open spec fn system_pid_message(pid: u32) -> Seq<char> {
    "拒绝结束系统进程 PID "@ + spec_decimal(pid as nat)
}

/// The checks made before a process is even opened: PID 0 (idle) and 4
/// (System) are refused, and so is this program itself.
pub fn precheck_process(pid: u32, self_pid: u32) -> (res: Result<(), ProcessOpenError>)
    ensures
        (pid == 0 || pid == 4) ==> (res matches Err(ProcessOpenError::Rejected(m)) && m@
            == system_pid_message(pid)),
        !(pid == 0 || pid == 4) && pid == self_pid ==> (res matches Err(
            ProcessOpenError::Rejected(m),
        ) && m@ == "拒绝结束本程序自身"@),
        !(pid == 0 || pid == 4) && pid != self_pid ==> res is Ok,
{
    if pid == 0 || pid == 4 {
        let mut m = chars_of("拒绝结束系统进程 PID ");
        push_decimal(&mut m, pid as u64);
        return Err(ProcessOpenError::Rejected(string_of(&m)));
    }
    if pid == self_pid {
        return Err(ProcessOpenError::Rejected(owned("拒绝结束本程序自身")));
    }
    Ok(())
}

/// How a failed `OpenProcess` is classified: "invalid parameter" (87) and
/// "no such process" (1168) mean the process is gone; anything else
/// rejects the request with the translated error.
pub fn classify_open_failure(pid: u32, code: u32, detail: &str) -> (res: ProcessOpenError)
    ensures
        (code == 87 || code == 1168) ==> res is Gone,
        !(code == 87 || code == 1168) ==> (res matches ProcessOpenError::Rejected(m) && m@
            == "打开进程 "@ + spec_decimal(pid as nat) + " 失败："@ + spec_win32_err(code, detail@)),
{
    if code == 87 || code == 1168 {
        return ProcessOpenError::Gone;
    }
    let mut m = chars_of("打开进程 ");
    push_decimal(&mut m, pid as u64);
    push_str(&mut m, " 失败：");
    let e = win32_err(code, detail);
    push_str(&mut m, e.as_str());
    ProcessOpenError::Rejected(string_of(&m))
}

/// The outcome of the identity checks made on an opened process.
pub open spec fn spec_identity_error(
    pid: u32,
    expected_creation_time: u64,
    expected_exe_path: Option<Seq<char>>,
    current_creation_time: Option<u64>,
    current_exe: Option<Seq<char>>,
) -> Option<Seq<char>> {
    let p = spec_decimal(pid as nat);
    match current_creation_time {
        None => Some("无法读取进程 "@ + p + " 的创建时间，已拒绝结束"@),
        Some(ct) => if ct != expected_creation_time {
            Some("进程 "@ + p + " 已变化（PID 可能被复用），请重新检测后再操作"@)
        } else {
            match current_exe {
                None => Some("无法确认进程 "@ + p + " 的可执行文件路径，已拒绝结束"@),
                Some(exe) => if (match expected_exe_path {
                    Some(expected) => spec_trim(expected).len() == 0
                        || spec_normalize_path_string(exe) != spec_normalize_path_string(
                        expected,
                    ),
                    None => false,
                }) {
                    Some("进程 "@ + p + " 的可执行文件已变化，请重新检测后再操作"@)
                } else if spec_is_protected_process_path(exe) {
                    Some("拒绝结束受保护进程："@ + exe)
                } else {
                    None
                },
            }
        },
    }
}

fn message_with_pid(prefix: &str, pid: u32, suffix: &str) -> (res: String)
    ensures
        res@ == prefix@ + spec_decimal(pid as nat) + suffix@,
{
    crate::text::concat_num(prefix, pid as u64, suffix)
}

/// Checks an opened process against the identity recorded at scan time.
/// `current_creation_time` and `current_exe` are what the opened handle
/// reports (`None` when the query failed).  When `expected_exe_path` is
/// given it must be non-blank and equal to the current executable after
/// normalisation.  A protected executable is always refused.
pub fn check_process_identity(
    pid: u32,
    expected_creation_time: u64,
    expected_exe_path: Option<&str>,
    current_creation_time: Option<u64>,
    current_exe: Option<&str>,
) -> (res: Result<(), String>)
    ensures
        match spec_identity_error(
            pid,
            expected_creation_time,
            match expected_exe_path {
                Some(e) => Some(e@),
                None => None,
            },
            current_creation_time,
            match current_exe {
                Some(e) => Some(e@),
                None => None,
            },
        ) {
            None => res is Ok,
            Some(m) => res is Err && res->Err_0@ == m,
        },
        current_creation_time != Some(expected_creation_time) ==> res is Err,
        current_exe is None ==> res is Err,
        (expected_exe_path is Some && current_exe is Some && (spec_trim(
            expected_exe_path->Some_0@,
        ).len() == 0 || spec_normalize_path_string(current_exe->Some_0@)
            != spec_normalize_path_string(expected_exe_path->Some_0@))) ==> res is Err,
        (current_exe is Some && spec_is_protected_process_path(current_exe->Some_0@)) ==> res is Err,
        (current_creation_time == Some(expected_creation_time) && current_exe is Some
            && !spec_is_protected_process_path(current_exe->Some_0@) && (expected_exe_path is Some
            ==> (spec_trim(expected_exe_path->Some_0@).len() > 0 && spec_normalize_path_string(
            current_exe->Some_0@,
        ) == spec_normalize_path_string(expected_exe_path->Some_0@)))) ==> res is Ok,
{
    let ct = match current_creation_time {
        None => {
            return Err(message_with_pid("无法读取进程 ", pid, " 的创建时间，已拒绝结束"));
        },
        Some(ct) => ct,
    };
    if ct != expected_creation_time {
        return Err(
            message_with_pid("进程 ", pid, " 已变化（PID 可能被复用），请重新检测后再操作"),
        );
    }
    let exe = match current_exe {
        None => {
            return Err(
                message_with_pid("无法确认进程 ", pid, " 的可执行文件路径，已拒绝结束"),
            );
        },
        Some(e) => e,
    };
    match expected_exe_path {
        Some(expected) => {
            let ec = chars_of(expected);
            let trimmed = trim_chars(&ec);
            let mismatch = if trimmed.len() == 0 {
                true
            } else {
                let a = normalize_path_string(exe);
                let b = normalize_path_string(expected);
                !crate::text::str_eq(a.as_str(), b.as_str())
            };
            if mismatch {
                return Err(
                    message_with_pid("进程 ", pid, " 的可执行文件已变化，请重新检测后再操作"),
                );
            }
        },
        None => {},
    }
    if is_protected_process_path(exe) {
        return Err(crate::text::concat2("拒绝结束受保护进程：", exe));
    }
    Ok(())
}

// ---------------------------------------------------------------------------
// What opening a process showed
// ---------------------------------------------------------------------------
/// What opening a process for termination, and querying it, showed.
#[derive(Debug, Clone)]
pub enum ProcessObservation {
    /// `OpenProcess` failed with this Win32 error code and message.
    OpenFailed(u32, String),
    /// The process was opened; these are the creation time and executable
    /// path its handle reports (`None` where the query failed).
    Opened(Option<u64>, Option<String>),
}

/// The verdict on a process before termination: `Ok(true)` when it may be
/// terminated, `Ok(false)` when it has already exited, `Err(message)` when
/// it must not be terminated.  PID 0 and 4 and this program itself are
/// refused before anything else; an open that failed with 87 or 1168 means
/// the process is gone; an opened process must pass the identity checks.
pub open spec fn spec_open_verdict(
    pid: u32,
    expected_creation_time: u64,
    expected_exe_path: Option<Seq<char>>,
    own_pid: u32,
    obs: ProcessObservation,
) -> Result<bool, Seq<char>> {
    if pid == 0 || pid == 4 {
        Err(system_pid_message(pid))
    } else if pid == own_pid {
        Err("拒绝结束本程序自身"@)
    } else {
        match obs {
            ProcessObservation::OpenFailed(code, detail) => if code == 87 || code == 1168 {
                Ok(false)
            } else {
                Err(
                    "打开进程 "@ + spec_decimal(pid as nat) + " 失败："@ + spec_win32_err(
                        code,
                        detail@,
                    ),
                )
            },
            ProcessObservation::Opened(ct, exe) => match spec_identity_error(
                pid,
                expected_creation_time,
                expected_exe_path,
                ct,
                match exe {
                    Some(e) => Some(e@),
                    None => None,
                },
            ) {
                Some(m) => Err(m),
                None => Ok(true),
            },
        }
    }
}

/// The verdict on a process as an `OpenOutcome` (see `spec_open_verdict`).
pub fn verify_process(
    pid: u32,
    expected_creation_time: u64,
    expected_exe_path: Option<&str>,
    own_pid: u32,
    obs: &ProcessObservation,
) -> (res: OpenOutcome)
    ensures
        match spec_open_verdict(
            pid,
            expected_creation_time,
            match expected_exe_path {
                Some(e) => Some(e@),
                None => None,
            },
            own_pid,
            *obs,
        ) {
            Ok(true) => res is Verified,
            Ok(false) => res is Gone,
            Err(m) => res matches OpenOutcome::Rejected(e) && e@ == m,
        },
{
    match precheck_process(pid, own_pid) {
        Err(ProcessOpenError::Rejected(m)) => {
            return OpenOutcome::Rejected(m);
        },
        Err(ProcessOpenError::Gone) => {
            return OpenOutcome::Gone;
        },
        Ok(()) => {},
    }
    match obs {
        ProcessObservation::OpenFailed(code, detail) => match classify_open_failure(
            pid,
            *code,
            detail.as_str(),
        ) {
            ProcessOpenError::Gone => OpenOutcome::Gone,
            ProcessOpenError::Rejected(m) => OpenOutcome::Rejected(m),
        },
        ProcessObservation::Opened(ct, exe) => {
            let current_exe = match exe {
                Some(e) => Some(e.as_str()),
                None => None,
            };
            match check_process_identity(
                pid,
                expected_creation_time,
                expected_exe_path,
                *ct,
                current_exe,
            ) {
                Ok(()) => OpenOutcome::Verified,
                Err(m) => OpenOutcome::Rejected(m),
            }
        },
    }
}

// ---------------------------------------------------------------------------
// Terminating one process
// ---------------------------------------------------------------------------
/// The decision on a request to terminate one process, and its result.
#[derive(Debug)]
pub struct KillDecision {
    /// Whether the process passed every check and is to be terminated.
    pub terminate: bool,
    /// The result of the request: with `terminate`, what terminating it
    /// returned (or that no termination was reported).
    pub result: Result<(), String>,
}

/// The message for a termination that was due but not reported.
pub open spec fn not_attempted_message() -> Seq<char> {
    "未尝试结束"@
}

/// Terminates one process whose identity was recorded at scan time.  The
/// recorded creation time must parse; `obs` is what opening the process
/// showed (see `spec_open_verdict`, with the recorded executable path
/// required to match); `termination` is what terminating it returned, once
/// it has been terminated.  `Ok` means that the process had already exited,
/// or that it passed every check and its termination succeeded.
pub fn kill_process(
    pid: u32,
    creation_time: String,
    exe_path: String,
    own_pid: u32,
    obs: &ProcessObservation,
    termination: &Option<Result<(), String>>,
) -> (res: KillDecision)
    ensures
        match spec_parse_u64(creation_time@) {
            None => !res.terminate && res.result is Err && res.result->Err_0@
                == "无效的进程创建时间："@ + creation_time@,
            Some(ct) => match spec_open_verdict(pid, ct, Some(exe_path@), own_pid, *obs) {
                Err(m) => !res.terminate && res.result is Err && res.result->Err_0@ == m,
                Ok(false) => !res.terminate && res.result is Ok,
                Ok(true) => res.terminate && match *termination {
                    Some(Ok(_)) => res.result is Ok,
                    Some(Err(e)) => res.result is Err && res.result->Err_0@ == e@,
                    None => res.result is Err && res.result->Err_0@ == not_attempted_message(),
                },
            },
        },
{
    let expected = match parse_creation_time(creation_time.as_str()) {
        Ok(t) => t,
        Err(e) => {
            return KillDecision { terminate: false, result: Err(e) };
        },
    };
    match verify_process(pid, expected, Some(exe_path.as_str()), own_pid, obs) {
        OpenOutcome::Gone => KillDecision { terminate: false, result: Ok(()) },
        OpenOutcome::Rejected(m) => KillDecision { terminate: false, result: Err(m) },
        OpenOutcome::Verified => {
            let result = match termination {
                Some(Ok(())) => Ok(()),
                Some(Err(e)) => Err(e.clone()),
                None => Err(owned("未尝试结束")),
            };
            proof {
                reveal_strlit("未尝试结束");
            }
            KillDecision { terminate: true, result }
        },
    }
}

/// A process is cleared for termination only when it is what the scan
/// recorded: same creation time, and (when an executable path was recorded)
/// a non-blank recorded path equal to the current executable after
/// normalisation; a protected executable is never cleared.  Conversely a
/// matching, unprotected process that is not PID 0 or 4 nor this program
/// is cleared.
pub proof fn lemma_verdict_follows_identity(
    pid: u32,
    expected_creation_time: u64,
    expected_exe: Option<Seq<char>>,
    own_pid: u32,
    current_creation_time: Option<u64>,
    current_exe: Option<String>,
)
    ensures
        ({
            let v = spec_open_verdict(
                pid,
                expected_creation_time,
                expected_exe,
                own_pid,
                ProcessObservation::Opened(current_creation_time, current_exe),
            );
            let matching = current_creation_time == Some(expected_creation_time)
                && current_exe is Some && !spec_is_protected_process_path(current_exe->Some_0@) && (
            expected_exe is Some ==> (spec_trim(expected_exe->Some_0).len() > 0
                && spec_normalize_path_string(current_exe->Some_0@) == spec_normalize_path_string(
                expected_exe->Some_0,
            )));
            &&& v == Ok::<bool, Seq<char>>(true) <==> (pid != 0 && pid != 4 && pid != own_pid
                && matching)
            &&& v != Ok::<bool, Seq<char>>(false)
        }),
{
}

/// An executable that changed since the scan is refused with the message
/// that says so (the creation time matching).
pub proof fn lemma_changed_executable_is_refused(
    pid: u32,
    t: u64,
    expected: Seq<char>,
    own_pid: u32,
    exe: String,
)
    requires
        pid != 0 && pid != 4 && pid != own_pid,
        spec_trim(expected).len() > 0,
        spec_normalize_path_string(exe@) != spec_normalize_path_string(expected),
    ensures
        spec_open_verdict(pid, t, Some(expected), own_pid, ProcessObservation::Opened(Some(t), Some(exe)))
            == Err::<bool, Seq<char>>(
            "进程 "@ + spec_decimal(pid as nat) + " 的可执行文件已变化，请重新检测后再操作"@,
        ),
{
}

/// The ten critical executables are refused, with the message naming the
/// executable, even when the process is otherwise the one recorded.
pub proof fn lemma_critical_process_is_refused(
    pid: u32,
    t: u64,
    expected: Seq<char>,
    own_pid: u32,
    exe: String,
)
    requires
        pid != 0 && pid != 4 && pid != own_pid,
        spec_trim(expected).len() > 0,
        spec_normalize_path_string(exe@) == spec_normalize_path_string(expected),
        seq_ascii_lower(last_segment(exe@)) == "explorer.exe"@ || seq_ascii_lower(last_segment(exe@)) == "winlogon.exe"@ || seq_ascii_lower(last_segment(exe@)) == "csrss.exe"@ || seq_ascii_lower(last_segment(exe@)) == "services.exe"@ || seq_ascii_lower(last_segment(exe@)) == "lsass.exe"@ || seq_ascii_lower(last_segment(exe@)) == "smss.exe"@ || seq_ascii_lower(last_segment(exe@)) == "wininit.exe"@ || seq_ascii_lower(last_segment(exe@)) == "dwm.exe"@ || seq_ascii_lower(last_segment(exe@)) == "sihost.exe"@ || seq_ascii_lower(last_segment(exe@)) == "fontdrvhost.exe"@,
    ensures
        spec_open_verdict(pid, t, Some(expected), own_pid, ProcessObservation::Opened(Some(t), Some(exe)))
            == Err::<bool, Seq<char>>("拒绝结束受保护进程："@ + exe@),
{
    lemma_critical_processes_are_protected(exe@);
}

/// A request to terminate one process terminates it only when the process
/// passed every check: the recorded creation time parses, and what opening
/// it showed clears it (see `lemma_verdict_follows_identity`); a process
/// found gone, or refused, is never terminated.
pub proof fn lemma_kill_terminates_only_cleared(
    creation_time: Seq<char>,
    pid: u32,
    exe_path: Seq<char>,
    own_pid: u32,
    obs: ProcessObservation,
    d: KillDecision,
)
    requires
        match spec_parse_u64(creation_time) {
            None => !d.terminate,
            Some(ct) => match spec_open_verdict(pid, ct, Some(exe_path), own_pid, obs) {
                Ok(true) => d.terminate,
                _ => !d.terminate,
            },
        },
    ensures
        d.terminate ==> {
            &&& spec_parse_u64(creation_time) is Some
            &&& obs is Opened
            &&& obs->Opened_0 == Some(spec_parse_u64(creation_time)->Some_0)
            &&& obs->Opened_1 is Some
            &&& pid != 0 && pid != 4 && pid != own_pid
            &&& !spec_is_protected_process_path(obs->Opened_1->Some_0@)
            &&& spec_trim(exe_path).len() > 0
            &&& spec_normalize_path_string(obs->Opened_1->Some_0@) == spec_normalize_path_string(
                exe_path,
            )
        },
{
    if d.terminate {
        let t = spec_parse_u64(creation_time)->Some_0;
        match obs {
            ProcessObservation::Opened(ct, x) => {
                lemma_verdict_follows_identity(pid, t, Some(exe_path), own_pid, ct, x);
            },
            ProcessObservation::OpenFailed(_, _) => {},
        }
    }
}

// ---------------------------------------------------------------------------
// Terminating a verified process
// ---------------------------------------------------------------------------
/// Exit code reported for a process that is still running.
pub const STILL_ACTIVE: u32 = 259;

/// Number of 100 ms waits for a terminated process to exit.
pub const TERMINATE_WAITS: u32 = 30;

/// Whether an exit-code query shows that the process has exited.
pub fn has_exited(query_ok: bool, exit_code: u32) -> (res: bool)
    ensures
        res == (query_ok && exit_code != STILL_ACTIVE),
{
    query_ok && exit_code != STILL_ACTIVE
}

/// The error for a failed `TerminateProcess`: "no such process" (1168)
/// means it already exited.
pub fn terminate_failure_message(pid: u32, code: u32, detail: &str) -> (res: String)
    ensures
        code == 1168 ==> res@ == "进程已退出"@,
        code != 1168 ==> res@ == "结束进程 "@ + spec_decimal(pid as nat) + " 失败："@
            + spec_win32_err(code, detail@),
{
    if code == 1168 {
        return owned("进程已退出");
    }
    let mut m = chars_of("结束进程 ");
    push_decimal(&mut m, pid as u64);
    push_str(&mut m, " 失败：");
    let e = win32_err(code, detail);
    push_str(&mut m, e.as_str());
    string_of(&m)
}

/// What one wait on a terminated process returned.
#[derive(Debug, Clone, Copy, PartialEq, Eq, Structural)]
pub enum WaitResult {
    /// The process handle was signalled: it exited.
    Signaled,
    /// The wait itself failed.
    Failed,
    /// The wait timed out.
    TimedOut,
}

/// Decision after wait number `attempt` (from 0): done with `Ok` once the
/// process is seen to exit, done with `Err` if the wait failed or the last
/// wait passed without exit, otherwise `None` (wait again).  `exited` is the
/// exit-code check made after a timed-out wait.
pub fn after_wait(pid: u32, attempt: u32, wait: WaitResult, exited: bool) -> (res: Option<
    Result<(), String>,
>)
    ensures
        wait == WaitResult::Signaled ==> res == Some(Ok::<(), String>(())),
        wait == WaitResult::Failed ==> (res matches Some(Err(m)) && m@ == "等待进程 "@
            + spec_decimal(pid as nat) + " 退出失败"@),
        wait == WaitResult::TimedOut && exited ==> res == Some(Ok::<(), String>(())),
        wait == WaitResult::TimedOut && !exited && attempt + 1 >= TERMINATE_WAITS ==> (res matches Some(Err(m))
            && m@ == "结束进程 "@ + spec_decimal(pid as nat)
            + " 的请求已发出，但 3 秒内未确认退出；进程可能受系统保护"@),
        wait == WaitResult::TimedOut && !exited && attempt + 1 < TERMINATE_WAITS ==> res is None,
{
    match wait {
        WaitResult::Signaled => Some(Ok(())),
        WaitResult::Failed => Some(Err(crate::text::concat_num("等待进程 ", pid as u64, " 退出失败"))),
        WaitResult::TimedOut => {
            if exited {
                Some(Ok(()))
            } else if attempt >= TERMINATE_WAITS - 1 {
                Some(
                    Err(
                        crate::text::concat_num(
                            "结束进程 ",
                            pid as u64,
                            " 的请求已发出，但 3 秒内未确认退出；进程可能受系统保护",
                        ),
                    ),
                )
            } else {
                None
            }
        },
    }
}

// ---------------------------------------------------------------------------
// Process snapshot
// ---------------------------------------------------------------------------
/// Stable identity of one process in a system snapshot.
#[derive(Debug, Clone, Copy, PartialEq, Eq, Structural)]
pub struct ProcessSnapshotEntry {
    pub pid: u32,
    pub parent_pid: u32,
    pub creation_time: u64,
}

/// Whether `child` predates the current instance of its parent PID.
///
/// An orphan keeps its old parent PID; if that PID has since been reused,
/// the child was created before the new parent.  Such a child is not taken
/// into the new parent's tree.
pub open spec fn spec_is_descendant_stale(
    child: ProcessSnapshotEntry,
    parent_pid: u32,
    parent_creation_time: u64,
) -> bool {
    child.parent_pid == parent_pid && child.creation_time < parent_creation_time
}

pub fn is_descendant_stale(
    child: &ProcessSnapshotEntry,
    parent_pid: u32,
    parent_creation_time: u64,
) -> (res: bool)
    ensures
        res == spec_is_descendant_stale(*child, parent_pid, parent_creation_time),
{
    child.parent_pid == parent_pid && child.creation_time < parent_creation_time
}

/// Size of the smallest process record in the snapshot buffer.
pub const MIN_ENTRY_SIZE: usize = 96;

/// The record at offset `o`: creation time at +32, PID at +80 and parent
/// PID at +88 (the x64 SYSTEM_PROCESS_INFORMATION layout).
pub open spec fn snapshot_entry_at(b: Seq<u8>, o: int) -> ProcessSnapshotEntry {
    ProcessSnapshotEntry {
        pid: le_u32(b, o + 80) as u32,
        parent_pid: le_u32(b, o + 88) as u32,
        creation_time: le_u64(b, o + 32) as u64,
    }
}

/// Parses the chain of process records starting at offset `o`.  Each record
/// begins with the offset of the next one (0 for the last); a non-zero
/// offset below the minimum record size or past the end of the buffer makes
/// the snapshot malformed (`None`).  Records with PID 0 are skipped; parsing
/// stops when fewer than `MIN_ENTRY_SIZE` bytes are left.
pub open spec fn spec_parse_snapshot(b: Seq<u8>, o: nat) -> Option<Seq<ProcessSnapshotEntry>>
    decreases b.len() - o,
{
    if o + 96 > b.len() {
        Some(Seq::empty())
    } else {
        let next = le_u32(b, o as int);
        if next != 0 && (next < 96 || o + next > b.len()) {
            None
        } else {
            let e = snapshot_entry_at(b, o as int);
            let head = if e.pid > 0 {
                seq![e]
            } else {
                Seq::empty()
            };
            if next == 0 {
                Some(head)
            } else {
                match spec_parse_snapshot(b, o + next) {
                    Some(rest) => Some(head + rest),
                    None => None,
                }
            }
        }
    }
}

/// Parses the raw process snapshot returned by the system into the PID,
/// parent PID and creation time of every process.
pub fn parse_process_snapshot(buf: &[u8]) -> (res: Result<Vec<ProcessSnapshotEntry>, String>)
    ensures
        match spec_parse_snapshot(buf@, 0) {
            Some(entries) => res is Ok && res->Ok_0@ == entries,
            None => res is Err && res->Err_0@ == "进程快照条目边界异常"@,
        },
{
    let mut entries: Vec<ProcessSnapshotEntry> = Vec::new();
    let mut offset: usize = 0;
    while offset <= buf.len() && buf.len() - offset >= MIN_ENTRY_SIZE
        invariant
            offset <= buf@.len(),
            match spec_parse_snapshot(buf@, offset as nat) {
                Some(rest) => spec_parse_snapshot(buf@, 0) == Some(entries@ + rest),
                None => spec_parse_snapshot(buf@, 0) is None,
            },
        decreases buf.len() - offset,
    {
        let next = read_le_u32(buf, offset) as usize;
        if next != 0 && (next < MIN_ENTRY_SIZE || next > buf.len() - offset) {
            return Err(owned("进程快照条目边界异常"));
        }
        let e = ProcessSnapshotEntry {
            pid: read_le_u32(buf, offset + 80),
            parent_pid: read_le_u32(buf, offset + 88),
            creation_time: read_le_u64(buf, offset + 32),
        };
        assert(e == snapshot_entry_at(buf@, offset as int));
        let ghost old_entries = entries@;
        if e.pid > 0 {
            entries.push(e);
        }
        let ghost head = if e.pid > 0 {
            seq![e]
        } else {
            Seq::<ProcessSnapshotEntry>::empty()
        };
        assert(entries@ == old_entries + head);
        if next == 0 {
            assert(spec_parse_snapshot(buf@, offset as nat) == Some(head));
            assert(old_entries + head == entries@);
            return Ok(entries);
        }
        proof {
            match spec_parse_snapshot(buf@, (offset + next) as nat) {
                Some(rest) => {
                    assert(old_entries + (head + rest) == entries@ + rest);
                },
                None => {},
            }
        }
        offset = offset + next;
    }
    assert(spec_parse_snapshot(buf@, offset as nat) == Some(Seq::<ProcessSnapshotEntry>::empty()));
    assert(entries@ + Seq::<ProcessSnapshotEntry>::empty() == entries@);
    Ok(entries)
}

/// The next buffer size to try after the system reported the snapshot did
/// not fit: the size it asked for when that is larger, otherwise double.
/// `None` once the size would exceed 64 MiB.
pub open spec fn spec_next_snapshot_len(len: u32, needed: u32) -> Option<u32> {
    let next: int = if needed > len {
        needed as int
    } else {
        len * 2
    };
    if next > 0x400_0000 {
        None
    } else {
        Some(next as u32)
    }
}

pub fn next_snapshot_len(len: u32, needed: u32) -> (res: Option<u32>)
    ensures
        res == spec_next_snapshot_len(len, needed),
{
    let next: u64 = if needed > len {
        needed as u64
    } else {
        len as u64 * 2
    };
    if next > 0x400_0000 {
        None
    } else {
        Some(next as u32)
    }
}

/// What to do after one query of the process snapshot.
#[derive(Debug, Clone, PartialEq, Eq)]
pub enum SnapshotStep {
    /// Query again with a buffer of this many bytes.
    Retry(u32),
    /// The first `ret` bytes of the buffer hold the snapshot.
    Done,
    Failed(String),
}

/// The message for a failed snapshot query: the NTSTATUS in eight
/// hexadecimal digits.
pub open spec fn snapshot_status_message(status: i32) -> Seq<char> {
    "NtQuerySystemInformation 失败 (NTSTATUS 0x"@ + crate::text::zero_padded(
        crate::text::spec_hex_u64((status as u32) as nat),
        8,
    ) + ")"@
}

/// Decides the next step after a snapshot query with a `len`-byte buffer
/// returned `status` and reported `ret` bytes: a too-small buffer grows
/// (up to the limit), any other failure or an empty answer is an error.
pub fn snapshot_step(len: u32, ret: u32, status: i32) -> (step: SnapshotStep)
    ensures
        status == crate::handle_scan::STATUS_INFO_LENGTH_MISMATCH ==> match spec_next_snapshot_len(
            len,
            ret,
        ) {
            Some(n) => step == SnapshotStep::Retry(n),
            None => step matches SnapshotStep::Failed(m) && m@ == "进程快照过大，无法枚举"@,
        },
        status != crate::handle_scan::STATUS_INFO_LENGTH_MISMATCH && status != 0 ==> (
        step matches SnapshotStep::Failed(m) && m@ == snapshot_status_message(status)),
        status == 0 && ret == 0 ==> (step matches SnapshotStep::Failed(m) && m@
            == "进程快照返回长度无效"@),
        status == 0 && ret != 0 ==> step == SnapshotStep::Done,
{
    if status == crate::handle_scan::STATUS_INFO_LENGTH_MISMATCH {
        return match next_snapshot_len(len, ret) {
            Some(n) => SnapshotStep::Retry(n),
            None => {
                proof {
                    reveal_strlit("进程快照过大，无法枚举");
                }
                SnapshotStep::Failed(owned("进程快照过大，无法枚举"))
            },
        };
    }
    if status != 0 {
        let mut m = chars_of("NtQuerySystemInformation 失败 (NTSTATUS 0x");
        let mut h: Vec<char> = Vec::new();
        crate::text::push_hex(&mut h, status as u32 as u64);
        crate::text::push_zero_padded(&mut m, &h, 8);
        push_str(&mut m, ")");
        proof {
            reveal_strlit("NtQuerySystemInformation 失败 (NTSTATUS 0x");
            reveal_strlit(")");
        }
        return SnapshotStep::Failed(string_of(&m));
    }
    if ret == 0 {
        proof {
            reveal_strlit("进程快照返回长度无效");
        }
        return SnapshotStep::Failed(owned("进程快照返回长度无效"));
    }
    SnapshotStep::Done
}

// ---------------------------------------------------------------------------
// Process tree walk
// ---------------------------------------------------------------------------
/// First snapshot entry with the given PID.
pub open spec fn find_pid(s: Seq<ProcessSnapshotEntry>, pid: u32) -> Option<ProcessSnapshotEntry>
    decreases s.len(),
{
    if s.len() == 0 {
        None
    } else if s[0].pid == pid {
        Some(s[0])
    } else {
        find_pid(s.drop_first(), pid)
    }
}

proof fn lemma_find_pid(s: Seq<ProcessSnapshotEntry>, pid: u32, k: int)
    requires
        0 <= k <= s.len(),
        forall|j: int| 0 <= j < k ==> s[j].pid != pid,
    ensures
        k < s.len() && s[k].pid == pid ==> find_pid(s, pid) == Some(s[k]),
        k == s.len() ==> find_pid(s, pid) is None,
    decreases k,
{
    if k > 0 {
        let t = s.drop_first();
        assert forall|j: int| 0 <= j < k - 1 implies t[j].pid != pid by {
            assert(t[j] == s[j + 1]);
        }
        if k < s.len() {
            assert(t[k - 1] == s[k]);
        }
        lemma_find_pid(t, pid, k - 1);
    }
}

proof fn lemma_find_pid_member(s: Seq<ProcessSnapshotEntry>, pid: u32)
    requires
        find_pid(s, pid) is Some,
    ensures
        s.contains(find_pid(s, pid)->Some_0),
        find_pid(s, pid)->Some_0.pid == pid,
    decreases s.len(),
{
    if s[0].pid != pid {
        lemma_find_pid_member(s.drop_first(), pid);
        let e = find_pid(s, pid)->Some_0;
        let k = choose|k: int| 0 <= k < s.drop_first().len() && s.drop_first()[k] == e;
        assert(s[k + 1] == e);
    } else {
        assert(s[0] == find_pid(s, pid)->Some_0);
    }
}

/// A sequence without repeats whose elements all occur in `b` is no longer
/// than `b`.
proof fn lemma_distinct_len_le(a: Seq<u32>, b: Seq<u32>)
    requires
        a.no_duplicates(),
        forall|i: int| 0 <= i < a.len() ==> b.contains(#[trigger] a[i]),
    ensures
        a.len() <= b.len(),
{
    a.unique_seq_to_set();
    b.lemma_cardinality_of_set();
    vstd::seq_lib::seq_to_set_is_finite(b);
    assert(a.to_set().subset_of(b.to_set())) by {
        assert forall|x: u32| a.to_set().contains(x) implies b.to_set().contains(x) by {
            let i = choose|i: int| 0 <= i < a.len() && a[i] == x;
        }
    }
    vstd::set_lib::lemma_len_subset(a.to_set(), b.to_set());
}

/// Queue position `h` of a descendant search: the ancestor, then the
/// descendants found, in order.
pub open spec fn search_pid(ancestor: u32, found: Seq<u32>, h: int) -> u32 {
    if h == 0 {
        ancestor
    } else {
        found[h - 1]
    }
}

/// Every PID of `found` belongs to a snapshot entry whose parent is the
/// ancestor or an earlier PID of `found`.
pub open spec fn derived_from(snapshot: Seq<ProcessSnapshotEntry>, ancestor: u32, found: Seq<u32>) -> bool {
    forall|i: int|
        0 <= i < found.len() ==> exists|k: int|
            0 <= k < snapshot.len() && snapshot[k].pid == #[trigger] found[i] && (
            snapshot[k].parent_pid == ancestor || exists|j: int|
                0 <= j < i && found[j] == snapshot[k].parent_pid)
}

/// Every snapshot entry whose parent is the ancestor or a PID of `found` is
/// itself in `found`.
pub open spec fn closed_under_children(
    snapshot: Seq<ProcessSnapshotEntry>,
    ancestor: u32,
    found: Seq<u32>,
) -> bool {
    forall|k: int|
        0 <= k < snapshot.len() && (snapshot[k].parent_pid == ancestor || found.contains(
            snapshot[k].parent_pid,
        )) ==> found.contains(#[trigger] snapshot[k].pid)
}

/// `found` is the set of descendants of `ancestor` in the snapshot: each
/// listed once, each reached through parent links, and none left out.
pub open spec fn is_descendant_set(
    snapshot: Seq<ProcessSnapshotEntry>,
    ancestor: u32,
    found: Seq<u32>,
) -> bool {
    &&& found.no_duplicates()
    &&& derived_from(snapshot, ancestor, found)
    &&& closed_under_children(snapshot, ancestor, found)
}

fn contains_u32(v: &Vec<u32>, x: u32) -> (res: bool)
    ensures
        res == v@.contains(x),
{
    let mut i: usize = 0;
    while i < v.len()
        invariant
            i <= v@.len(),
            forall|j: int| 0 <= j < i ==> v@[j] != x,
        decreases v.len() - i,
    {
        if v[i] == x {
            return true;
        }
        i = i + 1;
    }
    false
}

/// The processes of a snapshot that still descend from `ancestor_pid`
/// through parent links, in breadth-first order (`None` when there are
/// none); used to confirm that a tree was taken down.
pub fn descendants_still_alive(snapshot: &Vec<ProcessSnapshotEntry>, ancestor_pid: u32) -> (res:
    Option<Vec<u32>>)
    ensures
        match res {
            None => is_descendant_set(snapshot@, ancestor_pid, Seq::empty()),
            Some(found) => found@.len() > 0 && is_descendant_set(snapshot@, ancestor_pid, found@),
        },
{
    let ghost pids = snapshot@.map_values(|e: ProcessSnapshotEntry| e.pid);
    let mut found: Vec<u32> = Vec::new();
    let mut head: usize = 0;
    loop
        invariant_except_break
            head <= found@.len(),
            found@.len() <= snapshot@.len(),
            pids == snapshot@.map_values(|e: ProcessSnapshotEntry| e.pid),
            found@.no_duplicates(),
            derived_from(snapshot@, ancestor_pid, found@),
            forall|i: int| 0 <= i < found@.len() ==> pids.contains(#[trigger] found@[i]),
            forall|h: int, k: int|
                #![trigger snapshot@[k], search_pid(ancestor_pid, found@, h)]
                0 <= h < head && 0 <= k < snapshot@.len() && snapshot@[k].parent_pid
                    == search_pid(ancestor_pid, found@, h) ==> found@.contains(snapshot@[k].pid),
        ensures
            found@.no_duplicates(),
            derived_from(snapshot@, ancestor_pid, found@),
            forall|h: int, k: int|
                #![trigger snapshot@[k], search_pid(ancestor_pid, found@, h)]
                0 <= h <= found@.len() && 0 <= k < snapshot@.len() && snapshot@[k].parent_pid
                    == search_pid(ancestor_pid, found@, h) ==> found@.contains(snapshot@[k].pid),
        decreases snapshot@.len() - head,
    {
        let cur = if head == 0 {
            ancestor_pid
        } else {
            found[head - 1]
        };
        assert(cur == search_pid(ancestor_pid, found@, head as int));
        let mut k: usize = 0;
        while k < snapshot.len()
            invariant
                head <= found@.len(),
                cur == search_pid(ancestor_pid, found@, head as int),
                k <= snapshot@.len(),
                pids == snapshot@.map_values(|e: ProcessSnapshotEntry| e.pid),
                found@.no_duplicates(),
                derived_from(snapshot@, ancestor_pid, found@),
                forall|i: int| 0 <= i < found@.len() ==> pids.contains(#[trigger] found@[i]),
                forall|h: int, q: int|
                    #![trigger snapshot@[q], search_pid(ancestor_pid, found@, h)]
                    0 <= h < head && 0 <= q < snapshot@.len() && snapshot@[q].parent_pid
                        == search_pid(ancestor_pid, found@, h) ==> found@.contains(snapshot@[q].pid),
                forall|q: int|
                    0 <= q < k && snapshot@[q].parent_pid == cur ==> found@.contains(
                        #[trigger] snapshot@[q].pid,
                    ),
            decreases snapshot@.len() - k,
        {
            let e = snapshot[k];
            if e.parent_pid == cur && !contains_u32(&found, e.pid) {
                let ghost before = found@;
                found.push(e.pid);
                proof {
                    assert forall|a: int, b: int|
                        0 <= a < found@.len() && 0 <= b < found@.len() && a != b implies found@[a]
                        != found@[b] by {
                        if a < before.len() && b < before.len() {
                            assert(before[a] != before[b]);
                        } else if a == before.len() {
                            assert(found@[b] == before[b]);
                        } else {
                            assert(found@[a] == before[a]);
                        }
                    }
                    assert forall|i: int| 0 <= i < found@.len() implies exists|q: int|
                        0 <= q < snapshot@.len() && snapshot@[q].pid == #[trigger] found@[i] && (
                        snapshot@[q].parent_pid == ancestor_pid || exists|j: int|
                            0 <= j < i && found@[j] == snapshot@[q].parent_pid) by {
                        if i < before.len() {
                            assert(found@[i] == before[i]);
                            let q = choose|q: int|
                                0 <= q < snapshot@.len() && snapshot@[q].pid == before[i] && (
                                snapshot@[q].parent_pid == ancestor_pid || exists|j: int|
                                    0 <= j < i && before[j] == snapshot@[q].parent_pid);
                            if snapshot@[q].parent_pid != ancestor_pid {
                                let j = choose|j: int|
                                    0 <= j < i && before[j] == snapshot@[q].parent_pid;
                                assert(found@[j] == before[j]);
                            }
                        } else {
                            assert(snapshot@[k as int].pid == found@[i]);
                            if head > 0 {
                                assert(found@[head - 1] == before[head - 1]);
                                assert(found@[head - 1] == snapshot@[k as int].parent_pid);
                            }
                        }
                    }
                    assert(pids[k as int] == e.pid);
                    assert forall|h: int| 0 <= h <= before.len() implies search_pid(
                        ancestor_pid,
                        found@,
                        h,
                    ) == search_pid(ancestor_pid, before, h) by {
                        if h > 0 {
                            assert(found@[h - 1] == before[h - 1]);
                        }
                    }
                    assert forall|x: u32| before.contains(x) implies found@.contains(x) by {
                        let t = choose|t: int| 0 <= t < before.len() && before[t] == x;
                        assert(found@[t] == x);
                    }
                    assert(found@[before.len() as int] == e.pid);
                    assert forall|h: int, q: int|
                        #![trigger snapshot@[q], search_pid(ancestor_pid, found@, h)]
                        0 <= h < head && 0 <= q < snapshot@.len() && snapshot@[q].parent_pid
                            == search_pid(ancestor_pid, found@, h) implies found@.contains(
                        snapshot@[q].pid,
                    ) by {
                        assert(search_pid(ancestor_pid, found@, h) == search_pid(ancestor_pid, before, h));
                        assert(before.contains(snapshot@[q].pid));
                    }
                    assert forall|q: int|
                        0 <= q < k + 1 && snapshot@[q].parent_pid == cur implies found@.contains(
                        #[trigger] snapshot@[q].pid,
                    ) by {
                        if q < k {
                            assert(before.contains(snapshot@[q].pid));
                        }
                    }
                    assert(cur == search_pid(ancestor_pid, found@, head as int));
                }
            }
            k = k + 1;
        }
        proof {
            assert forall|h: int, q: int|
                #![trigger snapshot@[q], search_pid(ancestor_pid, found@, h)]
                0 <= h < head + 1 && 0 <= q < snapshot@.len() && snapshot@[q].parent_pid
                    == search_pid(ancestor_pid, found@, h) implies found@.contains(snapshot@[q].pid) by {
                if h == head {
                    assert(snapshot@[q].parent_pid == cur);
                }
            }
            lemma_distinct_len_le(found@, pids);
        }
        if head == found.len() {
            break;
        }
        head = head + 1;
    }
    proof {
        assert forall|k: int|
            0 <= k < snapshot@.len() && (snapshot@[k].parent_pid == ancestor_pid || found@.contains(
                snapshot@[k].parent_pid,
            )) implies found@.contains(#[trigger] snapshot@[k].pid) by {
            if snapshot@[k].parent_pid == ancestor_pid {
                assert(search_pid(ancestor_pid, found@, 0) == ancestor_pid);
            } else {
                let j = choose|j: int| 0 <= j < found@.len() && found@[j] == snapshot@[k].parent_pid;
                assert(search_pid(ancestor_pid, found@, j + 1) == found@[j]);
            }
        }
    }
    if found.len() == 0 {
        assert(found@ =~= Seq::<u32>::empty());
        None
    } else {
        Some(found)
    }
}

/// What opening a candidate descendant yielded.
#[derive(Debug, Clone)]
pub enum OpenOutcome {
    /// Opened, and its identity matched the snapshot.
    Verified,
    /// It had already exited.
    Gone,
    /// It must not be terminated; the message says why.
    Rejected(String),
}

/// PID of queue position `i` of a tree walk: the root, then the verified
/// descendants in verification order.
#[verifier::opaque]
pub open spec fn queue_pid_of(root_pid: u32, verified: Seq<ProcessSnapshotEntry>, i: int) -> u32 {
    if i == 0 {
        root_pid
    } else {
        verified[i - 1].pid
    }
}

/// Creation time of queue position `i` of a tree walk.
#[verifier::opaque]
pub open spec fn queue_time_of(root_time: u64, verified: Seq<ProcessSnapshotEntry>, i: int) -> u64 {
    if i == 0 {
        root_time
    } else {
        verified[i - 1].creation_time
    }
}

/// Verified descendant `i` of a walk is a snapshot child of the earlier
/// queue position `parents[i]`, created no earlier than that parent, and is
/// not the root.
pub open spec fn shaped_at(
    snapshot: Seq<ProcessSnapshotEntry>,
    root_pid: u32,
    root_time: u64,
    verified: Seq<ProcessSnapshotEntry>,
    parents: Seq<int>,
    i: int,
) -> bool {
    &&& 0 <= parents[i] <= i
    &&& verified[i].parent_pid == queue_pid_of(root_pid, verified, parents[i])
    &&& verified[i].creation_time >= queue_time_of(root_time, verified, parents[i])
    &&& snapshot.contains(verified[i])
    &&& verified[i].pid != root_pid
}

/// The shape of a walk's result: every verified descendant satisfies
/// `shaped_at`, and no PID repeats.
pub open spec fn tree_shaped_of(
    snapshot: Seq<ProcessSnapshotEntry>,
    root_pid: u32,
    root_time: u64,
    verified: Seq<ProcessSnapshotEntry>,
    parents: Seq<int>,
) -> bool {
    &&& parents.len() == verified.len()
    &&& forall|i: int|
        0 <= i < verified.len() ==> #[trigger] shaped_at(
            snapshot,
            root_pid,
            root_time,
            verified,
            parents,
            i,
        )
    &&& forall|i: int, j: int| 0 <= i < j < verified.len() ==> verified[i].pid != verified[j].pid
}

/// All children of the first `head` queue positions, and the children of
/// queue position `head` among the first `cursor` snapshot entries, have
/// been considered.
pub open spec fn complete_of(
    snapshot: Seq<ProcessSnapshotEntry>,
    root_pid: u32,
    verified: Seq<ProcessSnapshotEntry>,
    seen: Seq<u32>,
    head: int,
    cursor: int,
) -> bool {
    &&& forall|h: int, k: int|
        #![trigger snapshot[k], queue_pid_of(root_pid, verified, h)]
        0 <= h < head && h <= verified.len() && 0 <= k < snapshot.len() && snapshot[k].parent_pid
            == queue_pid_of(root_pid, verified, h) ==> seen.contains(snapshot[k].pid)
    &&& head <= verified.len() ==> forall|k: int|
        #![trigger snapshot[k]]
        0 <= k < cursor && snapshot[k].parent_pid == queue_pid_of(root_pid, verified, head)
            ==> seen.contains(snapshot[k].pid)
}

proof fn lemma_queue_push(root_pid: u32, root_time: u64, v: Seq<ProcessSnapshotEntry>, c: ProcessSnapshotEntry, i: int)
    requires
        0 <= i <= v.len(),
    ensures
        queue_pid_of(root_pid, v.push(c), i) == queue_pid_of(root_pid, v, i),
        queue_time_of(root_time, v.push(c), i) == queue_time_of(root_time, v, i),
{
    reveal(queue_pid_of);
    reveal(queue_time_of);
    if i > 0 {
        assert(v.push(c)[i - 1] == v[i - 1]);
    }
}

/// Whether some snapshot entry with PID `p` is a child of queue position
/// `h` of a walk (the root, then the verified descendants) created before
/// that parent: a stale child, which the walk skips.
pub open spec fn stale_child_pid(
    snapshot: Seq<ProcessSnapshotEntry>,
    root_pid: u32,
    root_time: u64,
    verified: Seq<ProcessSnapshotEntry>,
    p: u32,
) -> bool {
    exists|k: int, h: int|
        #![trigger snapshot[k], queue_pid_of(root_pid, verified, h)]
        0 <= h <= verified.len() && 0 <= k < snapshot.len() && snapshot[k].pid == p
            && snapshot[k].parent_pid == queue_pid_of(root_pid, verified, h)
            && snapshot[k].creation_time < queue_time_of(root_time, verified, h)
}

/// A PID that a walk has considered is the root's, that of a child it
/// handed out, or that of a stale child it skipped.
pub open spec fn seen_explained(
    snapshot: Seq<ProcessSnapshotEntry>,
    root_pid: u32,
    root_time: u64,
    verified: Seq<ProcessSnapshotEntry>,
    taken: Seq<ProcessSnapshotEntry>,
    p: u32,
) -> bool {
    ||| p == root_pid
    ||| exists|j: int| 0 <= j < taken.len() && #[trigger] taken[j].pid == p
    ||| stale_child_pid(snapshot, root_pid, root_time, verified, p)
}

proof fn lemma_stale_push(
    snapshot: Seq<ProcessSnapshotEntry>,
    root_pid: u32,
    root_time: u64,
    verified: Seq<ProcessSnapshotEntry>,
    c: ProcessSnapshotEntry,
    p: u32,
)
    requires
        stale_child_pid(snapshot, root_pid, root_time, verified, p),
    ensures
        stale_child_pid(snapshot, root_pid, root_time, verified.push(c), p),
{
    let (k, h) = choose|k: int, h: int|
        #![trigger snapshot[k], queue_pid_of(root_pid, verified, h)]
        0 <= h <= verified.len() && 0 <= k < snapshot.len() && snapshot[k].pid == p
            && snapshot[k].parent_pid == queue_pid_of(root_pid, verified, h)
            && snapshot[k].creation_time < queue_time_of(root_time, verified, h);
    lemma_queue_push(root_pid, root_time, verified, c, h);
    assert(snapshot[k].parent_pid == queue_pid_of(root_pid, verified.push(c), h));
}

/// Breadth-first collection of the descendants of a verified root process.
///
/// The walk runs over a snapshot of all processes.  Parents are taken in
/// queue order (the root, then each verified descendant in the order it was
/// verified); the children of a parent are the snapshot entries naming it as
/// parent, in snapshot order.  Each PID is considered at most once.  A child
/// created before its parent is skipped as stale.  Every other child is
/// handed out by `next_child` to be opened and verified, and the outcome is
/// reported back with `report`; only verified children are expanded further.
pub struct TreeWalk {
    snapshot: Vec<ProcessSnapshotEntry>,
    root_pid: u32,
    root_creation_time: u64,
    verified: Vec<ProcessSnapshotEntry>,
    parents: Ghost<Seq<int>>,
    root_index: Ghost<int>,
    head: usize,
    cursor: usize,
    seen: Vec<u32>,
    errors: Vec<String>,
    pending: Option<ProcessSnapshotEntry>,
    taken: Ghost<Seq<ProcessSnapshotEntry>>,
}

impl TreeWalk {
    pub closed spec fn snapshot_view(&self) -> Seq<ProcessSnapshotEntry> {
        self.snapshot@
    }

    pub closed spec fn root_pid_view(&self) -> u32 {
        self.root_pid
    }

    pub closed spec fn root_creation_time_view(&self) -> u64 {
        self.root_creation_time
    }

    /// Descendants verified so far, in verification order.
    pub closed spec fn verified_view(&self) -> Seq<ProcessSnapshotEntry> {
        self.verified@
    }

    /// Queue position of the parent of each verified descendant (0 is the
    /// root, `i + 1` is `verified_view()[i]`).
    pub closed spec fn parents_view(&self) -> Seq<int> {
        self.parents@
    }

    /// PIDs considered so far (the root included).
    pub closed spec fn seen_view(&self) -> Seq<u32> {
        self.seen@
    }

    /// Messages of the descendants that were refused.
    pub closed spec fn errors_view(&self) -> Seq<Seq<char>> {
        self.errors@.map_values(|e: String| e@)
    }

    /// The child handed out and not yet reported.
    pub closed spec fn pending_view(&self) -> Option<ProcessSnapshotEntry> {
        self.pending
    }

    /// The children handed out so far, in the order handed out.
    pub closed spec fn taken_view(&self) -> Seq<ProcessSnapshotEntry> {
        self.taken@
    }

    /// Queue position of the parent of the pending child.
    pub closed spec fn pending_parent_index(&self) -> int {
        self.head as int
    }

    pub open spec fn queue_pid(&self, i: int) -> u32 {
        queue_pid_of(self.root_pid_view(), self.verified_view(), i)
    }

    pub open spec fn queue_creation_time(&self, i: int) -> u64 {
        queue_time_of(self.root_creation_time_view(), self.verified_view(), i)
    }

    /// See `tree_shaped_of`.
    pub open spec fn tree_shaped(&self) -> bool {
        tree_shaped_of(
            self.snapshot_view(),
            self.root_pid_view(),
            self.root_creation_time_view(),
            self.verified_view(),
            self.parents_view(),
        )
    }

    /// No child of any queued process is left unconsidered.
    pub open spec fn exhausted(&self) -> bool {
        forall|h: int, k: int|
            #![trigger self.snapshot_view()[k], self.queue_pid(h)]
            0 <= h <= self.verified_view().len() && 0 <= k < self.snapshot_view().len()
                && self.snapshot_view()[k].parent_pid == self.queue_pid(h)
                ==> self.seen_view().contains(self.snapshot_view()[k].pid)
    }

    pub closed spec fn wf(&self) -> bool {
        &&& self.snapshot@.len() <= usize::MAX
        &&& self.head <= self.verified@.len() + 1
        &&& self.cursor <= self.snapshot@.len()
        &&& 0 <= self.root_index@ < self.snapshot@.len()
        &&& self.snapshot@[self.root_index@].pid == self.root_pid
        &&& self.verified@.len() + 1 <= self.snapshot@.len()
        &&& tree_shaped_of(
            self.snapshot@,
            self.root_pid,
            self.root_creation_time,
            self.verified@,
            self.parents@,
        )
        &&& self.seen@.contains(self.root_pid)
        &&& (forall|i: int|
            0 <= i < self.verified@.len() ==> self.seen@.contains(#[trigger] self.verified@[i].pid))
        &&& complete_of(
            self.snapshot@,
            self.root_pid,
            self.verified@,
            self.seen@,
            self.head as int,
            self.cursor as int,
        )
        &&& match self.pending {
            Some(c) => {
                &&& self.head <= self.verified@.len()
                &&& self.snapshot@.contains(c)
                &&& self.seen@.contains(c.pid)
                &&& c.pid != self.root_pid
                &&& forall|i: int|
                    0 <= i < self.verified@.len() ==> #[trigger] self.verified@[i].pid != c.pid
                &&& c.parent_pid == queue_pid_of(self.root_pid, self.verified@, self.head as int)
                &&& c.creation_time >= queue_time_of(
                    self.root_creation_time,
                    self.verified@,
                    self.head as int,
                )
            },
            None => true,
        }
    }

    /// Starts a walk below the root `root_pid`.  The first snapshot entry
    /// with that PID must carry the expected creation time: if it differs
    /// the PID was reused (`Err`); if the root is not in the snapshot it has
    /// exited and there is nothing to walk (`Ok(None)`).
    pub fn start(snapshot: Vec<ProcessSnapshotEntry>, root_pid: u32, root_creation_time: u64) -> (res: Result<Option<TreeWalk>, String>)
        ensures
            match find_pid(snapshot@, root_pid) {
                None => res matches Ok(None),
                Some(e) => if e.creation_time != root_creation_time {
                    res is Err && res->Err_0@
                        == "目标进程已变化（PID 可能被复用），请重新检测后再操作"@
                } else {
                    res matches Ok(Some(w)) && w.wf() && w.snapshot_view() == snapshot@
                        && w.root_pid_view() == root_pid && w.root_creation_time_view()
                        == root_creation_time && w.verified_view().len() == 0
                        && w.errors_view().len() == 0 && w.pending_view() is None
                        && w.taken_view().len() == 0
                        && w.seen_view() == seq![root_pid]
                },
            },
    {
        let mut k: usize = 0;
        while k < snapshot.len() && snapshot[k].pid != root_pid
            invariant
                k <= snapshot@.len(),
                forall|j: int| 0 <= j < k ==> snapshot@[j].pid != root_pid,
            decreases snapshot.len() - k,
        {
            k = k + 1;
        }
        proof {
            lemma_find_pid(snapshot@, root_pid, k as int);
        }
        if k == snapshot.len() {
            return Ok(None);
        }
        if snapshot[k].creation_time != root_creation_time {
            return Err(owned("目标进程已变化（PID 可能被复用），请重新检测后再操作"));
        }
        let mut seen: Vec<u32> = Vec::new();
        seen.push(root_pid);
        assert(seen@[0] == root_pid);
        let w = TreeWalk {
            snapshot,
            root_pid,
            root_creation_time,
            verified: Vec::new(),
            parents: Ghost(Seq::empty()),
            root_index: Ghost(k as int),
            head: 0,
            cursor: 0,
            seen,
            errors: Vec::new(),
            pending: None,
            taken: Ghost(Seq::empty()),
        };
        assert(w.errors_view() =~= Seq::<Seq<char>>::empty());
        Ok(Some(w))
    }

    fn seen_contains(&self, pid: u32) -> (res: bool)
        ensures
            res == self.seen@.contains(pid),
    {
        let mut i: usize = 0;
        while i < self.seen.len()
            invariant
                i <= self.seen@.len(),
                forall|j: int| 0 <= j < i ==> self.seen@[j] != pid,
            decreases self.seen.len() - i,
        {
            if self.seen[i] == pid {
                return true;
            }
            i = i + 1;
        }
        false
    }

    proof fn lemma_exhausted(w: TreeWalk)
        requires
            w.wf(),
            w.head > w.verified@.len(),
        ensures
            w.exhausted(),
    {
        assert forall|h: int, k: int|
            #![trigger w.snapshot_view()[k], w.queue_pid(h)]
            0 <= h <= w.verified_view().len() && 0 <= k < w.snapshot_view().len()
                && w.snapshot_view()[k].parent_pid == w.queue_pid(h)
            implies w.seen_view().contains(w.snapshot_view()[k].pid) by {
            assert(w.snapshot@[k].parent_pid == queue_pid_of(w.root_pid, w.verified@, h));
        }
    }

    /// Hands out the next child to be opened and verified, or `None` when
    /// every child of every queued process has been considered.
    pub fn next_child(&mut self) -> (res: Option<ProcessSnapshotEntry>)
        requires
            old(self).wf(),
            old(self).pending_view() is None,
        ensures
            final(self).wf(),
            final(self).snapshot_view() == old(self).snapshot_view(),
            final(self).root_pid_view() == old(self).root_pid_view(),
            final(self).root_creation_time_view() == old(self).root_creation_time_view(),
            final(self).verified_view() == old(self).verified_view(),
            final(self).parents_view() == old(self).parents_view(),
            final(self).errors_view() == old(self).errors_view(),
            forall|p: u32| old(self).seen_view().contains(p) ==> final(self).seen_view().contains(p),
            final(self).pending_view() == res,
            final(self).taken_view() == match res {
                Some(c) => old(self).taken_view().push(c),
                None => old(self).taken_view(),
            },
            forall|p: u32|
                #![trigger final(self).seen_view().contains(p)]
                final(self).seen_view().contains(p) ==> old(self).seen_view().contains(p) || (
                res matches Some(c) && p == c.pid) || stale_child_pid(
                    final(self).snapshot_view(),
                    final(self).root_pid_view(),
                    final(self).root_creation_time_view(),
                    final(self).verified_view(),
                    p,
                ),
            match res {
                Some(c) => {
                    &&& !old(self).seen_view().contains(c.pid)
                    &&& final(self).seen_view().contains(c.pid)
                    &&& final(self).snapshot_view().contains(c)
                    &&& 0 <= final(self).pending_parent_index() <= final(self).verified_view().len()
                    &&& c.parent_pid == final(self).queue_pid(final(self).pending_parent_index())
                    &&& c.creation_time >= final(self).queue_creation_time(final(self).pending_parent_index())
                },
                None => final(self).exhausted(),
            },
    {
        let ghost seen0 = self.seen@;
        let ghost snap = self.snapshot@;
        let ghost rp = self.root_pid;
        let ghost rt = self.root_creation_time;
        let ghost ver = self.verified@;
        let ghost par = self.parents@;
        let ghost errs = self.errors@;
        let ghost ri = self.root_index@;
        loop
            invariant_except_break
                self.wf(),
                self.pending is None,
                self.snapshot@ == snap,
                self.root_pid == rp,
                self.root_creation_time == rt,
                self.verified@ == ver,
                self.parents@ == par,
                self.errors@ == errs,
                self.root_index@ == ri,
                self.taken@ == old(self).taken@,
                forall|p: u32| seen0.contains(p) ==> self.seen@.contains(p),
                forall|p: u32|
                    #![trigger self.seen@.contains(p)]
                    self.seen@.contains(p) ==> seen0.contains(p) || stale_child_pid(snap, rp, rt, ver, p),
                seen0 == old(self).seen@,
                snap == old(self).snapshot@,
                rp == old(self).root_pid,
                rt == old(self).root_creation_time,
                ver == old(self).verified@,
                par == old(self).parents@,
                errs == old(self).errors@,
            ensures
                self.wf(),
                self.taken@ == old(self).taken@,
                forall|p: u32|
                    #![trigger self.seen@.contains(p)]
                    self.seen@.contains(p) ==> seen0.contains(p) || p == self.pending->Some_0.pid
                        || stale_child_pid(snap, rp, rt, ver, p),
                self.snapshot@ == snap,
                self.root_pid == rp,
                self.root_creation_time == rt,
                self.verified@ == ver,
                self.parents@ == par,
                self.errors@ == errs,
                forall|p: u32| seen0.contains(p) ==> self.seen@.contains(p),
                self.pending is Some,
                !seen0.contains(self.pending->Some_0.pid),
                self.seen@.contains(self.pending->Some_0.pid),
                self.snapshot@.contains(self.pending->Some_0),
                self.head <= self.verified@.len(),
                self.pending->Some_0.parent_pid == queue_pid_of(rp, ver, self.head as int),
                self.pending->Some_0.creation_time >= queue_time_of(rt, ver, self.head as int),
            decreases self.verified@.len() + 1 - self.head, self.snapshot@.len() - self.cursor,
        {
            if self.head > self.verified.len() {
                proof {
                    Self::lemma_exhausted(*self);
                }
                return None;
            }
            if self.cursor >= self.snapshot.len() {
                let ghost h0 = self.head as int;
                proof {
                    assert forall|h: int, k: int|
                        #![trigger snap[k], queue_pid_of(rp, ver, h)]
                        0 <= h < h0 + 1 && h <= ver.len() && 0 <= k < snap.len()
                            && snap[k].parent_pid == queue_pid_of(rp, ver, h)
                    implies self.seen@.contains(snap[k].pid) by {
                        if h == h0 {
                            assert(snap[k].parent_pid == queue_pid_of(rp, ver, h0));
                        }
                    }
                }
                self.head = self.head + 1;
                self.cursor = 0;
                continue;
            }
            let (ppid, pct) = if self.head == 0 {
                (self.root_pid, self.root_creation_time)
            } else {
                (self.verified[self.head - 1].pid, self.verified[self.head - 1].creation_time)
            };
            proof {
                reveal(queue_pid_of);
                reveal(queue_time_of);
            }
            assert(ppid == queue_pid_of(rp, ver, self.head as int));
            assert(pct == queue_time_of(rt, ver, self.head as int));
            let c = self.snapshot[self.cursor];
            let ghost k0 = self.cursor as int;
            let ghost h0 = self.head as int;
            if c.parent_pid != ppid || self.seen_contains(c.pid) {
                proof {
                    assert forall|k: int|
                        #![trigger snap[k]]
                        0 <= k < k0 + 1 && snap[k].parent_pid == queue_pid_of(rp, ver, h0)
                    implies self.seen@.contains(snap[k].pid) by {
                        if k == k0 {
                            assert(snap[k] == c);
                        }
                    }
                }
                self.cursor = self.cursor + 1;
                continue;
            }
            let ghost seen1 = self.seen@;
            self.seen.push(c.pid);
            proof {
                assert forall|p: u32| seen1.contains(p) implies self.seen@.contains(p) by {
                    let i = choose|i: int| 0 <= i < seen1.len() && seen1[i] == p;
                    assert(self.seen@[i] == p);
                }
                assert(self.seen@[seen1.len() as int] == c.pid);
                assert forall|h: int, k: int|
                    #![trigger snap[k], queue_pid_of(rp, ver, h)]
                    0 <= h < h0 && h <= ver.len() && 0 <= k < snap.len()
                        && snap[k].parent_pid == queue_pid_of(rp, ver, h)
                implies self.seen@.contains(snap[k].pid) by {
                    assert(seen1.contains(snap[k].pid));
                }
                assert forall|k: int|
                    #![trigger snap[k]]
                    0 <= k < k0 + 1 && snap[k].parent_pid == queue_pid_of(rp, ver, h0)
                implies self.seen@.contains(snap[k].pid) by {
                    if k < k0 {
                        assert(seen1.contains(snap[k].pid));
                    } else {
                        assert(snap[k] == c);
                    }
                }
                assert forall|i: int| 0 <= i < ver.len() implies #[trigger] ver[i].pid != c.pid by {
                    assert(seen1.contains(ver[i].pid));
                }
                assert forall|i: int| 0 <= i < ver.len() implies self.seen@.contains(#[trigger] ver[i].pid) by {
                    assert(seen1.contains(ver[i].pid));
                }
                assert(snap[k0] == c);
                assert(snap.contains(c));
                assert(c.pid != rp) by {
                    assert(seen1.contains(rp));
                }
            }
            self.cursor = self.cursor + 1;
            proof {
                assert forall|p: u32| self.seen@.contains(p) implies seen1.contains(p) || p == c.pid by {
                    let i = choose|i: int| 0 <= i < self.seen@.len() && self.seen@[i] == p;
                    if i < seen1.len() {
                        assert(seen1[i] == p);
                    }
                }
                assert forall|p: u32| #[trigger] self.seen@.contains(p) && p != c.pid implies seen0.contains(p)
                    || stale_child_pid(snap, rp, rt, ver, p) by {
                    assert(seen1.contains(p));
                }
            }
            if is_descendant_stale(&c, ppid, pct) {
                proof {
                    assert(snap[k0] == c);
                    assert(h0 <= ver.len());
                    assert(stale_child_pid(snap, rp, rt, ver, c.pid)) by {
                        assert(snap[k0].pid == c.pid && snap[k0].parent_pid == queue_pid_of(rp, ver, h0)
                            && snap[k0].creation_time < queue_time_of(rt, ver, h0));
                    }
                    assert forall|p: u32| #[trigger] self.seen@.contains(p) implies seen0.contains(p)
                        || stale_child_pid(snap, rp, rt, ver, p) by {
                        if p != c.pid {
                            assert(self.seen@.contains(p) && p != c.pid);
                        }
                    }
                }
                continue;
            }
            self.pending = Some(c);
            break;
        }
        let ghost c0 = self.pending->Some_0;
        self.taken = Ghost(self.taken@.push(c0));
        self.pending
    }

    /// Records what opening the pending child yielded.  A verified child is
    /// queued so that its own children are walked; a refused one adds
    /// `"<pid>: <reason>"` to the errors.
    pub fn report(&mut self, outcome: OpenOutcome)
        requires
            old(self).wf(),
            old(self).pending_view() is Some,
        ensures
            final(self).wf(),
            final(self).pending_view() is None,
            final(self).snapshot_view() == old(self).snapshot_view(),
            final(self).root_pid_view() == old(self).root_pid_view(),
            final(self).root_creation_time_view() == old(self).root_creation_time_view(),
            final(self).seen_view() == old(self).seen_view(),
            final(self).taken_view() == old(self).taken_view(),
            match outcome {
                OpenOutcome::Verified => {
                    &&& final(self).verified_view() == old(self).verified_view().push(
                        old(self).pending_view()->Some_0,
                    )
                    &&& final(self).parents_view() == old(self).parents_view().push(
                        old(self).pending_parent_index(),
                    )
                    &&& final(self).errors_view() == old(self).errors_view()
                },
                OpenOutcome::Gone => {
                    &&& final(self).verified_view() == old(self).verified_view()
                    &&& final(self).parents_view() == old(self).parents_view()
                    &&& final(self).errors_view() == old(self).errors_view()
                },
                OpenOutcome::Rejected(m) => {
                    &&& final(self).verified_view() == old(self).verified_view()
                    &&& final(self).parents_view() == old(self).parents_view()
                    &&& final(self).errors_view() == old(self).errors_view().push(
                        spec_decimal(old(self).pending_view()->Some_0.pid as nat) + ": "@ + m@,
                    )
                },
            },
    {
        let c = match self.pending {
            Some(c) => c,
            None => {
                return;
            },
        };
        let ghost snap = self.snapshot@;
        let ghost rp = self.root_pid;
        let ghost rt = self.root_creation_time;
        let ghost ver = self.verified@;
        let ghost par = self.parents@;
        let ghost h = self.head as int;
        self.pending = None;
        match outcome {
            OpenOutcome::Verified => {
                proof {
                    Self::lemma_grow(snap, rp, rt, ver, par, c, h, self.root_index@, self.seen@, self.cursor as int);
                }
                self.verified.push(c);
                self.parents = Ghost(par.push(h));
            },
            OpenOutcome::Gone => {},
            OpenOutcome::Rejected(m) => {
                let ghost errs = self.errors@;
                let mut msg: Vec<char> = Vec::new();
                push_decimal(&mut msg, c.pid as u64);
                push_str(&mut msg, ": ");
                push_str(&mut msg, m.as_str());
                self.errors.push(string_of(&msg));
                assert(self.errors@.map_values(|e: String| e@) =~= errs.map_values(
                    |e: String| e@,
                ).push(msg@));
            },
        }
    }

    /// Appending a verified child keeps the walk well formed.
    proof fn lemma_grow(
        snap: Seq<ProcessSnapshotEntry>,
        rp: u32,
        rt: u64,
        ver: Seq<ProcessSnapshotEntry>,
        par: Seq<int>,
        c: ProcessSnapshotEntry,
        h: int,
        ri: int,
        seen: Seq<u32>,
        cursor: int,
    )
        requires
            tree_shaped_of(snap, rp, rt, ver, par),
            0 <= h <= ver.len(),
            0 <= ri < snap.len(),
            snap[ri].pid == rp,
            snap.contains(c),
            c.pid != rp,
            seen.contains(c.pid),
            forall|i: int| 0 <= i < ver.len() ==> #[trigger] ver[i].pid != c.pid,
            c.parent_pid == queue_pid_of(rp, ver, h),
            c.creation_time >= queue_time_of(rt, ver, h),
            complete_of(snap, rp, ver, seen, h, cursor),
        ensures
            tree_shaped_of(snap, rp, rt, ver.push(c), par.push(h)),
            ver.len() + 2 <= snap.len(),
            complete_of(snap, rp, ver.push(c), seen, h, cursor),
    {
        Self::lemma_grow_shape(snap, rp, rt, ver, par, c, h);
        Self::lemma_grow_complete(snap, rp, rt, ver, c, h, seen, cursor);
        assert forall|i: int| 0 <= i < ver.len() implies #[trigger] ver[i].pid != rp by {
            assert(shaped_at(snap, rp, rt, ver, par, i));
        }
        assert forall|i: int| 0 <= i < ver.len() implies snap.contains(#[trigger] ver[i]) by {
            assert(shaped_at(snap, rp, rt, ver, par, i));
        }
        Self::lemma_grow_len(snap, rp, ver, c, ri);
    }

    proof fn lemma_grow_shape(
        snap: Seq<ProcessSnapshotEntry>,
        rp: u32,
        rt: u64,
        ver: Seq<ProcessSnapshotEntry>,
        par: Seq<int>,
        c: ProcessSnapshotEntry,
        h: int,
    )
        requires
            tree_shaped_of(snap, rp, rt, ver, par),
            0 <= h <= ver.len(),
            snap.contains(c),
            c.pid != rp,
            forall|i: int| 0 <= i < ver.len() ==> #[trigger] ver[i].pid != c.pid,
            c.parent_pid == queue_pid_of(rp, ver, h),
            c.creation_time >= queue_time_of(rt, ver, h),
        ensures
            tree_shaped_of(snap, rp, rt, ver.push(c), par.push(h)),
    {
        let v2 = ver.push(c);
        let p2 = par.push(h);
        let n = ver.len();
        assert forall|i: int| 0 <= i < v2.len() implies #[trigger] shaped_at(snap, rp, rt, v2, p2, i) by {
            if i < n {
                assert(shaped_at(snap, rp, rt, ver, par, i));
                assert(v2[i] == ver[i]);
                assert(p2[i] == par[i]);
                lemma_queue_push(rp, rt, ver, c, par[i]);
            } else {
                assert(v2[i] == c);
                assert(p2[i] == h);
                lemma_queue_push(rp, rt, ver, c, h);
            }
        }
        assert forall|i: int, j: int| 0 <= i < j < v2.len() implies v2[i].pid != v2[j].pid by {
            if j < n {
                assert(v2[i] == ver[i]);
                assert(v2[j] == ver[j]);
            } else {
                assert(v2[i] == ver[i]);
                assert(v2[j] == c);
            }
        }
    }

    proof fn lemma_grow_complete(
        snap: Seq<ProcessSnapshotEntry>,
        rp: u32,
        rt: u64,
        ver: Seq<ProcessSnapshotEntry>,
        c: ProcessSnapshotEntry,
        h: int,
        seen: Seq<u32>,
        cursor: int,
    )
        requires
            0 <= h <= ver.len(),
            complete_of(snap, rp, ver, seen, h, cursor),
        ensures
            complete_of(snap, rp, ver.push(c), seen, h, cursor),
    {
        let v2 = ver.push(c);
        assert forall|hh: int, k: int|
            #![trigger snap[k], queue_pid_of(rp, v2, hh)]
            0 <= hh < h && hh <= v2.len() && 0 <= k < snap.len() && snap[k].parent_pid
                == queue_pid_of(rp, v2, hh) implies seen.contains(snap[k].pid) by {
            lemma_queue_push(rp, rt, ver, c, hh);
            assert(snap[k].parent_pid == queue_pid_of(rp, ver, hh));
        }
        assert forall|k: int|
            #![trigger snap[k]]
            0 <= k < cursor && snap[k].parent_pid == queue_pid_of(rp, v2, h) implies seen.contains(
                snap[k].pid,
            ) by {
            lemma_queue_push(rp, rt, ver, c, h);
            assert(snap[k].parent_pid == queue_pid_of(rp, ver, h));
        }
    }

    proof fn lemma_grow_len(
        snap: Seq<ProcessSnapshotEntry>,
        rp: u32,
        ver: Seq<ProcessSnapshotEntry>,
        c: ProcessSnapshotEntry,
        ri: int,
    )
        requires
            0 <= ri < snap.len(),
            snap[ri].pid == rp,
            snap.contains(c),
            c.pid != rp,
            forall|i: int| 0 <= i < ver.len() ==> #[trigger] ver[i].pid != c.pid,
            forall|i: int| 0 <= i < ver.len() ==> #[trigger] ver[i].pid != rp,
            forall|i: int| 0 <= i < ver.len() ==> snap.contains(#[trigger] ver[i]),
            forall|i: int, j: int| 0 <= i < j < ver.len() ==> ver[i].pid != ver[j].pid,
        ensures
            ver.len() + 2 <= snap.len(),
    {
        let vp = ver.map_values(|e: ProcessSnapshotEntry| e.pid);
        let pids = seq![rp] + vp + seq![c.pid];
        let snap_pids = snap.map_values(|e: ProcessSnapshotEntry| e.pid);
        assert(pids.len() == ver.len() + 2);
        assert forall|i: int| 0 <= i < pids.len() implies snap_pids.contains(#[trigger] pids[i]) by {
            if i == 0 {
                assert(snap_pids[ri] == rp);
            } else if i <= ver.len() {
                let e = ver[i - 1];
                assert(pids[i] == vp[i - 1]);
                assert(snap.contains(e));
                let k = choose|k: int| 0 <= k < snap.len() && snap[k] == e;
                assert(snap_pids[k] == e.pid);
            } else {
                let k = choose|k: int| 0 <= k < snap.len() && snap[k] == c;
                assert(snap_pids[k] == c.pid);
            }
        }
        assert(pids.no_duplicates()) by {
            assert forall|i: int, j: int|
                0 <= i < pids.len() && 0 <= j < pids.len() && i < j implies pids[i] != pids[j] by {
                if i == 0 {
                    if j <= ver.len() {
                        assert(pids[j] == ver[j - 1].pid);
                    }
                } else if j <= ver.len() {
                    assert(pids[i] == ver[i - 1].pid);
                    assert(pids[j] == ver[j - 1].pid);
                } else {
                    assert(pids[i] == ver[i - 1].pid);
                }
            }
        }
        lemma_distinct_len_le(pids, snap_pids);
    }

    /// PIDs in termination order: the verified descendants, latest first,
    /// then the root.
    pub fn kill_order(&self) -> (res: Vec<u32>)
        requires
            self.wf(),
        ensures
            res@ == spec_kill_order(self.verified_view(), self.root_pid_view()),
    {
        let mut out: Vec<u32> = Vec::new();
        let n = self.verified.len();
        let mut i: usize = 0;
        while i < n
            invariant
                n == self.verified@.len(),
                i <= n,
                out@ == spec_kill_order(self.verified@, self.root_pid).take(i as int),
                spec_kill_order(self.verified@, self.root_pid).len() == n + 1,
            decreases n - i,
        {
            out.push(self.verified[n - 1 - i].pid);
            i = i + 1;
            assert(out@ =~= spec_kill_order(self.verified@, self.root_pid).take(i as int));
        }
        out.push(self.root_pid);
        assert(out@ =~= spec_kill_order(self.verified@, self.root_pid));
        out
    }

    /// The result of terminating the tree.  `outcomes` holds, for each
    /// process termination was attempted on, its PID and what termination
    /// returned.  Refusals met during the walk come first among the errors,
    /// then the failed terminations, as `"<pid>: <reason>"`; with any error
    /// the result reports how many of the root and its verified descendants
    /// were terminated.
    pub fn summarize(&self, outcomes: &Vec<(u32, Result<(), String>)>) -> (res: Result<(), String>)
        requires
            self.wf(),
        ensures
            ({
                let errs = self.errors_view() + termination_errors(outcomes@);
                if errs.len() == 0 {
                    res is Ok
                } else {
                    res is Err && res->Err_0@ == "结束进程树部分失败（成功 "@ + spec_decimal(
                        count_terminated(outcomes@),
                    ) + "/"@ + spec_decimal(self.verified_view().len() + 1) + "）："@ + seq_join(
                        errs,
                        "; "@,
                    )
                }
            }),
    {
        let mut errs: Vec<Vec<char>> = Vec::new();
        let mut i: usize = 0;
        while i < self.errors.len()
            invariant
                i <= self.errors@.len(),
                errs@.len() == i,
                forall|j: int| 0 <= j < i ==> #[trigger] errs@[j]@ == self.errors@[j]@,
            decreases self.errors.len() - i,
        {
            errs.push(chars_of(self.errors[i].as_str()));
            i = i + 1;
        }
        let mut killed: usize = 0;
        let mut k: usize = 0;
        while k < outcomes.len()
            invariant
                k <= outcomes@.len(),
                killed <= k,
                killed as nat == count_terminated(outcomes@.take(k as int)),
                errs@.len() == self.errors@.len() + termination_errors(outcomes@.take(k as int)).len(),
                forall|j: int| 0 <= j < self.errors@.len() ==> #[trigger] errs@[j]@ == self.errors@[j]@,
                forall|j: int| 0 <= j < termination_errors(outcomes@.take(k as int)).len() ==> #[trigger] errs@[self.errors@.len() + j]@ == termination_errors(outcomes@.take(k as int))[j],
            decreases outcomes.len() - k,
        {
            let ghost prev = outcomes@.take(k as int);
            assert(outcomes@.take(k + 1).drop_last() == prev);
            match &outcomes[k].1 {
                Ok(()) => {
                    killed = killed + 1;
                },
                Err(e) => {
                    let mut m: Vec<char> = Vec::new();
                    push_decimal(&mut m, outcomes[k].0 as u64);
                    push_str(&mut m, ": ");
                    push_str(&mut m, e.as_str());
                    errs.push(m);
                },
            }
            k = k + 1;
        }
        assert(outcomes@.take(outcomes@.len() as int) == outcomes@);
        let ghost all = self.errors_view() + termination_errors(outcomes@);
        assert(errs@.len() == all.len());
        assert forall|j: int| 0 <= j < all.len() implies #[trigger] errs@[j]@ == all[j] by {
            if j < self.errors@.len() {
                assert(all[j] == self.errors_view()[j]);
            } else {
                assert(all[j] == termination_errors(outcomes@)[j - self.errors@.len()]);
                assert(errs@[self.errors@.len() + (j - self.errors@.len())]@ == termination_errors(outcomes@)[j - self.errors@.len()]);
            }
        }
        if errs.len() == 0 {
            return Ok(());
        }
        let mut msg = chars_of("结束进程树部分失败（成功 ");
        push_decimal(&mut msg, killed as u64);
        push_str(&mut msg, "/");
        proof {
            reveal(TreeWalk::wf);
        }
        push_decimal(&mut msg, (self.verified.len() + 1) as u64);
        push_str(&mut msg, "）：");
        let joined = join_chars(&errs, "; ");
        assert(joined@ == seq_join(all, "; "@)) by {
            assert(errs@.map_values(|v: Vec<char>| v@) =~= all);
        }
        push_chars(&mut msg, &joined);
        Err(string_of(&msg))
    }

    /// Every state of a walk has the tree shape: each verified descendant is
    /// a snapshot child of the root or of an earlier verified descendant,
    /// was created no earlier than that parent (stale children are never
    /// taken), and no PID is verified twice or equals the root.
    pub proof fn lemma_walk_is_tree(w: &TreeWalk)
        requires
            w.wf(),
        ensures
            w.tree_shaped(),
    {
    }

    /// Termination order kills every process exactly once, the root last,
    /// and each verified descendant before its parent.
    #[verifier::spinoff_prover]
    pub proof fn lemma_kill_order_children_first(w: &TreeWalk)
        requires
            w.wf(),
        ensures
            ({
                let v = w.verified_view();
                let n = v.len();
                let order = spec_kill_order(v, w.root_pid_view());
                &&& order.len() == n + 1
                &&& order.no_duplicates()
                &&& order[n as int] == w.root_pid_view()
                &&& forall|i: int|
                    #![trigger v[i]]
                    0 <= i < n ==> {
                        let p = w.parents_view()[i];
                        &&& order[n - 1 - i] == v[i].pid
                        &&& order[n - p] == w.queue_pid(p)
                        &&& n - 1 - i < n - p
                    }
            }),
    {
        let v = w.verified_view();
        let n = v.len();
        let order = spec_kill_order(v, w.root_pid_view());
        let pids = v.map_values(|e: ProcessSnapshotEntry| e.pid);
        assert(order.len() == n + 1);
        assert(order[n as int] == w.root_pid_view());
        assert forall|i: int| 0 <= i < n implies order[n - 1 - i] == #[trigger] v[i].pid by {
            assert(order[n - 1 - i] == pids.reverse()[n - 1 - i]);
        }
        assert forall|i: int|
            #![trigger v[i]]
            0 <= i < n implies {
                let p = w.parents_view()[i];
                &&& order[n - 1 - i] == v[i].pid
                &&& order[n - p] == w.queue_pid(p)
                &&& n - 1 - i < n - p
            } by {
            assert(shaped_at(w.snapshot@, w.root_pid, w.root_creation_time, w.verified@, w.parents@, i));
            let p = w.parents@[i];
            reveal(queue_pid_of);
            if p > 0 {
                assert(order[n - p] == pids.reverse()[n - p]);
                assert(order[n - 1 - (p - 1)] == v[p - 1].pid);
            }
        }
        assert(order.no_duplicates()) by {
            assert forall|a: int, b: int| 0 <= a < b < order.len() implies order[a] != order[b] by {
                if b == n {
                    let i = n - 1 - a;
                    assert(order[a] == v[i].pid);
                    assert(shaped_at(w.snapshot@, w.root_pid, w.root_creation_time, w.verified@, w.parents@, i));
                } else {
                    let i = n - 1 - a;
                    let j = n - 1 - b;
                    assert(order[a] == v[i].pid);
                    assert(order[b] == v[j].pid);
                }
            }
        }
    }

}


// ---------------------------------------------------------------------------
// Terminating a process tree
// ---------------------------------------------------------------------------
/// The observation reported for `pid`: that of its first entry.
pub open spec fn observation_for(obs: Seq<(u32, ProcessObservation)>, pid: u32) -> Option<
    ProcessObservation,
>
    decreases obs.len(),
{
    if obs.len() == 0 {
        None
    } else if obs[0].0 == pid {
        Some(obs[0].1)
    } else {
        observation_for(obs.drop_first(), pid)
    }
}

/// The verdict on a descendant handed out by the walk (see
/// `spec_open_verdict`, checked against its snapshot creation time); a
/// descendant without an observation is treated as already exited.
pub open spec fn child_verdict(
    children: Seq<(u32, ProcessObservation)>,
    own_pid: u32,
    c: ProcessSnapshotEntry,
) -> Result<bool, Seq<char>> {
    match observation_for(children, c.pid) {
        Some(o) => spec_open_verdict(c.pid, c.creation_time, None, own_pid, o),
        None => Ok(false),
    }
}

/// Whether a descendant handed out by the walk may be taken: opening it
/// showed a process (not PID 0 or 4, not this program) with the creation
/// time of its snapshot entry and an executable that is not protected.
pub open spec fn child_verified(
    children: Seq<(u32, ProcessObservation)>,
    own_pid: u32,
    c: ProcessSnapshotEntry,
) -> bool {
    child_verdict(children, own_pid, c) == Ok::<bool, Seq<char>>(true)
}

/// The descendants among `taken` that pass the checks, in order.
pub open spec fn verified_of(
    taken: Seq<ProcessSnapshotEntry>,
    children: Seq<(u32, ProcessObservation)>,
    own_pid: u32,
) -> Seq<ProcessSnapshotEntry>
    decreases taken.len(),
{
    if taken.len() == 0 {
        Seq::empty()
    } else {
        let rest = verified_of(taken.drop_last(), children, own_pid);
        if child_verified(children, own_pid, taken.last()) {
            rest.push(taken.last())
        } else {
            rest
        }
    }
}

/// `"<pid>: <reason>"` for each descendant among `taken` that was refused,
/// in order.
pub open spec fn refusals_of(
    taken: Seq<ProcessSnapshotEntry>,
    children: Seq<(u32, ProcessObservation)>,
    own_pid: u32,
) -> Seq<Seq<char>>
    decreases taken.len(),
{
    if taken.len() == 0 {
        Seq::empty()
    } else {
        let rest = refusals_of(taken.drop_last(), children, own_pid);
        match child_verdict(children, own_pid, taken.last()) {
            Err(m) => rest.push(spec_decimal(taken.last().pid as nat) + ": "@ + m),
            Ok(_) => rest,
        }
    }
}

fn find_observation(children: &Vec<(u32, ProcessObservation)>, pid: u32) -> (res: Option<usize>)
    ensures
        match res {
            Some(i) => i < children@.len() && observation_for(children@, pid) == Some(
                children@[i as int].1,
            ),
            None => observation_for(children@, pid) is None,
        },
{
    let mut i: usize = 0;
    assert(children@.skip(0) =~= children@);
    while i < children.len()
        invariant
            i <= children@.len(),
            observation_for(children@, pid) == observation_for(children@.skip(i as int), pid),
        decreases children.len() - i,
    {
        assert(children@.skip(i as int)[0] == children@[i as int]);
        if children[i].0 == pid {
            return Some(i);
        }
        assert(children@.skip(i as int).drop_first() =~= children@.skip(i + 1));
        i = i + 1;
    }
    None
}

/// What opening a descendant showed, as reported to the walk.
fn child_outcome(children: &Vec<(u32, ProcessObservation)>, own_pid: u32, c: &ProcessSnapshotEntry) -> (res:
    OpenOutcome)
    ensures
        match child_verdict(children@, own_pid, *c) {
            Ok(true) => res is Verified,
            Ok(false) => res is Gone,
            Err(m) => res matches OpenOutcome::Rejected(e) && e@ == m,
        },
{
    match find_observation(children, c.pid) {
        None => OpenOutcome::Gone,
        Some(i) => verify_process(c.pid, c.creation_time, None, own_pid, &children[i].1),
    }
}

/// Number of snapshot entries whose PID is not in `seen`.
pub open spec fn unseen_count(s: Seq<ProcessSnapshotEntry>, seen: Seq<u32>) -> nat
    decreases s.len(),
{
    if s.len() == 0 {
        0
    } else {
        unseen_count(s.drop_last(), seen) + if seen.contains(s.last().pid) {
            0nat
        } else {
            1nat
        }
    }
}

proof fn lemma_unseen_shrinks(s: Seq<ProcessSnapshotEntry>, a: Seq<u32>, b: Seq<u32>, c: ProcessSnapshotEntry)
    requires
        forall|p: u32| a.contains(p) ==> b.contains(p),
    ensures
        unseen_count(s, b) <= unseen_count(s, a),
        s.contains(c) && !a.contains(c.pid) && b.contains(c.pid) ==> unseen_count(s, b) < unseen_count(
            s,
            a,
        ),
    decreases s.len(),
{
    if s.len() > 0 {
        lemma_unseen_shrinks(s.drop_last(), a, b, c);
        if s.contains(c) && !a.contains(c.pid) && b.contains(c.pid) && s.last() != c {
            let k = choose|k: int| 0 <= k < s.len() && s[k] == c;
            assert(s.drop_last()[k] == c);
        }
    }
}

/// The walk is complete: every child of the root and of each verified
/// descendant was considered; of the descendants handed out, exactly those
/// that pass the checks on what opening them showed were verified, in
/// order, and each refused one left its reason, in order.
pub open spec fn tree_walk_done(
    w: TreeWalk,
    snapshot: Seq<ProcessSnapshotEntry>,
    root_pid: u32,
    root_creation_time: u64,
    children: Seq<(u32, ProcessObservation)>,
    own_pid: u32,
) -> bool {
    &&& w.wf()
    &&& w.pending_view() is None
    &&& w.exhausted()
    &&& w.snapshot_view() == snapshot
    &&& w.root_pid_view() == root_pid
    &&& w.root_creation_time_view() == root_creation_time
    &&& w.verified_view() == verified_of(w.taken_view(), children, own_pid)
    &&& w.errors_view() == refusals_of(w.taken_view(), children, own_pid)
    &&& forall|j: int| 0 <= j < w.taken_view().len() ==> snapshot.contains(#[trigger] w.taken_view()[j])
    &&& forall|p: u32|
        #[trigger] w.seen_view().contains(p) ==> seen_explained(
            snapshot,
            root_pid,
            root_creation_time,
            w.verified_view(),
            w.taken_view(),
            p,
        )
    &&& forall|i: int|
        0 <= i < w.verified_view().len() ==> child_verified(
            children,
            own_pid,
            #[trigger] w.verified_view()[i],
        )
}

proof fn lemma_verified_of_member(
    taken: Seq<ProcessSnapshotEntry>,
    children: Seq<(u32, ProcessObservation)>,
    own_pid: u32,
    c: ProcessSnapshotEntry,
)
    ensures
        verified_of(taken, children, own_pid).contains(c) <==> (taken.contains(c) && child_verified(
            children,
            own_pid,
            c,
        )),
    decreases taken.len(),
{
    if taken.len() > 0 {
        let t = taken.drop_last();
        lemma_verified_of_member(t, children, own_pid, c);
        let rest = verified_of(t, children, own_pid);
        let all = verified_of(taken, children, own_pid);
        if taken.contains(c) && taken.last() != c {
            let j = choose|j: int| 0 <= j < taken.len() && taken[j] == c;
            assert(t[j] == c);
        }
        if t.contains(c) {
            let j = choose|j: int| 0 <= j < t.len() && t[j] == c;
            assert(taken[j] == c);
        }
        if all.contains(c) {
            let j = choose|j: int| 0 <= j < all.len() && all[j] == c;
            if j < rest.len() {
                assert(all[j] == rest[j]);
            }
        }
        if rest.contains(c) {
            let j = choose|j: int| 0 <= j < rest.len() && rest[j] == c;
            assert(all[j] == c);
        }
        if taken.last() == c && child_verified(children, own_pid, c) {
            assert(all[rest.len() as int] == c);
        }
    }
}

proof fn lemma_refusals_of_member(
    taken: Seq<ProcessSnapshotEntry>,
    children: Seq<(u32, ProcessObservation)>,
    own_pid: u32,
    c: ProcessSnapshotEntry,
    m: Seq<char>,
)
    requires
        taken.contains(c),
        child_verdict(children, own_pid, c) == Err::<bool, Seq<char>>(m),
    ensures
        refusals_of(taken, children, own_pid).contains(spec_decimal(c.pid as nat) + ": "@ + m),
    decreases taken.len(),
{
    let t = taken.drop_last();
    let rest = refusals_of(t, children, own_pid);
    let all = refusals_of(taken, children, own_pid);
    let msg = spec_decimal(c.pid as nat) + ": "@ + m;
    if taken.last() == c {
        assert(all[rest.len() as int] == msg);
    } else {
        let j = choose|j: int| 0 <= j < taken.len() && taken[j] == c;
        assert(t[j] == c);
        lemma_refusals_of_member(t, children, own_pid, c, m);
        let i = choose|i: int| 0 <= i < rest.len() && rest[i] == msg;
        assert(all[i] == msg);
    }
}

/// A complete walk leaves out no descendant: in a snapshot where no PID
/// occurs twice, every snapshot child of the root or of a verified
/// descendant that is not older than that parent was handed out; it is
/// verified (and so terminated, before its parent) exactly when it passes
/// the checks, and a refused one leaves its reason.
pub proof fn lemma_walk_takes_every_child(
    w: TreeWalk,
    snapshot: Seq<ProcessSnapshotEntry>,
    root_pid: u32,
    root_time: u64,
    children: Seq<(u32, ProcessObservation)>,
    own_pid: u32,
    c: ProcessSnapshotEntry,
    h: int,
)
    requires
        tree_walk_done(w, snapshot, root_pid, root_time, children, own_pid),
        forall|a: int, b: int| 0 <= a < b < snapshot.len() ==> snapshot[a].pid != snapshot[b].pid,
        snapshot.contains(c),
        c.pid != root_pid,
        0 <= h <= w.verified_view().len(),
        c.parent_pid == w.queue_pid(h),
        c.creation_time >= w.queue_creation_time(h),
    ensures
        w.taken_view().contains(c),
        w.verified_view().contains(c) <==> child_verified(children, own_pid, c),
        child_verdict(children, own_pid, c) matches Err(m) ==> w.errors_view().contains(
            spec_decimal(c.pid as nat) + ": "@ + m,
        ),
{
    let ver = w.verified_view();
    let taken = w.taken_view();
    let k = choose|k: int| 0 <= k < snapshot.len() && snapshot[k] == c;
    assert(w.snapshot_view()[k].parent_pid == w.queue_pid(h));
    assert(w.seen_view().contains(c.pid));
    assert(seen_explained(snapshot, root_pid, root_time, ver, taken, c.pid));
    TreeWalk::lemma_walk_is_tree(&w);
    if exists|j: int| 0 <= j < taken.len() && #[trigger] taken[j].pid == c.pid {
        let j = choose|j: int| 0 <= j < taken.len() && #[trigger] taken[j].pid == c.pid;
        assert(snapshot.contains(taken[j]));
        let k2 = choose|k2: int| 0 <= k2 < snapshot.len() && snapshot[k2] == taken[j];
        if k2 != k {
            if k2 < k {
                assert(snapshot[k2].pid != snapshot[k].pid);
            } else {
                assert(snapshot[k].pid != snapshot[k2].pid);
            }
        }
        assert(taken[j] == c);
    } else {
        assert(stale_child_pid(snapshot, root_pid, root_time, ver, c.pid));
        let (k2, h2) = choose|k2: int, h2: int|
            #![trigger snapshot[k2], queue_pid_of(root_pid, ver, h2)]
            0 <= h2 <= ver.len() && 0 <= k2 < snapshot.len() && snapshot[k2].pid == c.pid
                && snapshot[k2].parent_pid == queue_pid_of(root_pid, ver, h2)
                && snapshot[k2].creation_time < queue_time_of(root_time, ver, h2);
        if k2 != k {
            if k2 < k {
                assert(snapshot[k2].pid != snapshot[k].pid);
            } else {
                assert(snapshot[k].pid != snapshot[k2].pid);
            }
        }
        assert(snapshot[k2] == c);
        reveal(queue_pid_of);
        reveal(queue_time_of);
        if h2 != h {
            if h2 > 0 {
                assert(shaped_at(snapshot, root_pid, root_time, ver, w.parents_view(), h2 - 1));
            }
            if h > 0 {
                assert(shaped_at(snapshot, root_pid, root_time, ver, w.parents_view(), h - 1));
            }
            assert(false);
        }
        assert(false);
    }
    lemma_verified_of_member(taken, children, own_pid, c);
    if child_verdict(children, own_pid, c) is Err {
        lemma_refusals_of_member(taken, children, own_pid, c, child_verdict(children, own_pid, c)->Err_0);
    }
}

/// Runs a walk to its end, verifying each descendant it hands out against
/// what opening it showed.
fn walk_children(w: TreeWalk, children: &Vec<(u32, ProcessObservation)>, own_pid: u32) -> (res:
    TreeWalk)
    requires
        w.wf(),
        w.pending_view() is None,
        w.verified_view().len() == 0,
        w.errors_view().len() == 0,
        w.taken_view().len() == 0,
        w.seen_view() == seq![w.root_pid_view()],
    ensures
        tree_walk_done(
            res,
            w.snapshot_view(),
            w.root_pid_view(),
            w.root_creation_time_view(),
            children@,
            own_pid,
        ),
{
    let ghost snap = w.snapshot_view();
    let ghost rp = w.root_pid_view();
    let ghost rt = w.root_creation_time_view();
    assert(w.verified_view() =~= verified_of(w.taken_view(), children@, own_pid));
    assert forall|p: u32| #[trigger] w.seen_view().contains(p) implies p == rp by {
        assert(w.seen_view()[0] == rp);
    }
    assert(w.errors_view() =~= refusals_of(w.taken_view(), children@, own_pid));
    let mut w = w;
    loop
        invariant_except_break
            w.wf(),
            w.pending_view() is None,
            w.snapshot_view() == snap,
            w.root_pid_view() == rp,
            w.root_creation_time_view() == rt,
            w.verified_view() == verified_of(w.taken_view(), children@, own_pid),
            w.errors_view() == refusals_of(w.taken_view(), children@, own_pid),
            forall|j: int| 0 <= j < w.taken_view().len() ==> snap.contains(#[trigger] w.taken_view()[j]),
            forall|p: u32|
                #[trigger] w.seen_view().contains(p) ==> seen_explained(
                    snap,
                    rp,
                    rt,
                    w.verified_view(),
                    w.taken_view(),
                    p,
                ),
            forall|i: int|
                0 <= i < w.verified_view().len() ==> child_verified(
                    children@,
                    own_pid,
                    #[trigger] w.verified_view()[i],
                ),
        ensures
            tree_walk_done(w, snap, rp, rt, children@, own_pid),
        decreases unseen_count(snap, w.seen_view()),
    {
        let ghost before = w.seen_view();
        let ghost ver = w.verified_view();
        let ghost taken0 = w.taken_view();
        match w.next_child() {
            None => {
                break;
            },
            Some(c) => {
                let outcome = child_outcome(children, own_pid, &c);
                let ghost mid_taken = w.taken_view().drop_last();
                assert(mid_taken =~= taken0);
                w.report(outcome);
                proof {
                    let t = w.taken_view();
                    assert(t.drop_last() =~= mid_taken);
                    assert(t.last() == c);
                    assert forall|j: int| 0 <= j < t.len() implies snap.contains(#[trigger] t[j]) by {
                        if j < taken0.len() {
                            assert(t[j] == taken0[j]);
                        }
                    }
                    assert forall|p: u32| #[trigger] w.seen_view().contains(p) implies seen_explained(
                        snap,
                        rp,
                        rt,
                        w.verified_view(),
                        t,
                        p,
                    ) by {
                        if p == c.pid {
                            assert(t[taken0.len() as int].pid == p);
                        } else if before.contains(p) {
                            assert(seen_explained(snap, rp, rt, ver, taken0, p));
                            if exists|j: int| 0 <= j < taken0.len() && #[trigger] taken0[j].pid == p {
                                let j = choose|j: int| 0 <= j < taken0.len() && #[trigger] taken0[j].pid == p;
                                assert(t[j] == taken0[j]);
                            }
                            if stale_child_pid(snap, rp, rt, ver, p) && w.verified_view() != ver {
                                lemma_stale_push(snap, rp, rt, ver, c, p);
                            }
                        } else {
                            assert(stale_child_pid(snap, rp, rt, ver, p));
                            if w.verified_view() != ver {
                                lemma_stale_push(snap, rp, rt, ver, c, p);
                            }
                        }
                    }
                    lemma_unseen_shrinks(snap, before, w.seen_view(), c);
                    assert forall|i: int| 0 <= i < w.verified_view().len() implies child_verified(
                        children@,
                        own_pid,
                        #[trigger] w.verified_view()[i],
                    ) by {
                        if i < ver.len() {
                            assert(w.verified_view()[i] == ver[i]);
                        }
                    }
                }
            },
        }
    }
    w
}

/// The termination outcome reported for `pid`: that of its first entry.
pub open spec fn reported_termination(terms: Seq<(u32, Result<(), String>)>, pid: u32) -> Option<
    Result<(), String>,
>
    decreases terms.len(),
{
    if terms.len() == 0 {
        None
    } else if terms[0].0 == pid {
        Some(terms[0].1)
    } else {
        reported_termination(terms.drop_first(), pid)
    }
}

/// `"<pid>: <reason>"` for each process of `order` whose termination failed
/// or was not reported, in order.
pub open spec fn order_errors(order: Seq<u32>, terms: Seq<(u32, Result<(), String>)>) -> Seq<
    Seq<char>,
>
    decreases order.len(),
{
    if order.len() == 0 {
        Seq::empty()
    } else {
        let rest = order_errors(order.drop_last(), terms);
        let p = order.last();
        match reported_termination(terms, p) {
            Some(Ok(_)) => rest,
            Some(Err(e)) => rest.push(spec_decimal(p as nat) + ": "@ + e@),
            None => rest.push(spec_decimal(p as nat) + ": "@ + not_attempted_message()),
        }
    }
}

/// Number of processes of `order` whose termination succeeded.
pub open spec fn order_terminated(order: Seq<u32>, terms: Seq<(u32, Result<(), String>)>) -> nat
    decreases order.len(),
{
    if order.len() == 0 {
        0
    } else {
        order_terminated(order.drop_last(), terms) + match reported_termination(terms, order.last()) {
            Some(Ok(_)) => 1nat,
            _ => 0nat,
        }
    }
}

fn lookup_termination(terms: &Vec<(u32, Result<(), String>)>, pid: u32) -> (res: Result<(), String>)
    ensures
        match reported_termination(terms@, pid) {
            Some(Ok(_)) => res is Ok,
            Some(Err(e)) => res is Err && res->Err_0@ == e@,
            None => res is Err && res->Err_0@ == not_attempted_message(),
        },
{
    let mut i: usize = 0;
    assert(terms@.skip(0) =~= terms@);
    while i < terms.len()
        invariant
            i <= terms@.len(),
            reported_termination(terms@, pid) == reported_termination(terms@.skip(i as int), pid),
        decreases terms.len() - i,
    {
        assert(terms@.skip(i as int)[0] == terms@[i as int]);
        if terms[i].0 == pid {
            return match &terms[i].1 {
                Ok(()) => Ok(()),
                Err(e) => Err(e.clone()),
            };
        }
        assert(terms@.skip(i as int).drop_first() =~= terms@.skip(i + 1));
        i = i + 1;
    }
    proof {
        reveal_strlit("未尝试结束");
    }
    Err(owned("未尝试结束"))
}

/// The outcome of each process of `order`, as reported in `terms`.
fn order_outcomes(order: &Vec<u32>, terms: &Vec<(u32, Result<(), String>)>) -> (outs: Vec<
    (u32, Result<(), String>),
>)
    ensures
        termination_errors(outs@) == order_errors(order@, terms@),
        count_terminated(outs@) == order_terminated(order@, terms@),
{
    let mut outs: Vec<(u32, Result<(), String>)> = Vec::new();
    let mut i: usize = 0;
    while i < order.len()
        invariant
            i <= order@.len(),
            termination_errors(outs@) == order_errors(order@.take(i as int), terms@),
            count_terminated(outs@) == order_terminated(order@.take(i as int), terms@),
        decreases order.len() - i,
    {
        let p = order[i];
        let r = lookup_termination(terms, p);
        let ghost prev = outs@;
        outs.push((p, r));
        proof {
            assert(outs@.drop_last() == prev);
            assert(order@.take(i + 1).drop_last() == order@.take(i as int));
            assert(order@.take(i + 1).last() == p);
        }
        i = i + 1;
    }
    assert(order@.take(order@.len() as int) == order@);
    outs
}

/// What a tree termination decides before any walk: `Some(None)` when it
/// ends with `Ok`, `Some(Some(m))` when it ends with the error `m`, `None`
/// when the walk runs.  The recorded creation time must parse; PID 0 and 4
/// are not valid roots; the root must pass the checks on what opening it
/// showed (with the recorded executable path), and `Ok` ends the request
/// when it has already exited; the snapshot must have been taken, and must
/// show the root with its recorded creation time (`Ok` when the root is no
/// longer in it).
pub open spec fn tree_early(
    pid: u32,
    creation_time: Seq<char>,
    exe_path: Seq<char>,
    own_pid: u32,
    root: ProcessObservation,
    snapshot: Result<Vec<ProcessSnapshotEntry>, String>,
) -> Option<Option<Seq<char>>> {
    match tree_root_early(pid, creation_time, exe_path, own_pid, root) {
        Some(r) => Some(r),
        None => match snapshot {
            Err(e) => Some(Some(e@)),
            Ok(s) => match find_pid(s@, pid) {
                None => Some(None),
                Some(e) => if Some(e.creation_time) != spec_parse_u64(creation_time) {
                    Some(Some("目标进程已变化（PID 可能被复用），请重新检测后再操作"@))
                } else {
                    None
                },
            },
        },
    }
}

/// The part of `tree_early` decided before the snapshot is taken: on the
/// request itself and on what opening the root showed.
pub open spec fn tree_root_early(
    pid: u32,
    creation_time: Seq<char>,
    exe_path: Seq<char>,
    own_pid: u32,
    root: ProcessObservation,
) -> Option<Option<Seq<char>>> {
    match spec_parse_u64(creation_time) {
        None => Some(Some("无效的进程创建时间："@ + creation_time)),
        Some(t) => if pid == 0 || pid == 4 {
            Some(Some("无效的进程树根 PID："@ + spec_decimal(pid as nat)))
        } else {
            match spec_open_verdict(pid, t, Some(exe_path), own_pid, root) {
                Err(m) => Some(Some(m)),
                Ok(false) => Some(None),
                Ok(true) => None,
            }
        },
    }
}

/// The checks made on a termination request before any process is opened:
/// the recorded creation time must parse; PID 0 and 4 are refused (as a
/// system process, or as a tree root) and so is this program itself.
/// `Ok` gives the parsed creation time.
pub open spec fn request_error(pid: u32, creation_time: Seq<char>, own_pid: u32, tree: bool) -> Option<
    Seq<char>,
> {
    match spec_parse_u64(creation_time) {
        None => Some("无效的进程创建时间："@ + creation_time),
        Some(_) => if pid == 0 || pid == 4 {
            if tree {
                Some("无效的进程树根 PID："@ + spec_decimal(pid as nat))
            } else {
                Some(system_pid_message(pid))
            }
        } else if pid == own_pid {
            Some("拒绝结束本程序自身"@)
        } else {
            None
        },
    }
}

/// Checks a termination request (of one process, or of a tree when `tree`)
/// before anything is opened; see `request_error`.
pub fn check_kill_request(pid: u32, creation_time: &str, own_pid: u32, tree: bool) -> (res: Result<
    u64,
    String,
>)
    ensures
        match request_error(pid, creation_time@, own_pid, tree) {
            Some(m) => res is Err && res->Err_0@ == m,
            None => res == Ok::<u64, String>(spec_parse_u64(creation_time@)->Some_0),
        },
{
    let t = parse_creation_time(creation_time)?;
    if pid == 0 || pid == 4 {
        let mut m = if tree {
            chars_of("无效的进程树根 PID：")
        } else {
            chars_of("拒绝结束系统进程 PID ")
        };
        push_decimal(&mut m, pid as u64);
        return Err(string_of(&m));
    }
    if pid == own_pid {
        return Err(owned("拒绝结束本程序自身"));
    }
    Ok(t)
}

/// The decision on a tree termination once the root has been opened: an
/// end (`Some`) or `None` when the snapshot is to be taken; see
/// `tree_root_early`.
pub fn tree_root_decision(
    pid: u32,
    creation_time: &str,
    exe_path: &str,
    own_pid: u32,
    root: &ProcessObservation,
) -> (res: Option<Result<(), String>>)
    ensures
        match tree_root_early(pid, creation_time@, exe_path@, own_pid, *root) {
            None => res is None,
            Some(None) => res matches Some(Ok(_)),
            Some(Some(m)) => res matches Some(Err(e)) && e@ == m,
        },
{
    let t = match parse_creation_time(creation_time) {
        Ok(t) => t,
        Err(e) => {
            return Some(Err(e));
        },
    };
    if pid == 0 || pid == 4 {
        let mut m = chars_of("无效的进程树根 PID：");
        push_decimal(&mut m, pid as u64);
        return Some(Err(string_of(&m)));
    }
    match verify_process(pid, t, Some(exe_path), own_pid, root) {
        OpenOutcome::Gone => Some(Ok(())),
        OpenOutcome::Rejected(m) => Some(Err(m)),
        OpenOutcome::Verified => None,
    }
}

/// The decision on a tree termination once the snapshot has been taken:
/// an end (`Some`) or `None` when the descendants are to be opened and
/// walked; see `tree_early`.
pub fn tree_early_decision(
    pid: u32,
    creation_time: &str,
    exe_path: &str,
    own_pid: u32,
    root: &ProcessObservation,
    snapshot: &Result<Vec<ProcessSnapshotEntry>, String>,
) -> (res: Option<Result<(), String>>)
    ensures
        match tree_early(pid, creation_time@, exe_path@, own_pid, *root, *snapshot) {
            None => res is None,
            Some(None) => res matches Some(Ok(_)),
            Some(Some(m)) => res matches Some(Err(e)) && e@ == m,
        },
{
    match tree_root_decision(pid, creation_time, exe_path, own_pid, root) {
        Some(r) => {
            return Some(r);
        },
        None => {},
    }
    let t = parse_creation_time(creation_time);
    let s = match snapshot {
        Err(e) => {
            return Some(Err(e.clone()));
        },
        Ok(s) => s,
    };
    let mut k: usize = 0;
    while k < s.len() && s[k].pid != pid
        invariant
            k <= s@.len(),
            forall|j: int| 0 <= j < k ==> s@[j].pid != pid,
        decreases s.len() - k,
    {
        k = k + 1;
    }
    proof {
        lemma_find_pid(s@, pid, k as int);
    }
    if k == s.len() {
        return Some(Ok(()));
    }
    match t {
        Ok(t) => if s[k].creation_time != t {
            return Some(Err(owned("目标进程已变化（PID 可能被复用），请重新检测后再操作")));
        },
        Err(_) => {},
    }
    None
}

/// The result of a walked tree termination: `Ok` when nothing failed,
/// otherwise how many of the `n` processes were terminated and every
/// refusal and failure.
pub open spec fn tree_result(res: Result<(), String>, errs: Seq<Seq<char>>, k: nat, n: nat) -> bool {
    if errs.len() == 0 {
        res is Ok
    } else {
        res is Err && res->Err_0@ == "结束进程树部分失败（成功 "@ + spec_decimal(k) + "/"@
            + spec_decimal(n) + "）："@ + seq_join(errs, "; "@)
    }
}

/// The decision on a request to terminate a process tree, and its result.
pub struct TreeKill {
    /// The result of the request.
    pub result: Result<(), String>,
    /// The processes to terminate, in order: each verified descendant
    /// before its parent, the root last (empty when the request ended
    /// before the walk).
    pub order: Vec<u32>,
    /// The completed walk, when the request got that far.
    pub walk: Option<TreeWalk>,
}

/// Terminates a process tree whose root identity was recorded at scan
/// time.  `root` is what opening the root showed, `snapshot` the process
/// snapshot taken afterwards, `children` what opening each descendant
/// showed, and `terminations` what terminating each process of the order
/// returned, once they have been terminated.  Before the walk the request
/// can end (see `tree_early`); otherwise the walk takes only descendants
/// that pass the checks, every process of the order counts (a termination
/// not reported counts as failed), and the result reports how many of the
/// root and its verified descendants were terminated with every refusal
/// and failure.
pub fn kill_process_tree(
    pid: u32,
    creation_time: String,
    exe_path: String,
    own_pid: u32,
    root: &ProcessObservation,
    snapshot: Result<Vec<ProcessSnapshotEntry>, String>,
    children: &Vec<(u32, ProcessObservation)>,
    terminations: &Vec<(u32, Result<(), String>)>,
) -> (res: TreeKill)
    ensures
        match tree_early(pid, creation_time@, exe_path@, own_pid, *root, snapshot) {
            Some(r) => res.walk is None && res.order@.len() == 0 && match r {
                None => res.result is Ok,
                Some(m) => res.result is Err && res.result->Err_0@ == m,
            },
            None => res.walk matches Some(w) && tree_walk_done(
                w,
                snapshot->Ok_0@,
                pid,
                spec_parse_u64(creation_time@)->Some_0,
                children@,
                own_pid,
            ) && res.order@ == spec_kill_order(w.verified_view(), pid) && tree_result(
                res.result,
                w.errors_view() + order_errors(res.order@, terminations@),
                order_terminated(res.order@, terminations@),
                w.verified_view().len() + 1,
            ),
        },
{
    let t = match parse_creation_time(creation_time.as_str()) {
        Ok(t) => t,
        Err(e) => {
            return TreeKill { result: Err(e), order: Vec::new(), walk: None };
        },
    };
    if pid == 0 || pid == 4 {
        let mut m = chars_of("无效的进程树根 PID：");
        push_decimal(&mut m, pid as u64);
        return TreeKill { result: Err(string_of(&m)), order: Vec::new(), walk: None };
    }
    match verify_process(pid, t, Some(exe_path.as_str()), own_pid, root) {
        OpenOutcome::Gone => {
            return TreeKill { result: Ok(()), order: Vec::new(), walk: None };
        },
        OpenOutcome::Rejected(m) => {
            return TreeKill { result: Err(m), order: Vec::new(), walk: None };
        },
        OpenOutcome::Verified => {},
    }
    let snap = match snapshot {
        Ok(s) => s,
        Err(e) => {
            return TreeKill { result: Err(e), order: Vec::new(), walk: None };
        },
    };
    let w = match TreeWalk::start(snap, pid, t) {
        Err(m) => {
            return TreeKill { result: Err(m), order: Vec::new(), walk: None };
        },
        Ok(None) => {
            return TreeKill { result: Ok(()), order: Vec::new(), walk: None };
        },
        Ok(Some(w)) => w,
    };
    let w = walk_children(w, children, own_pid);
    let order = w.kill_order();
    let outs = order_outcomes(&order, terminations);
    let result = w.summarize(&outs);
    TreeKill { result, order, walk: Some(w) }
}

/// Termination order of a walk's result: verified descendants latest first,
/// then the root.
pub open spec fn spec_kill_order(verified: Seq<ProcessSnapshotEntry>, root_pid: u32) -> Seq<u32> {
    verified.map_values(|e: ProcessSnapshotEntry| e.pid).reverse().push(root_pid)
}

/// `"<pid>: <reason>"` for each failed termination, in order.
pub open spec fn termination_errors(o: Seq<(u32, Result<(), String>)>) -> Seq<Seq<char>>
    decreases o.len(),
{
    if o.len() == 0 {
        Seq::empty()
    } else {
        let rest = termination_errors(o.drop_last());
        match o.last().1 {
            Ok(_) => rest,
            Err(e) => rest.push(spec_decimal(o.last().0 as nat) + ": "@ + e@),
        }
    }
}

/// Number of successful terminations.
pub open spec fn count_terminated(o: Seq<(u32, Result<(), String>)>) -> nat
    decreases o.len(),
{
    if o.len() == 0 {
        0
    } else {
        count_terminated(o.drop_last()) + match o.last().1 {
            Ok(_) => 1nat,
            Err(_) => 0nat,
        }
    }
}

/// The parts joined with `sep` between consecutive parts (`[T]::join`).
pub open spec fn seq_join(parts: Seq<Seq<char>>, sep: Seq<char>) -> Seq<char>
    decreases parts.len(),
{
    if parts.len() == 0 {
        Seq::empty()
    } else if parts.len() == 1 {
        parts[0]
    } else {
        seq_join(parts.drop_last(), sep) + sep + parts.last()
    }
}

/// Joins character vectors with a separator.
pub fn join_chars(parts: &Vec<Vec<char>>, sep: &str) -> (res: Vec<char>)
    ensures
        res@ == seq_join(parts@.map_values(|v: Vec<char>| v@), sep@),
{
    let ghost views = parts@.map_values(|v: Vec<char>| v@);
    let mut out: Vec<char> = Vec::new();
    let mut i: usize = 0;
    while i < parts.len()
        invariant
            i <= parts@.len(),
            views == parts@.map_values(|v: Vec<char>| v@),
            out@ == seq_join(views.take(i as int), sep@),
        decreases parts.len() - i,
    {
        if i > 0 {
            push_str(&mut out, sep);
        }
        push_chars(&mut out, &parts[i]);
        i = i + 1;
        assert(views.take(i as int).drop_last() =~= views.take(i - 1));
        assert(views.take(i as int).last() == parts@[i - 1]@);
        if i == 1 {
            assert(out@ =~= seq_join(views.take(i as int), sep@));
        }
    }
    assert(views.take(parts.len() as int) =~= views);
    out
}

} // verus!
