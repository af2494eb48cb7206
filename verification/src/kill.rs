//! The guarded process-termination protocol: a kill request is checked
//! against an optional expected owner name before anything is executed, a
//! mismatch or failed lookup blocks the kill unless explicitly overridden,
//! and an override is always recorded as a warning.

use vstd::prelude::*;
use vstd::string::*;

use crate::text::{
    dec_digits_of, eq_ignore_case, lower_seq, trim_seq, trim_str, u32_dec,
};

verus! {

/// How a process is asked to go: a graceful termination signal, or an
/// unconditional hard kill.
#[derive(Debug, Clone, Copy, PartialEq, Eq, Structural)]
pub enum KillMode {
    Soft,
    Force,
}

/// One request to terminate a process, with its optional identity guard.
#[derive(Debug, Clone)]
pub struct KillRequest {
    pub pid: u32,
    pub mode: KillMode,
    pub expected_process_name: Option<String>,
    pub allow_mismatch: bool,
}

/// A successful kill, possibly carrying the warning recorded when a guard
/// was overridden.
#[derive(Debug, Clone, PartialEq, Eq)]
pub enum KillResultKind {
    Killed,
    KilledWithWarning(String),
}

/// Why a kill did not happen: a nonsense PID, a blocked guard, or a failed
/// termination command.
#[derive(Debug, Clone, PartialEq, Eq)]
pub enum KillError {
    InvalidPid,
    LookupFailed { pid: u32 },
    GuardMismatch { expected: String, actual: Option<String> },
    CommandFailed(String),
}

/// The stable machine-readable code of each error.
pub open spec fn kill_error_code(e: KillError) -> Seq<char> {
    match e {
        KillError::InvalidPid => "INVALID_PID"@,
        KillError::LookupFailed { .. } => "BLOCKED_LOOKUP"@,
        KillError::GuardMismatch { .. } => "BLOCKED_MISMATCH"@,
        KillError::CommandFailed(_) => "COMMAND_FAILED"@,
    }
}

/// The human-readable description of each error.
pub open spec fn kill_error_message(e: KillError) -> Seq<char> {
    match e {
        KillError::InvalidPid => "잘못된 PID입니다."@,
        KillError::LookupFailed { pid } => "PID "@ + dec_digits_of(pid as int)
            + " 프로세스 정보를 조회하지 못해 종료를 차단했습니다."@,
        KillError::GuardMismatch { expected, actual } => match actual {
            Some(a) => "프로세스 정보 불일치로 종료를 차단했습니다. expected='"@ + expected@
                + "', actual='"@ + a@ + "'"@,
            None => "프로세스 정보 불일치로 종료를 차단했습니다. expected='"@ + expected@ + "'"@,
        },
        KillError::CommandFailed(d) => d@,
    }
}

impl KillError {
    /// The stable machine-readable code of this error.
    pub fn code(&self) -> (r: &'static str)
        ensures
            r@ == kill_error_code(*self),
    {
        match self {
            KillError::InvalidPid => "INVALID_PID",
            KillError::LookupFailed { .. } => "BLOCKED_LOOKUP",
            KillError::GuardMismatch { .. } => "BLOCKED_MISMATCH",
            KillError::CommandFailed(_) => "COMMAND_FAILED",
        }
    }

    /// The human-readable description of this error.
    pub fn message(&self) -> (r: String)
        ensures
            r@ == kill_error_message(*self),
    {
        match self {
            KillError::InvalidPid => "잘못된 PID입니다.".to_owned(),
            KillError::LookupFailed { pid } => {
                let mut m = String::new();
                m.append("PID ");
                m.append(u32_dec(*pid).as_str());
                m.append(" 프로세스 정보를 조회하지 못해 종료를 차단했습니다.");
                m
            },
            KillError::GuardMismatch { expected, actual } => {
                let mut m = String::new();
                m.append("프로세스 정보 불일치로 종료를 차단했습니다. expected='");
                m.append(expected.as_str());
                match actual {
                    Some(a) => {
                        m.append("', actual='");
                        m.append(a.as_str());
                        m.append("'");
                    },
                    None => {
                        m.append("'");
                    },
                }
                m
            },
            KillError::CommandFailed(d) => d.clone(),
        }
    }
}

/// Two process names describe the same process: equal after trimming
/// whitespace, ignoring ASCII case.
pub open spec fn names_match_spec(a: Seq<char>, b: Seq<char>) -> bool {
    lower_seq(trim_seq(a)) == lower_seq(trim_seq(b))
}

/// Name matching ignores case and surrounding whitespace on both sides,
/// and which side a name stands on: trimming or lower-casing either
/// argument never changes the verdict.
pub proof fn lemma_names_match_insensitive(a: Seq<char>, b: Seq<char>)
    ensures
        names_match_spec(a, b) == names_match_spec(b, a),
        names_match_spec(a, b) == names_match_spec(trim_seq(a), trim_seq(b)),
        names_match_spec(a, b) == names_match_spec(lower_seq(a), lower_seq(b)),
{
    crate::text::lemma_trim_idempotent(a);
    crate::text::lemma_trim_idempotent(b);
    crate::text::lemma_lower_trim(a);
    crate::text::lemma_lower_trim(b);
    crate::text::lemma_lower_seq_idempotent(trim_seq(a));
    crate::text::lemma_lower_seq_idempotent(trim_seq(b));
}

/// Compares two process names, trimmed and ASCII-case-insensitively.
pub fn names_match(expected: &str, actual: &str) -> (r: bool)
    ensures
        r == names_match_spec(expected@, actual@),
{
    let a = trim_str(expected);
    let b = trim_str(actual);
    eq_ignore_case(a.as_str(), b.as_str())
}

/// The trimmed name, or nothing when only whitespace is left.
pub fn normalize_non_empty_name(value: &str) -> (r: Option<String>)
    ensures
        match r {
            Some(n) => trim_seq(value@).len() > 0 && n@ == trim_seq(value@),
            None => trim_seq(value@).len() == 0,
        },
{
    let trimmed = trim_str(value);
    if trimmed.as_str().unicode_len() == 0 {
        None
    } else {
        Some(trimmed)
    }
}

/// The warning recorded when a name mismatch is overridden.
pub open spec fn mismatch_warning(expected: Seq<char>, actual: Seq<char>) -> Seq<char> {
    "프로세스명 불일치 상태로 강행합니다. expected='"@ + expected + "', actual='"@ + actual + "'"@
}

/// The warning recorded when a failed owner lookup is overridden.
pub open spec fn lookup_warning(pid: u32) -> Seq<char> {
    "PID "@ + dec_digits_of(pid as int) + " 프로세스명 조회 실패 상태로 강행합니다."@
}

/// Decides a guarded kill from the observed owner name.
///
/// A matching owner passes silently. A differing owner blocks the kill,
/// unless the caller explicitly allowed the mismatch, in which case a
/// warning naming both processes is recorded. An unknown owner blocks the
/// kill too, unless overridden, in which case the warning names the PID.
pub fn evaluate_kill_guard(
    pid: u32,
    expected: &str,
    actual: Option<String>,
    allow_mismatch: bool,
) -> (r: Result<Option<String>, KillError>)
    ensures
        match actual {
            Some(a) => if names_match_spec(expected@, a@) {
                r matches Ok(w) && w is None
            } else if allow_mismatch {
                r matches Ok(Some(w)) && w@ == mismatch_warning(expected@, a@)
            } else {
                r matches Err(e) && (e matches KillError::GuardMismatch {
                    expected: ex,
                    actual: ac,
                } && (ex@ == expected@ && (ac matches Some(an) && an@ == a@)))
            },
            None => if allow_mismatch {
                r matches Ok(Some(w)) && w@ == lookup_warning(pid)
            } else {
                r matches Err(e) && e matches KillError::LookupFailed { pid: p } && p == pid
            },
        },
{
    match actual {
        Some(actual_name) => {
            if names_match(expected, actual_name.as_str()) {
                Ok(None)
            } else if allow_mismatch {
                let mut w = String::new();
                w.append("프로세스명 불일치 상태로 강행합니다. expected='");
                w.append(expected);
                w.append("', actual='");
                w.append(actual_name.as_str());
                w.append("'");
                Ok(Some(w))
            } else {
                Err(KillError::GuardMismatch {
                    expected: expected.to_owned(),
                    actual: Some(actual_name),
                })
            }
        },
        None => {
            if allow_mismatch {
                let mut w = String::new();
                w.append("PID ");
                w.append(u32_dec(pid).as_str());
                w.append(" 프로세스명 조회 실패 상태로 강행합니다.");
                Ok(Some(w))
            } else {
                Err(KillError::LookupFailed { pid })
            }
        },
    }
}

/// What a kill request asks for next, before anything runs: an immediate
/// rejection, a direct execution, or an owner lookup for the guard.
#[derive(Debug, Clone)]
pub enum KillStep {
    Reject(KillError),
    Execute,
    Lookup(String),
}

/// Decides the first step of a kill request.
///
/// PID zero is always rejected as invalid, whatever the mode and guard
/// settings. A missing or blank expected name skips the guard and goes
/// straight to execution; otherwise the trimmed expected name must be
/// checked against the owner of the PID.
pub fn plan_kill(request: &KillRequest) -> (s: KillStep)
    ensures
        request.pid == 0 ==> (s matches KillStep::Reject(e) && e is InvalidPid),
        request.pid != 0 ==> match request.expected_process_name {
            Some(v) => if trim_seq(v@).len() == 0 {
                s is Execute
            } else {
                s matches KillStep::Lookup(x) && x@ == trim_seq(v@)
            },
            None => s is Execute,
        },
{
    if request.pid == 0 {
        return KillStep::Reject(KillError::InvalidPid);
    }
    match &request.expected_process_name {
        Some(v) => match normalize_non_empty_name(v.as_str()) {
            Some(n) => KillStep::Lookup(n),
            None => KillStep::Execute,
        },
        None => KillStep::Execute,
    }
}

/// Combines the guard's warning and the termination command's outcome into
/// the final result: a failed command is surfaced as is, a successful one
/// reports the recorded warning, if any.
pub fn finish_kill(
    warning: Option<String>,
    command_result: Result<(), String>,
) -> (r: Result<KillResultKind, KillError>)
    ensures
        match command_result {
            Ok(_) => match warning {
                Some(w) => r matches Ok(KillResultKind::KilledWithWarning(x)) && x@ == w@,
                None => r matches Ok(k) && k is Killed,
            },
            Err(d) => r matches Err(e) && e matches KillError::CommandFailed(x) && x@ == d@,
        },
{
    match command_result {
        Ok(_) => match warning {
            Some(w) => Ok(KillResultKind::KilledWithWarning(w)),
            None => Ok(KillResultKind::Killed),
        },
        Err(d) => Err(KillError::CommandFailed(d)),
    }
}

/// The label a plain kill reports on success.
pub open spec fn success_label_spec(mode: KillMode) -> Seq<char> {
    if mode is Force {
        "force-killed"@
    } else {
        "killed"@
    }
}

/// The label a plain kill reports on success.
pub fn success_label(mode: KillMode) -> (r: &'static str)
    ensures
        r@ == success_label_spec(mode),
{
    if mode == KillMode::Force {
        "force-killed"
    } else {
        "killed"
    }
}

/// The POSIX signal flag each kill mode sends: a graceful termination for
/// a soft kill, an unconditional hard kill otherwise.
pub fn posix_kill_signal(mode: KillMode) -> (r: &'static str)
    ensures
        r@ == if mode is Force {
            "-KILL"@
        } else {
            "-TERM"@
        },
{
    if mode == KillMode::Force {
        "-KILL"
    } else {
        "-TERM"
    }
}

/// The message a plain kill reports: its label and the PID.
pub fn kill_pid_report(pid: u32, mode: KillMode, outcome: Result<KillResultKind, KillError>) -> (r:
    Result<String, String>)
    ensures
        match outcome {
            Ok(_) => r matches Ok(m) && m@ == success_label_spec(mode) + " pid "@ + dec_digits_of(
                pid as int,
            ),
            Err(e) => r matches Err(m) && m@ == kill_error_message(e),
        },
{
    match outcome {
        Ok(_) => {
            let mut m = String::new();
            m.append(success_label(mode));
            m.append(" pid ");
            m.append(u32_dec(pid).as_str());
            Ok(m)
        },
        Err(e) => Err(e.message()),
    }
}

/// The prefix of a successful guarded-kill report.
pub open spec fn success_prefix(mode: KillMode) -> Seq<char> {
    if mode is Force {
        "강제 종료 완료"@
    } else {
        "종료 완료"@
    }
}

/// The message a guarded kill reports on success: its prefix, the PID, and
/// the recorded warning when one exists.
pub fn kill_success_message(pid: u32, mode: KillMode, result: &KillResultKind) -> (r: String)
    ensures
        r@ == match result {
            KillResultKind::Killed => success_prefix(mode) + ": pid "@ + dec_digits_of(pid as int),
            KillResultKind::KilledWithWarning(w) => success_prefix(mode) + ": pid "@
                + dec_digits_of(pid as int) + " (주의: "@ + w@ + ")"@,
        },
{
    let mut m = String::new();
    if mode == KillMode::Force {
        m.append("강제 종료 완료");
    } else {
        m.append("종료 완료");
    }
    m.append(": pid ");
    m.append(u32_dec(pid).as_str());
    match result {
        KillResultKind::Killed => {},
        KillResultKind::KilledWithWarning(w) => {
            m.append(" (주의: ");
            m.append(w.as_str());
            m.append(")");
        },
    }
    m
}

} // verus!
