//! The per-port scan records: how one probe's outcome, the port-to-PID
//! snapshot, and the owner lookup combine into an immutable status row,
//! and how rows are filtered and counted for display.

use vstd::prelude::*;
use vstd::string::*;

use crate::text::{dec_digits_of, eq_ignore_case, lower_seq, trim_seq, trim_str, u32_dec};

verus! {

/// One port's scan result: whether it accepted a connection, the owning
/// process when known, and a human-readable detail message.
#[derive(Debug, Clone)]
pub struct PortStatus {
    pub port: u16,
    pub open: bool,
    pub pid: Option<u32>,
    pub process_name: Option<String>,
    pub message: String,
}

/// What a TCP probe of one port observed: a connection, a connect error
/// with its text, or an address that did not resolve at all.
#[derive(Debug, Clone)]
pub enum ProbeOutcome {
    Connected,
    ConnectFailed(String),
    InvalidAddress,
}

/// The probe timeout actually used: never below 50 milliseconds, so a
/// degenerate near-zero timeout cannot make every port look closed.
pub fn effective_timeout_ms(timeout_ms: u64) -> (r: u64)
    ensures
        r == if timeout_ms < 50 {
            50u64
        } else {
            timeout_ms
        },
{
    if timeout_ms < 50 {
        50
    } else {
        timeout_ms
    }
}

/// The textual probe target, `host:port`.
pub fn probe_target(host: &str, port: u16) -> (r: String)
    ensures
        r@ == host@ + ":"@ + dec_digits_of(port as int),
{
    let mut t = String::new();
    t.append(host);
    t.append(":");
    t.append(u32_dec(port as u32).as_str());
    t
}

/// The host names a scan treats as the local machine, where the socket
/// table may be consulted for owning PIDs.
pub open spec fn is_local_host_spec(h: Seq<char>) -> bool {
    ||| lower_seq(trim_seq(h)) == lower_seq("127.0.0.1"@)
    ||| lower_seq(trim_seq(h)) == lower_seq("localhost"@)
    ||| lower_seq(trim_seq(h)) == lower_seq("::1"@)
}

/// Whether `host` names the local machine.
pub fn is_local_host(host: &str) -> (r: bool)
    ensures
        r == is_local_host_spec(host@),
{
    let t = trim_str(host);
    eq_ignore_case(t.as_str(), "127.0.0.1") || eq_ignore_case(t.as_str(), "localhost")
        || eq_ignore_case(t.as_str(), "::1")
}

/// What one probe observed of one port, before its row is built.
#[derive(Debug, Clone)]
pub struct ProbeRecord {
    pub port: u16,
    pub outcome: ProbeOutcome,
    pub pid: Option<u32>,
    pub process_name: Option<String>,
}

/// The row `r` reports exactly what was observed of one port.
///
/// A connection yields an open row carrying the PID from the socket-table
/// snapshot and, only when a PID was found, the looked-up process name. A
/// failed connect yields a closed row with the error text verbatim; an
/// unresolvable address yields a closed row naming the bad target.
pub open spec fn row_reflects_probe(
    host: Seq<char>,
    port: u16,
    outcome: ProbeOutcome,
    pid: Option<u32>,
    process_name: Option<String>,
    r: PortStatus,
) -> bool {
    &&& r.port == port
    &&& match outcome {
        ProbeOutcome::Connected => {
            &&& r.open
            &&& r.pid == pid
            &&& r.process_name == (if pid is Some {
                process_name
            } else {
                Option::<String>::None
            })
            &&& r.message@ == "connection succeeded"@
        },
        ProbeOutcome::ConnectFailed(m) => {
            &&& !r.open
            &&& r.pid is None
            &&& r.process_name is None
            &&& r.message@ == m@
        },
        ProbeOutcome::InvalidAddress => {
            &&& !r.open
            &&& r.pid is None
            &&& r.process_name is None
            &&& r.message@ == "invalid address: "@ + host + ":"@ + dec_digits_of(port as int)
        },
    }
}

/// Builds one port's status row from its probe outcome.
pub fn port_status_from_probe(
    host: &str,
    port: u16,
    outcome: ProbeOutcome,
    pid: Option<u32>,
    process_name: Option<String>,
) -> (r: PortStatus)
    ensures
        row_reflects_probe(host@, port, outcome, pid, process_name, r),
{
    match outcome {
        ProbeOutcome::Connected => PortStatus {
            port,
            open: true,
            pid,
            process_name: if pid.is_some() {
                process_name
            } else {
                None
            },
            message: "connection succeeded".to_owned(),
        },
        ProbeOutcome::ConnectFailed(m) => PortStatus {
            port,
            open: false,
            pid: None,
            process_name: None,
            message: m,
        },
        ProbeOutcome::InvalidAddress => {
            let mut msg = String::new();
            msg.append("invalid address: ");
            msg.append(probe_target(host, port).as_str());
            proof {
                assert(msg@ =~= "invalid address: "@ + host@ + ":"@ + dec_digits_of(port as int));
            }
            PortStatus { port, open: false, pid: None, process_name: None, message: msg }
        },
    }
}

/// Builds the status rows of a whole scan: one row per probed port, in
/// the order the ports were probed, each reporting what was observed of
/// its port and nothing else.
#[verifier::loop_isolation(false)]
pub fn assemble_rows(host: &str, probes: Vec<ProbeRecord>) -> (r: Vec<PortStatus>)
    ensures
        r@.len() == probes@.len(),
        forall|i: int|
            0 <= i < probes@.len() ==> row_reflects_probe(
                host@,
                probes@[i].port,
                probes@[i].outcome,
                probes@[i].pid,
                probes@[i].process_name,
                r@[i],
            ),
{
    let ghost orig = probes@;
    let mut probes = probes;
    let mut out: Vec<PortStatus> = Vec::new();
    proof {
        assert(probes@ =~= orig.take(orig.len() as int));
    }
    while probes.len() > 0
        invariant
            probes@.len() <= orig.len(),
            probes@ == orig.take(probes@.len() as int),
            out@.len() == orig.len() - probes@.len(),
            forall|i: int|
                0 <= i < out@.len() ==> row_reflects_probe(
                    host@,
                    orig[probes@.len() + i].port,
                    orig[probes@.len() + i].outcome,
                    orig[probes@.len() + i].pid,
                    orig[probes@.len() + i].process_name,
                    out@[i],
                ),
        decreases probes@.len(),
    {
        let ghost k = probes@.len() as int;
        let rec = probes.pop().unwrap();
        proof {
            assert(probes@ =~= orig.take(k - 1));
            assert(rec == orig[k - 1]);
        }
        let row = port_status_from_probe(host, rec.port, rec.outcome, rec.pid, rec.process_name);
        out.insert(0, row);
        proof {
            assert(out@[0] == row);
        }
    }
    proof {
        assert(probes@.len() == 0);
    }
    out
}

/// The predicate selecting open rows.
pub open spec fn row_open_pred() -> spec_fn(PortStatus) -> bool {
    |s: PortStatus| s.open
}

/// Keeps only the open rows when `open_only` is set, in their original
/// order; otherwise returns the rows unchanged.
#[verifier::loop_isolation(false)]
pub fn filter_rows(rows: Vec<PortStatus>, open_only: bool) -> (r: Vec<PortStatus>)
    ensures
        open_only ==> r@ == rows@.filter(row_open_pred()),
        !open_only ==> r@ == rows@,
{
    if !open_only {
        return rows;
    }
    broadcast use vstd::seq_lib::group_seq_lib_default;

    let ghost orig = rows@;
    let mut rows = rows;
    let mut out: Vec<PortStatus> = Vec::new();
    proof {
        assert(rows@ =~= orig.take(orig.len() as int));
        assert(orig.skip(orig.len() as int).filter(row_open_pred()) =~= Seq::<
            PortStatus,
        >::empty());
    }
    while rows.len() > 0
        invariant
            rows@.len() <= orig.len(),
            rows@ == orig.take(rows@.len() as int),
            out@ == orig.skip(rows@.len() as int).filter(row_open_pred()),
        decreases rows@.len(),
    {
        let ghost k = rows@.len() as int;
        let x = rows.pop().unwrap();
        proof {
            assert(rows@ =~= orig.take(k - 1));
            assert(orig.skip(k - 1) =~= seq![orig[k - 1]] + orig.skip(k));
            assert(orig.skip(k - 1).filter(row_open_pred()) == seq![orig[k - 1]].filter(
                row_open_pred(),
            ) + orig.skip(k).filter(row_open_pred()));
            assert(seq![orig[k - 1]].drop_last() =~= Seq::<PortStatus>::empty());
            reveal(Seq::filter);
            if row_open_pred()(orig[k - 1]) {
                assert(seq![orig[k - 1]].filter(row_open_pred()) =~= seq![orig[k - 1]]);
            } else {
                assert(seq![orig[k - 1]].filter(row_open_pred()) =~= Seq::<PortStatus>::empty());
            }
        }
        if x.open {
            out.insert(0, x);
            proof {
                assert(out@ =~= seq![orig[k - 1]] + orig.skip(k).filter(row_open_pred()));
            }
        }
    }
    proof {
        assert(orig.skip(0) =~= orig);
    }
    out
}

/// Counts the open rows.
#[verifier::loop_isolation(false)]
pub fn count_open(rows: &Vec<PortStatus>) -> (r: usize)
    ensures
        r == rows@.filter(row_open_pred()).len(),
        r <= rows@.len(),
{
    broadcast use vstd::seq_lib::group_seq_lib_default;

    let mut count: usize = 0;
    let mut i: usize = 0;
    proof {
        assert(rows@.take(0) =~= Seq::<PortStatus>::empty());
        reveal(Seq::filter);
    }
    while i < rows.len()
        invariant
            i <= rows@.len(),
            count == rows@.take(i as int).filter(row_open_pred()).len(),
            count <= i,
        decreases rows@.len() - i,
    {
        proof {
            assert(rows@.take(i as int).push(rows@[i as int]) =~= rows@.take(i as int + 1));
            Seq::lemma_filter_push(rows@.take(i as int), rows@[i as int], row_open_pred());
        }
        if rows[i].open {
            count += 1;
        }
        i += 1;
    }
    proof {
        assert(rows@.take(rows@.len() as int) =~= rows@);
    }
    count
}

} // verus!
