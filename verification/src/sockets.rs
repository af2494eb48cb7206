//! Parsers for the text output of the OS socket- and process-listing tools:
//! the local-address column, the `pid=` process annotation, the
//! connection-table listing with its `LISTENING` state filter, and the
//! CSV-style process listing. Each parser is specified line by line over
//! the raw characters.

use std::collections::HashMap;

use vstd::prelude::*;
use vstd::string::*;

use crate::text::{
    contains_seq, contains_str, dec_value, digits_prefix, digits_prefix_len, eq_ignore_case,
    find_char, find_char_x, find_sub, find_sub_x, is_dec_number, is_uint_literal, join_with,
    join_strings, lines_of, lower_seq, parse_u16, parse_u32, rfind_char, rfind_char_x, split_lines,
    split_tokens, tokens_of, trim_char_seq, trim_char_str, trim_seq, trim_str, uint_literal_value,
};

verus! {

broadcast use vstd::std_specs::hash::group_hash_axioms;

/// The value the standard `u16` parser yields for `s`, if any.
pub open spec fn u16_of(s: Seq<char>) -> Option<u16> {
    if is_uint_literal(s) && uint_literal_value(s) <= 0xffff {
        Some(uint_literal_value(s) as u16)
    } else {
        None
    }
}

/// The value the standard `u32` parser yields for `s`, if any.
pub open spec fn u32_of(s: Seq<char>) -> Option<u32> {
    if is_uint_literal(s) && uint_literal_value(s) <= 0xffff_ffff {
        Some(uint_literal_value(s) as u32)
    } else {
        None
    }
}

/// The port of a local-address column. A bracketed address (`[addr]:port`)
/// is split after its last bracket; anything else (`addr:port`, `*:port`)
/// is split at its last colon.
pub open spec fn port_of_addr(a: Seq<char>) -> Option<u16> {
    if a.len() == 0 {
        None
    } else {
        match rfind_char(a, ']') {
            Some(e) => if e + 1 < a.len() && a[e + 1] == ':' {
                u16_of(a.skip(e + 2))
            } else {
                port_after_last_colon(a)
            },
            None => port_after_last_colon(a),
        }
    }
}

/// The port read after the last colon of `a`.
pub open spec fn port_after_last_colon(a: Seq<char>) -> Option<u16> {
    match rfind_char(a, ':') {
        Some(i) => u16_of(a.skip(i + 1)),
        None => None,
    }
}

/// Parses the standard `u16` parser's result for a whole string.
fn u16_of_x(s: &str) -> (r: Option<u16>)
    ensures
        r == u16_of(s@),
{
    parse_u16(s)
}

/// Extracts the port from a socket listing's local-address column.
pub fn parse_port_from_addr(addr: &str) -> (r: Option<u16>)
    ensures
        r == port_of_addr(addr@),
{
    let n = addr.unicode_len();
    if n == 0 {
        return None;
    }
    match rfind_char_x(addr, ']') {
        Some(e) => {
            proof {
                crate::text::lemma_rfind_char_in_range(addr@, ']');
            }
            if e + 1 < n && addr.get_char(e + 1) == ':' {
                let rest = addr.substring_char(e + 2, n);
                proof {
                    assert(rest@ =~= addr@.skip(e + 2));
                }
                u16_of_x(rest)
            } else {
                port_after_last_colon_x(addr)
            }
        },
        None => port_after_last_colon_x(addr),
    }
}

/// Extracts the port after the last colon.
fn port_after_last_colon_x(addr: &str) -> (r: Option<u16>)
    ensures
        r == port_after_last_colon(addr@),
{
    let n = addr.unicode_len();
    match rfind_char_x(addr, ':') {
        Some(i) => {
            proof {
                crate::text::lemma_rfind_char_in_range(addr@, ':');
            }
            let rest = addr.substring_char(i + 1, n);
            proof {
                assert(rest@ =~= addr@.skip(i as int + 1));
            }
            u16_of_x(rest)
        },
        None => None,
    }
}

/// The PID in a socket listing's process annotation: the digits right after
/// the first `pid=` marker, read greedily.
pub open spec fn ss_pid_of(s: Seq<char>) -> Option<u32> {
    match find_sub(s, "pid="@) {
        Some(i) => {
            let ds = digits_prefix(s.skip(i + "pid="@.len() as int));
            if is_dec_number(ds) && dec_value(ds) <= 0xffff_ffff {
                Some(dec_value(ds) as u32)
            } else {
                None
            }
        },
        None => None,
    }
}

/// Extracts the PID from a `pid=<digits>` process annotation.
pub fn parse_pid_from_ss_process(proc_col: &str) -> (r: Option<u32>)
    ensures
        r == ss_pid_of(proc_col@),
{
    let marker = "pid=";
    let n = proc_col.unicode_len();
    match find_sub_x(proc_col, marker) {
        Some(i) => {
            proof {
                crate::text::lemma_find_sub_in_range(proc_col@, marker@);
            }
            let from = i + marker.unicode_len();
            let to = digits_prefix_len(proc_col, from);
            let r = crate::text::parse_digit_run(proc_col, from, to, 0xffff_ffff);
            proof {
                assert(proc_col@.subrange(from as int, to as int) == digits_prefix(
                    proc_col@.skip(from as int),
                ));
            }
            r
        },
        None => None,
    }
}

/// Builds a map from a row list, earliest row winning for each port.
pub open spec fn first_wins_map(rows: Seq<Option<(u16, u32)>>) -> Map<u16, u32>
    decreases rows.len(),
{
    if rows.len() == 0 {
        Map::empty()
    } else {
        let m = first_wins_map(rows.drop_last());
        match rows.last() {
            Some(e) => if m.dom().contains(e.0) {
                m
            } else {
                m.insert(e.0, e.1)
            },
            None => m,
        }
    }
}

/// A port in the map always came from some row.
pub proof fn lemma_first_wins_dom(rows: Seq<Option<(u16, u32)>>, p: u16)
    ensures
        first_wins_map(rows).dom().contains(p) ==> exists|i: int|
            0 <= i < rows.len() && (#[trigger] rows[i] matches Some(e) && e.0 == p),
    decreases rows.len(),
{
    if rows.len() > 0 {
        lemma_first_wins_dom(rows.drop_last(), p);
        if first_wins_map(rows).dom().contains(p) {
            let d = rows.drop_last();
            if first_wins_map(d).dom().contains(p) {
                let i = choose|i: int|
                    0 <= i < d.len() && (#[trigger] d[i] matches Some(e) && e.0 == p);
                assert(rows[i] == d[i]);
            } else {
                assert(rows[rows.len() - 1] matches Some(e) && e.0 == p);
            }
        }
    }
}

/// Extending the row list never disturbs what earlier rows put in the map:
/// wherever the map of a prefix is defined, the full map agrees with it.
pub proof fn lemma_first_wins_stable(rows: Seq<Option<(u16, u32)>>, i: int)
    requires
        0 <= i <= rows.len(),
    ensures
        forall|p: u16| #[trigger]
            first_wins_map(rows.take(i)).dom().contains(p) ==> first_wins_map(
                rows,
            ).dom().contains(p) && first_wins_map(rows)[p] == first_wins_map(rows.take(i))[p],
    decreases rows.len() - i,
{
    if i == rows.len() {
        assert(rows.take(i) =~= rows);
    } else {
        lemma_first_wins_stable(rows, i + 1);
        let pre = rows.take(i);
        let pre1 = rows.take(i + 1);
        assert(pre1.drop_last() =~= pre);
        assert(pre1.last() == rows[i]);
        assert forall|p: u16| #[trigger] first_wins_map(pre).dom().contains(p) implies
            first_wins_map(pre1).dom().contains(p) && first_wins_map(pre1)[p] == first_wins_map(
            pre,
        )[p] by {}
    }
}

/// The first row that names a port decides its PID: a row for a port that
/// no earlier row named puts exactly its PID in the final map.
pub proof fn lemma_first_wins_pick(rows: Seq<Option<(u16, u32)>>, j: int, p: u16, pid: u32)
    requires
        0 <= j < rows.len(),
        rows[j] == Some((p, pid)),
        forall|i: int|
            0 <= i < j ==> !(#[trigger] rows[i] matches Some(e) && e.0 == p),
    ensures
        first_wins_map(rows).dom().contains(p),
        first_wins_map(rows)[p] == pid,
{
    let pre = rows.take(j);
    let pre1 = rows.take(j + 1);
    assert(pre1.drop_last() =~= pre);
    assert(pre1.last() == rows[j]);
    lemma_first_wins_dom(pre, p);
    assert(!first_wins_map(pre).dom().contains(p)) by {
        if first_wins_map(pre).dom().contains(p) {
            let i = choose|i: int|
                0 <= i < pre.len() && (#[trigger] pre[i] matches Some(e) && e.0 == p);
            assert(rows[i] == pre[i]);
        }
    }
    assert(first_wins_map(pre1)[p] == pid);
    lemma_first_wins_stable(rows, j + 1);
    assert(first_wins_map(pre1).dom().contains(p));
}

/// The port and PID a connection-table row contributes: only rows with at
/// least five columns, a `LISTENING` state, a parsable local port and a
/// positive PID count.
pub open spec fn netstat_row_entry(l: Seq<char>) -> Option<(u16, u32)> {
    let cols = tokens_of(l, false);
    if cols.len() < 5 {
        None
    } else if lower_seq(cols[3]) != lower_seq("LISTENING"@) {
        None
    } else {
        match (port_of_addr(cols[1]), u32_of(cols[4])) {
            (Some(p), Some(pid)) => if pid > 0 {
                Some((p, pid))
            } else {
                None
            },
            _ => None,
        }
    }
}

/// The entries of a whole connection-table listing, line by line.
pub open spec fn netstat_entries(s: Seq<char>) -> Seq<Option<(u16, u32)>> {
    lines_of(s).map_values(|l: Seq<char>| netstat_row_entry(l))
}

/// The port-to-PID map of a Windows-style connection-table listing:
/// `LISTENING` rows only, first row winning per port.
pub open spec fn netstat_listening_map(s: Seq<char>) -> Map<u16, u32> {
    first_wins_map(netstat_entries(s))
}

/// Computes one row's entry of a Windows-style connection-table listing.
fn netstat_row_entry_x(line: &str) -> (r: Option<(u16, u32)>)
    ensures
        r == netstat_row_entry(line@),
{
    let cols = split_tokens(line, false);
    let ghost cm = cols@.map_values(|t: String| t@);
    if cols.len() < 5 {
        return None;
    }
    proof {
        assert(cm[3] == cols@[3]@);
        assert(cm[1] == cols@[1]@);
        assert(cm[4] == cols@[4]@);
    }
    if !eq_ignore_case(cols[3].as_str(), "LISTENING") {
        return None;
    }
    let port = parse_port_from_addr(cols[1].as_str());
    let pid = parse_u32(cols[4].as_str());
    match (port, pid) {
        (Some(p), Some(pid)) => if pid > 0 {
            Some((p, pid))
        } else {
            None
        },
        _ => None,
    }
}

/// Parses a Windows-style connection-table listing into its port-to-PID
/// map, keeping `LISTENING` rows only, the first row winning per port.
#[verifier::loop_isolation(false)]
pub fn parse_windows_netstat_listening_pid_map(stdout: &str) -> (r: HashMap<u16, u32>)
    ensures
        r@ == netstat_listening_map(stdout@),
{
    let lines = split_lines(stdout);
    let ghost lm = lines@.map_values(|t: String| t@);
    let ghost entries = netstat_entries(stdout@);
    let mut map: HashMap<u16, u32> = HashMap::new();
    let mut i: usize = 0;
    proof {
        assert(entries.take(0) =~= Seq::<Option<(u16, u32)>>::empty());
    }
    while i < lines.len()
        invariant
            i <= lines@.len(),
            lm == lines@.map_values(|t: String| t@),
            lm == lines_of(stdout@),
            entries == netstat_entries(stdout@),
            entries.len() == lm.len(),
            map@ == first_wins_map(entries.take(i as int)),
        decreases lines@.len() - i,
    {
        proof {
            assert(entries.take(i as int + 1).drop_last() =~= entries.take(i as int));
            assert(entries.take(i as int + 1).last() == entries[i as int]);
            assert(entries[i as int] == netstat_row_entry(lm[i as int]));
        }
        let entry = netstat_row_entry_x(lines[i].as_str());
        match entry {
            Some(e) => {
                if !map.contains_key(&e.0) {
                    map.insert(e.0, e.1);
                }
            },
            None => {},
        }
        i += 1;
    }
    proof {
        assert(entries.take(lines@.len() as int) =~= entries);
    }
    map
}

/// The port and PID a listening-socket row contributes: only rows with at
/// least six columns, a parsable local port in the fourth, and a positive
/// `pid=` annotation in the columns from the sixth on, joined by single
/// spaces.
pub open spec fn ss_row_entry(l: Seq<char>) -> Option<(u16, u32)> {
    let cols = tokens_of(l, false);
    if cols.len() < 6 {
        None
    } else {
        match (port_of_addr(cols[3]), ss_pid_of(join_with(cols.skip(5), " "@))) {
            (Some(p), Some(pid)) => if pid > 0 {
                Some((p, pid))
            } else {
                None
            },
            _ => None,
        }
    }
}

/// The entries of a whole listening-socket listing, its header line
/// skipped.
pub open spec fn ss_entries(s: Seq<char>) -> Seq<Option<(u16, u32)>> {
    lines_of(s).map_values(|l: Seq<char>| ss_row_entry(l))
}

/// The port-to-PID map of a POSIX-style listening-socket listing: the
/// header line skipped, first row winning per port.
pub open spec fn ss_listening_map(s: Seq<char>) -> Map<u16, u32> {
    if lines_of(s).len() == 0 {
        Map::empty()
    } else {
        first_wins_map(ss_entries(s).skip(1))
    }
}

/// Computes one row's entry of a POSIX-style listening-socket listing.
fn ss_row_entry_x(line: &str) -> (r: Option<(u16, u32)>)
    ensures
        r == ss_row_entry(line@),
{
    let cols = split_tokens(line, false);
    let ghost cm = cols@.map_values(|t: String| t@);
    if cols.len() < 6 {
        return None;
    }
    proof {
        assert(cm[3] == cols@[3]@);
    }
    let mut tail: Vec<String> = Vec::new();
    let mut j: usize = 5;
    proof {
        assert(cm.skip(5).take(0) =~= Seq::<Seq<char>>::empty());
        assert(tail@.map_values(|t: String| t@) =~= Seq::<Seq<char>>::empty());
    }
    while j < cols.len()
        invariant
            5 <= j <= cols@.len(),
            cm == cols@.map_values(|t: String| t@),
            6 <= cols@.len(),
            tail@.map_values(|t: String| t@) == cm.skip(5).take(j - 5),
        decreases cols@.len() - j,
    {
        let ghost before = tail@.map_values(|t: String| t@);
        tail.push(cols[j].clone());
        proof {
            assert(cm.skip(5)[j - 5] == cm[j as int]);
            assert(cm[j as int] == cols@[j as int]@);
            assert(tail@.map_values(|t: String| t@) =~= before.push(cm[j as int]));
            assert(cm.skip(5).take(j - 5).push(cm.skip(5)[j - 5]) =~= cm.skip(5).take(j - 4));
        }
        j += 1;
    }
    proof {
        assert(cm.skip(5).take(cols@.len() - 5) =~= cm.skip(5));
    }
    let proc_col = join_strings(&tail, " ");
    let port = parse_port_from_addr(cols[3].as_str());
    let pid = parse_pid_from_ss_process(proc_col.as_str());
    match (port, pid) {
        (Some(p), Some(pid)) => if pid > 0 {
            Some((p, pid))
        } else {
            None
        },
        _ => None,
    }
}

/// Parses a POSIX-style listening-socket listing into its port-to-PID map,
/// skipping the header line, the first row winning per port.
#[verifier::loop_isolation(false)]
pub fn parse_ss_listening_pid_map(stdout: &str) -> (r: HashMap<u16, u32>)
    ensures
        r@ == ss_listening_map(stdout@),
{
    let lines = split_lines(stdout);
    let ghost lm = lines@.map_values(|t: String| t@);
    let ghost entries = ss_entries(stdout@);
    let mut map: HashMap<u16, u32> = HashMap::new();
    if lines.len() == 0 {
        proof {
            assert(map@ =~= ss_listening_map(stdout@));
        }
        return map;
    }
    let mut i: usize = 1;
    proof {
        assert(entries.subrange(1, 1) =~= Seq::<Option<(u16, u32)>>::empty());
    }
    while i < lines.len()
        invariant
            1 <= i <= lines@.len(),
            lm == lines@.map_values(|t: String| t@),
            lm == lines_of(stdout@),
            entries == ss_entries(stdout@),
            entries.len() == lm.len(),
            map@ == first_wins_map(entries.subrange(1, i as int)),
        decreases lines@.len() - i,
    {
        proof {
            assert(entries.subrange(1, i as int + 1).drop_last() =~= entries.subrange(
                1,
                i as int,
            ));
            assert(entries.subrange(1, i as int + 1).last() == entries[i as int]);
            assert(entries[i as int] == ss_row_entry(lm[i as int]));
        }
        let entry = ss_row_entry_x(lines[i].as_str());
        match entry {
            Some(e) => {
                if !map.contains_key(&e.0) {
                    map.insert(e.0, e.1);
                }
            },
            None => {},
        }
        i += 1;
    }
    proof {
        assert(entries.subrange(1, lines@.len() as int) =~= entries.skip(1));
    }
    map
}

/// The display name in a CSV-style process listing: the first line's first
/// comma-separated field, trimmed and stripped of surrounding quotes; empty
/// output, an empty field, or a "No tasks" notice yields nothing.
pub open spec fn tasklist_name_of(s: Seq<char>) -> Option<Seq<char>> {
    let ls = lines_of(s);
    if ls.len() == 0 {
        None
    } else {
        let line = trim_seq(ls[0]);
        if line.len() == 0 || contains_seq(line, "No tasks"@) {
            None
        } else {
            let field = match find_char(line, ',') {
                Some(i) => line.take(i),
                None => line,
            };
            let name = trim_char_seq(trim_seq(field), '"');
            if name.len() == 0 {
                None
            } else {
                Some(name)
            }
        }
    }
}

/// Extracts the process display name from a CSV-style process listing.
pub fn parse_tasklist_first_name(stdout: &str) -> (r: Option<String>)
    ensures
        match r {
            Some(name) => tasklist_name_of(stdout@) == Some(name@),
            None => tasklist_name_of(stdout@) is None,
        },
{
    let lines = split_lines(stdout);
    let ghost lm = lines@.map_values(|t: String| t@);
    if lines.len() == 0 {
        return None;
    }
    proof {
        assert(lm[0] == lines@[0]@);
    }
    let line = trim_str(lines[0].as_str());
    if line.as_str().unicode_len() == 0 {
        return None;
    }
    if contains_str(line.as_str(), "No tasks") {
        return None;
    }
    let ll = line.as_str().unicode_len();
    let field = match find_char_x(line.as_str(), ',') {
        Some(i) => {
            proof {
                crate::text::lemma_find_char_characterization(line@, ',');
            }
            let f = line.as_str().substring_char(0, i);
            proof {
                assert(f@ =~= line@.take(i as int));
            }
            f.to_owned()
        },
        None => line,
    };
    let trimmed = trim_str(field.as_str());
    let name = trim_char_str(trimmed.as_str(), '"');
    if name.as_str().unicode_len() == 0 {
        return None;
    }
    Some(name)
}

} // verus!
