//! Display helpers for scan rows: shortening a long detail message and
//! mapping the well-known connection diagnostics to their localized form.

use vstd::prelude::*;
use vstd::string::*;

use crate::text::{contains_nocase, contains_seq, lower_seq};

verus! {

/// Shortens a detail message for a table cell: text of at most 48 bytes is
/// kept whole, anything longer is cut to its first 45 characters with an
/// ellipsis appended.
pub fn short_detail(message: &str) -> (r: String)
    ensures
        (message.spec_bytes().len() as usize) <= 48 ==> r@ == message@,
        (message.spec_bytes().len() as usize) > 48 ==> r@ == message@.take(
            if message@.len() < 45 {
                message@.len() as int
            } else {
                45
            },
        ) + "..."@,
{
    if message.len() <= 48 {
        return message.to_owned();
    }
    let n = message.unicode_len();
    let k = if n < 45 {
        n
    } else {
        45
    };
    let mut s = message.substring_char(0, k).to_owned();
    s.append("...");
    proof {
        assert(message@.subrange(0, k as int) =~= message@.take(k as int));
    }
    s
}

/// A case-insensitive containment test on a message.
pub open spec fn msg_has(m: Seq<char>, pat: Seq<char>) -> bool {
    contains_seq(lower_seq(m), lower_seq(pat))
}

/// The localized form of a detail message, decided by the first matching
/// well-known diagnostic; an unrecognized message is returned unchanged.
pub open spec fn localized_detail(m: Seq<char>) -> Seq<char> {
    if msg_has(m, "connection succeeded"@) {
        "연결 성공"@
    } else if msg_has(m, "connection refused"@) || msg_has(m, "actively refused"@) || msg_has(
        m,
        "os error 111"@,
    ) {
        "연결 거부됨"@
    } else if msg_has(m, "timed out"@) {
        "연결 시간 초과"@
    } else if msg_has(m, "invalid address"@) {
        "잘못된 주소 형식"@
    } else if msg_has(m, "no route to host"@) {
        "호스트 경로 없음"@
    } else if msg_has(m, "network is unreachable"@) {
        "네트워크에 도달할 수 없음"@
    } else if msg_has(m, "permission denied"@) {
        "권한 거부됨"@
    } else {
        m
    }
}

/// Localizes a detail message.
pub fn localize_detail(message: &str) -> (r: String)
    ensures
        r@ == localized_detail(message@),
{
    if contains_nocase(message, "connection succeeded") {
        "연결 성공".to_owned()
    } else if contains_nocase(message, "connection refused") || contains_nocase(
        message,
        "actively refused",
    ) || contains_nocase(message, "os error 111") {
        "연결 거부됨".to_owned()
    } else if contains_nocase(message, "timed out") {
        "연결 시간 초과".to_owned()
    } else if contains_nocase(message, "invalid address") {
        "잘못된 주소 형식".to_owned()
    } else if contains_nocase(message, "no route to host") {
        "호스트 경로 없음".to_owned()
    } else if contains_nocase(message, "network is unreachable") {
        "네트워크에 도달할 수 없음".to_owned()
    } else if contains_nocase(message, "permission denied") {
        "권한 거부됨".to_owned()
    } else {
        message.to_owned()
    }
}

} // verus!
