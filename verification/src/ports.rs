//! The port-expression parser: a textual specification such as
//! `"8080, 3000-3010"` becomes a deduplicated, ascending list of ports.
//! Strict parsing collects every malformed token into one aggregated
//! diagnostic and enforces a hard ceiling on the number of distinct ports.

use vstd::prelude::*;
use vstd::string::*;

use crate::text::{
    dec_digits_of, find_char, find_char_x, is_uint_literal, join_strings, join_with, parse_u16,
    split_tokens, tokens_of, u32_dec, uint_literal_value,
};

verus! {

/// The most distinct ports one expression may expand to.
pub const MAX_PORT_COUNT: usize = 5000;

/// Profile name handed to callers that ask for the built-in defaults.
pub const DEFAULT_PROFILE_NAME: &'static str = "framework-default";

/// Port expression covering the common development-server ranges.
pub const DEFAULT_PORTS_EXPR: &'static str = "3000-3009,5173-5182,4200-4209,8080-8089";

/// A token without a dash: a single port, positive and in range.
pub open spec fn is_valid_single(t: Seq<char>) -> bool {
    is_uint_literal(t) && 1 <= uint_literal_value(t) <= 0xffff
}

/// A token with a dash: an inclusive range whose bounds parse, whose start
/// is positive, and whose start does not exceed its end.
pub open spec fn is_valid_range(t: Seq<char>) -> bool {
    match find_char(t, '-') {
        Some(k) => {
            let a = t.take(k);
            let b = t.skip(k + 1);
            is_uint_literal(a) && is_uint_literal(b) && 1 <= uint_literal_value(a)
                && uint_literal_value(a) <= uint_literal_value(b) && uint_literal_value(b) <= 0xffff
        },
        None => false,
    }
}

/// A well-formed token: a range when it holds a dash, a single port
/// otherwise.
pub open spec fn token_valid(t: Seq<char>) -> bool {
    match find_char(t, '-') {
        Some(_) => is_valid_range(t),
        None => is_valid_single(t),
    }
}

/// The port `p` is named by the token `t`.
pub open spec fn port_in_token(t: Seq<char>, p: u16) -> bool {
    match find_char(t, '-') {
        Some(k) => is_valid_range(t) && uint_literal_value(t.take(k)) <= p as int
            <= uint_literal_value(t.skip(k + 1)),
        None => is_valid_single(t) && p as int == uint_literal_value(t),
    }
}

/// The port `p` is named by some token of the expression `s`.
pub open spec fn expr_covers(s: Seq<char>, p: u16) -> bool {
    exists|j: int|
        0 <= j < tokens_of(s, true).len() && port_in_token(tokens_of(s, true)[j], p)
}

/// Strictly ascending, hence duplicate-free.
pub open spec fn strictly_ascending(s: Seq<u16>) -> bool {
    forall|i: int, j: int| 0 <= i < j < s.len() ==> s[i] < s[j]
}

/// An ascending list holds each port at most once.
pub proof fn lemma_strictly_ascending_no_duplicates(s: Seq<u16>)
    requires
        strictly_ascending(s),
    ensures
        s.no_duplicates(),
{
    assert forall|i: int, j: int|
        0 <= i < s.len() && 0 <= j < s.len() && i != j implies s[i] != s[j] by {
        if i < j {
            assert(s[i] < s[j]);
        } else {
            assert(s[j] < s[i]);
        }
    }
}

/// `s` with `p` placed at its sorted position, or unchanged when `p` is
/// already present.
pub open spec fn insert_sorted_seq(s: Seq<u16>, p: u16) -> Seq<u16>
    decreases s.len(),
{
    if s.len() == 0 {
        seq![p]
    } else if p > s.last() {
        s.push(p)
    } else if p == s.last() {
        s
    } else {
        insert_sorted_seq(s.drop_last(), p).push(s.last())
    }
}

/// What a sorted insert does: order is kept, membership gains exactly `p`,
/// and the length grows exactly when `p` was absent.
pub proof fn lemma_insert_sorted_seq(s: Seq<u16>, p: u16)
    requires
        strictly_ascending(s),
    ensures
        strictly_ascending(insert_sorted_seq(s, p)),
        forall|q: u16| insert_sorted_seq(s, p).contains(q) <==> (s.contains(q) || q == p),
        insert_sorted_seq(s, p).len() == if s.contains(p) {
            s.len()
        } else {
            s.len() + 1
        },
    decreases s.len(),
{
    let r = insert_sorted_seq(s, p);
    if s.len() == 0 {
        assert forall|q: u16| r.contains(q) implies (s.contains(q) || q == p) by {
            let i = choose|i: int| 0 <= i < r.len() && r[i] == q;
            assert(r[0] == p);
        }
        assert(r.contains(p)) by {
            assert(r[0] == p);
        }
        assert(!s.contains(p));
    } else if p > s.last() {
        assert forall|q: u16| r.contains(q) implies (s.contains(q) || q == p) by {
            let i = choose|i: int| 0 <= i < r.len() && r[i] == q;
            if i < s.len() {
                assert(s[i] == q);
            }
        }
        assert forall|q: u16| s.contains(q) implies r.contains(q) by {
            let i = choose|i: int| 0 <= i < s.len() && s[i] == q;
            assert(r[i] == q);
        }
        assert(r.contains(p)) by {
            assert(r[s.len() as int] == p);
        }
        assert(!s.contains(p)) by {
            assert forall|i: int| 0 <= i < s.len() implies s[i] != p by {
                if i < s.len() - 1 {
                    assert(s[i] < s.last());
                }
            }
        }
    } else if p == s.last() {
        assert(s.contains(p)) by {
            assert(s[s.len() - 1] == p);
        }
    } else {
        let d = s.drop_last();
        assert(strictly_ascending(d));
        lemma_insert_sorted_seq(d, p);
        let rd = insert_sorted_seq(d, p);
        assert(r == rd.push(s.last()));
        // order: everything in rd is below s.last()
        assert forall|i: int, j: int| 0 <= i < j < r.len() implies r[i] < r[j] by {
            if j == r.len() - 1 {
                assert(rd.contains(rd[i]));
                assert(d.contains(rd[i]) || rd[i] == p);
                if d.contains(rd[i]) {
                    let k = choose|k: int| 0 <= k < d.len() && d[k] == rd[i];
                    assert(s[k] < s.last());
                }
            }
        }
        assert forall|q: u16| r.contains(q) implies (s.contains(q) || q == p) by {
            let i = choose|i: int| 0 <= i < r.len() && r[i] == q;
            if i < rd.len() {
                assert(rd.contains(q));
                if d.contains(q) {
                    let k = choose|k: int| 0 <= k < d.len() && d[k] == q;
                    assert(s[k] == q);
                }
            } else {
                assert(s[s.len() - 1] == q);
            }
        }
        assert forall|q: u16| (s.contains(q) || q == p) implies r.contains(q) by {
            if q == p {
                assert(rd.contains(q));
                let k = choose|k: int| 0 <= k < rd.len() && rd[k] == q;
                assert(r[k] == q);
            } else {
                let i = choose|i: int| 0 <= i < s.len() && s[i] == q;
                if i < s.len() - 1 {
                    assert(d[i] == q);
                    assert(d.contains(q));
                    assert(rd.contains(q));
                    let k = choose|k: int| 0 <= k < rd.len() && rd[k] == q;
                    assert(r[k] == q);
                } else {
                    assert(r[r.len() - 1] == q);
                }
            }
        }
        assert(s.contains(p) <==> d.contains(p)) by {
            if s.contains(p) {
                let i = choose|i: int| 0 <= i < s.len() && s[i] == p;
                assert(i < s.len() - 1);
                assert(d[i] == p);
            }
            if d.contains(p) {
                let i = choose|i: int| 0 <= i < d.len() && d[i] == p;
                assert(s[i] == p);
            }
        }
    }
}

/// `s` with every port of `lo..=hi` inserted, in ascending order of
/// insertion.
pub open spec fn add_range(s: Seq<u16>, lo: int, hi: int) -> Seq<u16>
    decreases hi + 1 - lo,
{
    if lo > hi {
        s
    } else {
        add_range(insert_sorted_seq(s, lo as u16), lo + 1, hi)
    }
}

/// What inserting a whole range does: order is kept, membership gains
/// exactly the range, and the result is no shorter.
pub proof fn lemma_add_range(s: Seq<u16>, lo: int, hi: int)
    requires
        strictly_ascending(s),
        0 <= lo,
        hi <= 0xffff,
    ensures
        strictly_ascending(add_range(s, lo, hi)),
        forall|q: u16| add_range(s, lo, hi).contains(q) <==> (s.contains(q) || lo <= q as int <= hi),
        add_range(s, lo, hi).len() >= s.len(),
    decreases hi + 1 - lo,
{
    if lo <= hi {
        lemma_insert_sorted_seq(s, lo as u16);
        lemma_add_range(insert_sorted_seq(s, lo as u16), lo + 1, hi);
        assert((lo as u16) as int == lo);
    }
}

/// Adding `lo..=hi` is the same as adding `lo..=mid` and then `mid+1..=hi`.
pub proof fn lemma_add_range_split(s: Seq<u16>, lo: int, mid: int, hi: int)
    requires
        lo - 1 <= mid <= hi,
    ensures
        add_range(s, lo, hi) == add_range(add_range(s, lo, mid), mid + 1, hi),
    decreases mid + 1 - lo,
{
    if lo <= mid {
        lemma_add_range_split(insert_sorted_seq(s, lo as u16), lo + 1, mid, hi);
    }
}

/// One token's contribution to the accumulated port list: a valid token
/// inserts the ports it names, an invalid one contributes nothing.
pub open spec fn token_expand(s: Seq<u16>, t: Seq<char>) -> Seq<u16> {
    match find_char(t, '-') {
        Some(k) => if is_valid_range(t) {
            add_range(s, uint_literal_value(t.take(k)), uint_literal_value(t.skip(k + 1)))
        } else {
            s
        },
        None => if is_valid_single(t) {
            insert_sorted_seq(s, uint_literal_value(t) as u16)
        } else {
            s
        },
    }
}

/// What one token does to the accumulated list.
pub proof fn lemma_token_expand(s: Seq<u16>, t: Seq<char>)
    requires
        strictly_ascending(s),
    ensures
        strictly_ascending(token_expand(s, t)),
        forall|q: u16| token_expand(s, t).contains(q) <==> (s.contains(q) || port_in_token(t, q)),
        token_expand(s, t).len() >= s.len(),
{
    match find_char(t, '-') {
        Some(k) => {
            if is_valid_range(t) {
                let lo = uint_literal_value(t.take(k));
                let hi = uint_literal_value(t.skip(k + 1));
                lemma_add_range(s, lo, hi);
                assert forall|q: u16| token_expand(s, t).contains(q) <==> (s.contains(q)
                    || port_in_token(t, q)) by {
                    assert(token_expand(s, t) == add_range(s, lo, hi));
                    assert(add_range(s, lo, hi).contains(q) <==> (s.contains(q) || lo <= q as int
                        <= hi));
                    assert(port_in_token(t, q) == (lo <= q as int <= hi));
                }
            } else {
                assert(forall|q: u16| !port_in_token(t, q));
            }
        },
        None => {
            if is_valid_single(t) {
                lemma_insert_sorted_seq(s, uint_literal_value(t) as u16);
                assert((uint_literal_value(t) as u16) as int == uint_literal_value(t));
                assert forall|q: u16| token_expand(s, t).contains(q) <==> (s.contains(q)
                    || port_in_token(t, q)) by {
                    assert(token_expand(s, t) == insert_sorted_seq(s, uint_literal_value(t) as u16));
                }
            } else {
                assert(forall|q: u16| !port_in_token(t, q));
            }
        },
    }
}

/// The ports named by a token list, accumulated left to right in one
/// ascending, duplicate-free list.
pub open spec fn expand_tokens(toks: Seq<Seq<char>>) -> Seq<u16>
    decreases toks.len(),
{
    if toks.len() == 0 {
        Seq::empty()
    } else {
        token_expand(expand_tokens(toks.drop_last()), toks.last())
    }
}

/// The distinct ports an expression names, in ascending order.
pub open spec fn expanded_ports(s: Seq<char>) -> Seq<u16> {
    expand_tokens(tokens_of(s, true))
}

/// The expansion of a token list is ascending and holds exactly the ports
/// some token names.
pub proof fn lemma_expand_tokens(toks: Seq<Seq<char>>)
    ensures
        strictly_ascending(expand_tokens(toks)),
        forall|q: u16|
            expand_tokens(toks).contains(q) <==> exists|j: int|
                0 <= j < toks.len() && port_in_token(toks[j], q),
    decreases toks.len(),
{
    if toks.len() > 0 {
        let d = toks.drop_last();
        lemma_expand_tokens(d);
        lemma_token_expand(expand_tokens(d), toks.last());
        let r = expand_tokens(toks);
        assert forall|q: u16| r.contains(q) implies exists|j: int|
            0 <= j < toks.len() && port_in_token(toks[j], q) by {
            if expand_tokens(d).contains(q) {
                let j = choose|j: int| 0 <= j < d.len() && port_in_token(d[j], q);
                assert(toks[j] == d[j]);
            } else {
                assert(port_in_token(toks[toks.len() - 1], q));
            }
        }
        assert forall|q: u16, j: int|
            0 <= j < toks.len() && port_in_token(toks[j], q) implies r.contains(q) by {
            if j < toks.len() - 1 {
                assert(d[j] == toks[j]);
                assert(expand_tokens(d).contains(q));
            }
        }
    }
}

/// A longer token prefix never shrinks the expansion.
pub proof fn lemma_expand_tokens_take_len(toks: Seq<Seq<char>>, i: int)
    requires
        0 <= i <= toks.len(),
    ensures
        expand_tokens(toks).len() >= expand_tokens(toks.take(i)).len(),
    decreases toks.len() - i,
{
    if i == toks.len() {
        assert(toks.take(i) =~= toks);
    } else {
        lemma_expand_tokens_take_len(toks, i + 1);
        let pre = toks.take(i);
        let pre1 = toks.take(i + 1);
        assert(pre1.drop_last() =~= pre);
        assert(pre1.last() == toks[i]);
        lemma_expand_tokens(pre);
        lemma_token_expand(expand_tokens(pre), toks[i]);
    }
}

/// Places `p` into the ascending list `v`, leaving `v` unchanged when `p`
/// is already there.
#[verifier::loop_isolation(false)]
fn insert_sorted(v: &mut Vec<u16>, p: u16)
    ensures
        final(v)@ == insert_sorted_seq(old(v)@, p),
{
    proof {
        assert(v@.take(v@.len() as int) =~= v@);
        assert(v@.skip(v@.len() as int) =~= Seq::<u16>::empty());
    }
    let mut pos: usize = v.len();
    while pos > 0 && p < v[pos - 1]
        invariant
            pos <= v@.len(),
            insert_sorted_seq(v@, p) == insert_sorted_seq(v@.take(pos as int), p) + v@.skip(
                pos as int,
            ),
        decreases pos,
    {
        proof {
            let pre = v@.take(pos as int);
            assert(pre.last() == v@[pos - 1]);
            assert(pre.drop_last() =~= v@.take(pos as int - 1));
            assert(insert_sorted_seq(pre, p) == insert_sorted_seq(
                v@.take(pos as int - 1),
                p,
            ).push(v@[pos - 1]));
            assert(insert_sorted_seq(v@.take(pos as int - 1), p).push(v@[pos - 1]) + v@.skip(
                pos as int,
            ) =~= insert_sorted_seq(v@.take(pos as int - 1), p) + v@.skip(pos as int - 1));
        }
        pos -= 1;
    }
    if pos > 0 {
        let cur = v[pos - 1];
        if cur == p {
            proof {
                let pre = v@.take(pos as int);
                assert(pre.last() == p);
                assert(insert_sorted_seq(pre, p) == pre);
                assert(pre + v@.skip(pos as int) =~= v@);
            }
            return ;
        }
    }
    proof {
        let pre = v@.take(pos as int);
        if pos > 0 {
            assert(pre.last() == v@[pos - 1]);
            assert(insert_sorted_seq(pre, p) == pre.push(p));
        } else {
            assert(insert_sorted_seq(pre, p) =~= seq![p]);
            assert(pre.push(p) =~= seq![p]);
        }
    }
    v.insert(pos, p);
    proof {
        let old_v = old(v)@;
        assert(v@ =~= old_v.take(pos as int).push(p) + old_v.skip(pos as int));
    }
}

/// The diagnostic for an expression that expands past the ceiling: it always
/// reports one port past the maximum, the count at which expansion stops.
pub open spec fn too_many_ports_message() -> Seq<char> {
    "too many ports: "@ + dec_digits_of(MAX_PORT_COUNT as int + 1) + " (max "@ + dec_digits_of(
        MAX_PORT_COUNT as int,
    ) + ")"@
}

/// The predicate selecting malformed tokens.
pub open spec fn token_invalid_pred() -> spec_fn(Seq<char>) -> bool {
    |t: Seq<char>| !token_valid(t)
}

/// The malformed tokens of an expression, in input order.
pub open spec fn invalid_tokens_of(s: Seq<char>) -> Seq<Seq<char>> {
    tokens_of(s, true).filter(token_invalid_pred())
}

/// The aggregated diagnostic naming every malformed token.
pub open spec fn invalid_ports_message(bad: Seq<Seq<char>>) -> Seq<char> {
    "invalid ports: "@ + join_with(bad, ", "@)
}

/// Expands a port expression in strict mode.
///
/// Tokens are separated by commas or whitespace; each is a single port or an
/// inclusive `start-end` range. Every malformed token is collected and
/// reported in one aggregated diagnostic; expanding past
/// [`MAX_PORT_COUNT`] distinct ports fails immediately with a
/// "too many ports" diagnostic, which takes precedence. On success the
/// result holds exactly the ports the expression names, ascending and
/// deduplicated.
#[verifier::loop_isolation(false)]
#[verifier::rlimit(60)]
pub fn parse_ports_expr_strict(input: &str) -> (r: Result<Vec<u16>, String>)
    ensures
        match r {
            Ok(v) => {
                &&& v@ == expanded_ports(input@)
                &&& strictly_ascending(v@)
                &&& forall|p: u16| v@.contains(p) <==> expr_covers(input@, p)
                &&& v@.len() <= MAX_PORT_COUNT
                &&& invalid_tokens_of(input@).len() == 0
            },
            Err(m) => if expanded_ports(input@).len() > MAX_PORT_COUNT {
                m@ == too_many_ports_message()
            } else {
                invalid_tokens_of(input@).len() > 0 && m@ == invalid_ports_message(
                    invalid_tokens_of(input@),
                )
            },
        },
{
    let toks = split_tokens(input, true);
    let ghost model = toks@.map_values(|t: String| t@);
    let mut out: Vec<u16> = Vec::new();
    let mut bad: Vec<String> = Vec::new();
    let mut i: usize = 0;
    proof {
        assert(model.take(0) =~= Seq::<Seq<char>>::empty());
        assert(model.take(0).filter(token_invalid_pred()) =~= Seq::<Seq<char>>::empty());
        assert(bad@.map_values(|t: String| t@) =~= Seq::<Seq<char>>::empty());
    }
    while i < toks.len()
        invariant
            i <= toks@.len(),
            model == toks@.map_values(|t: String| t@),
            model == tokens_of(input@, true),
            out@ == expand_tokens(model.take(i as int)),
            strictly_ascending(out@),
            out@.len() <= MAX_PORT_COUNT,
            bad@.map_values(|t: String| t@) == model.take(i as int).filter(token_invalid_pred()),
        decreases toks@.len() - i,
    {
        let ghost tm = model[i as int];
        let ghost base = out@;
        proof {
            assert(model.take(i as int + 1).drop_last() =~= model.take(i as int));
            assert(model.take(i as int + 1).last() == tm);
            Seq::lemma_filter_push(model.take(i as int), tm, token_invalid_pred());
            assert(model.take(i as int).push(tm) =~= model.take(i as int + 1));
        }
        let t = &toks[i];
        let tlen = t.as_str().unicode_len();
        match find_char_x(t.as_str(), '-') {
            Some(k) => {
                proof {
                    crate::text::lemma_find_char_characterization(tm, '-');
                }
                let a = t.as_str().substring_char(0, k);
                let b = t.as_str().substring_char(k + 1, tlen);
                proof {
                    assert(a@ =~= tm.take(k as int));
                    assert(b@ =~= tm.skip(k as int + 1));
                }
                let pa = parse_u16(a);
                let pb = parse_u16(b);
                let mut valid = false;
                let mut lo: u16 = 0;
                let mut hi: u16 = 0;
                match (pa, pb) {
                    (Some(x), Some(y)) => {
                        if 1 <= x && x <= y {
                            valid = true;
                            lo = x;
                            hi = y;
                        }
                    },
                    _ => {},
                }
                if valid {
                    proof {
                        assert(is_valid_range(tm));
                        assert(token_valid(tm));
                        assert(lo as int == uint_literal_value(tm.take(k as int)));
                        assert(hi as int == uint_literal_value(tm.skip(k as int + 1)));
                        assert(add_range(base, lo as int, lo as int - 1) == base);
                    }
                    let mut p: u32 = lo as u32;
                    while p <= hi as u32
                        invariant
                            lo as u32 <= p <= hi as u32 + 1,
                            out@ == add_range(base, lo as int, p as int - 1),
                            strictly_ascending(out@),
                            out@.len() <= MAX_PORT_COUNT,
                        decreases hi as int + 1 - p,
                    {
                        proof {
                            lemma_add_range(base, lo as int, p as int - 1);
                            lemma_insert_sorted_seq(add_range(base, lo as int, p as int - 1), p as u16);
                        }
                        let ghost len_before = out@.len();
                        insert_sorted(&mut out, p as u16);
                        proof {
                            let prev = add_range(base, lo as int, p as int - 1);
                            lemma_add_range_split(base, lo as int, p as int - 1, p as int);
                            assert(add_range(base, lo as int, p as int) == add_range(prev, p as int, p as int));
                            assert(((p as int) as u16) == p as u16);
                            assert(add_range(prev, p as int, p as int) == add_range(
                                insert_sorted_seq(prev, p as u16),
                                p as int + 1,
                                p as int,
                            ));
                            assert(add_range(insert_sorted_seq(prev, p as u16), p as int + 1, p as int)
                                == insert_sorted_seq(prev, p as u16));
                            assert(out@ == add_range(base, lo as int, p as int));
                            assert(out@.len() <= len_before + 1);
                            lemma_add_range(base, lo as int, p as int);
                        }
                        if out.len() > MAX_PORT_COUNT {
                            proof {
                                assert(out@.len() == MAX_PORT_COUNT + 1);
                                lemma_add_range_split(base, lo as int, p as int, hi as int);
                                lemma_add_range(out@, p as int + 1, hi as int);
                                assert(token_expand(base, tm) == add_range(base, lo as int, hi as int));
                                assert(model.take(i as int + 1).drop_last() =~= model.take(i as int));
                                assert(model.take(i as int + 1).last() == tm);
                                assert(expand_tokens(model.take(i as int + 1)) == token_expand(base, tm));
                                assert(expand_tokens(model.take(i as int + 1)).len()
                                    >= out@.len());
                                lemma_expand_tokens_take_len(model, i as int + 1);
                                assert(expanded_ports(input@).len() > MAX_PORT_COUNT);
                            }
                            let mut m = String::new();
                            m.append("too many ports: ");
                            let count = out.len();
                            m.append(u32_dec(count as u32).as_str());
                            m.append(" (max ");
                            m.append(u32_dec(MAX_PORT_COUNT as u32).as_str());
                            m.append(")");
                            return Err(m);
                        }
                        p = p + 1;
                    }
                    proof {
                        assert(out@ == add_range(base, lo as int, hi as int));
                        assert(out@ == token_expand(base, tm));
                        assert(out@ == expand_tokens(model.take(i as int + 1)));
                    }
                } else {
                    proof {
                        assert(!is_valid_range(tm)) by {
                            if is_valid_range(tm) {
                                assert(is_uint_literal(tm.take(k as int)));
                            }
                        }
                        assert(!token_valid(tm));
                        assert(token_expand(base, tm) == base);
                    }
                    let ghost bad_before = bad@.map_values(|t2: String| t2@);
                    bad.push(t.clone());
                    proof {
                        assert(bad@.map_values(|t2: String| t2@) =~= bad_before.push(tm));
                    }
                }
            },
            None => {
                let mut valid = false;
                let mut port: u16 = 0;
                match parse_u16(t.as_str()) {
                    Some(x) => {
                        if x >= 1 {
                            valid = true;
                            port = x;
                        }
                    },
                    None => {},
                }
                if valid {
                    proof {
                        assert(is_valid_single(tm));
                        assert(token_valid(tm));
                        lemma_insert_sorted_seq(base, port);
                    }
                    insert_sorted(&mut out, port);
                    proof {
                        assert((uint_literal_value(tm) as u16) == port);
                        assert(out@ == token_expand(base, tm));
                        assert(out@ == expand_tokens(model.take(i as int + 1)));
                    }
                    if out.len() > MAX_PORT_COUNT {
                        proof {
                            lemma_expand_tokens_take_len(model, i as int + 1);
                            assert(expanded_ports(input@).len() > MAX_PORT_COUNT);
                        }
                        let mut m = String::new();
                        m.append("too many ports: ");
                        let count = out.len();
                        m.append(u32_dec(count as u32).as_str());
                        m.append(" (max ");
                        m.append(u32_dec(MAX_PORT_COUNT as u32).as_str());
                        m.append(")");
                        return Err(m);
                    }
                } else {
                    proof {
                        assert(!is_valid_single(tm));
                        assert(!token_valid(tm));
                        assert(token_expand(base, tm) == base);
                    }
                    let ghost bad_before = bad@.map_values(|t2: String| t2@);
                    bad.push(t.clone());
                    proof {
                        assert(bad@.map_values(|t2: String| t2@) =~= bad_before.push(tm));
                    }
                }
            },
        }
        i += 1;
    }
    proof {
        assert(model.take(toks@.len() as int) =~= model);
    }
    if bad.len() > 0 {
        let mut m = String::new();
        m.append("invalid ports: ");
        let joined = join_strings(&bad, ", ");
        m.append(joined.as_str());
        proof {
            assert(m@ == invalid_ports_message(invalid_tokens_of(input@)));
            assert(invalid_tokens_of(input@).len() > 0) by {
                assert(bad@.map_values(|t2: String| t2@).len() == bad@.len());
            }
        }
        return Err(m);
    }
    proof {
        lemma_expand_tokens(model);
        assert forall|p: u16| out@.contains(p) <==> expr_covers(input@, p) by {}
    }
    Ok(out)
}

/// Chooses the expression a scan should use: an explicit expression wins,
/// otherwise the built-in default when it was asked for, otherwise nothing.
pub fn resolve_ports_expr(ports: Option<String>, use_default: bool) -> (r: Option<String>)
    ensures
        match ports {
            Some(v) => r matches Some(x) && x@ == v@,
            None => if use_default {
                r matches Some(x) && x@ == DEFAULT_PORTS_EXPR@
            } else {
                r is None
            },
        },
{
    match ports {
        Some(v) => Some(v),
        None => if use_default {
            Some(DEFAULT_PORTS_EXPR.to_owned())
        } else {
            None
        },
    }
}

} // verus!
