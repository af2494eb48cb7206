//! Character- and string-level helpers shared by the parsers: ASCII case
//! folding, whitespace trimming, substring search, tokenizing and decimal
//! conversion, each with a mathematical specification over `Seq<char>`.

use vstd::prelude::*;
use vstd::string::*;

verus! {

/// The characters the tokenizers treat as ASCII whitespace.
pub open spec fn is_space_char(c: char) -> bool {
    c == ' ' || c == '\t' || c == '\n' || c == '\r' || c == '\u{c}'
}

/// Runtime test for [`is_space_char`].
pub fn is_space_char_x(c: char) -> (r: bool)
    ensures
        r == is_space_char(c),
{
    c == ' ' || c == '\t' || c == '\n' || c == '\r' || c == '\u{c}'
}

/// ASCII lower-casing of a single character; everything outside `A`..`Z`
/// is left alone.
pub open spec fn lower_char(c: char) -> char {
    if 'A' <= c && c <= 'Z' {
        ((c as u32) + 32) as char
    } else {
        c
    }
}

/// ASCII lower-casing of a character sequence.
pub open spec fn lower_seq(s: Seq<char>) -> Seq<char> {
    s.map_values(|c: char| lower_char(c))
}

/// Computes `lower_char` on a live character.
pub fn lower_char_x(c: char) -> (r: char)
    ensures
        r == lower_char(c),
{
    if 'A' <= c && c <= 'Z' {
        let u: u8 = c as u8;
        let l: u8 = u + 32;
        l as char
    } else {
        c
    }
}

/// Lower-casing a character twice is the same as doing it once.
pub proof fn lemma_lower_char_idempotent(c: char)
    ensures
        lower_char(lower_char(c)) == lower_char(c),
{
}

/// Lower-casing a sequence twice is the same as doing it once.
pub proof fn lemma_lower_seq_idempotent(s: Seq<char>)
    ensures
        lower_seq(lower_seq(s)) == lower_seq(s),
{
    assert(lower_seq(lower_seq(s)) =~= lower_seq(s)) by {
        assert forall|i: int| 0 <= i < s.len() implies lower_seq(lower_seq(s))[i] == lower_seq(
            s,
        )[i] by {
            lemma_lower_char_idempotent(s[i]);
        }
    }
}

/// The needle `n` occurs in the haystack `h` starting at index `i`.
pub open spec fn matches_at(h: Seq<char>, n: Seq<char>, i: int) -> bool {
    0 <= i && i + n.len() <= h.len() && h.subrange(i, i + n.len() as int) == n
}

/// The needle `n` occurs somewhere in the haystack `h`.
pub open spec fn contains_seq(h: Seq<char>, n: Seq<char>) -> bool {
    exists|i: int| matches_at(h, n, i)
}

/// Case folding applied to a whole sequence when `fold` is set.
pub open spec fn fold_seq(s: Seq<char>, fold: bool) -> Seq<char> {
    if fold {
        lower_seq(s)
    } else {
        s
    }
}

/// Substring search; with `fold` set, both sides are ASCII-lower-cased first.
#[verifier::loop_isolation(false)]
fn contains_impl(h: &str, n: &str, fold: bool) -> (r: bool)
    ensures
        r == contains_seq(fold_seq(h@, fold), fold_seq(n@, fold)),
{
    let hl = h.unicode_len();
    let nl = n.unicode_len();
    if nl > hl {
        assert(!contains_seq(fold_seq(h@, fold), fold_seq(n@, fold)));
        return false;
    }
    if nl == 0 {
        proof {
            let fh = fold_seq(h@, fold);
            let fn_ = fold_seq(n@, fold);
            assert(fh.subrange(0, 0) =~= fn_);
            assert(matches_at(fh, fn_, 0));
        }
        return true;
    }
    let limit = hl - nl;
    let mut i: usize = 0;
    while i <= limit
        invariant
            i <= limit + 1,
            forall|k: int| 0 <= k < i ==> !matches_at(fold_seq(h@, fold), fold_seq(n@, fold), k),
        decreases limit + 1 - i,
    {
        let mut j: usize = 0;
        let mut hit = true;
        while j < nl
            invariant
                j <= nl,
                hit ==> forall|t: int|
                    0 <= t < j ==> fold_seq(h@, fold)[i + t] == fold_seq(n@, fold)[t],
                !hit ==> !matches_at(fold_seq(h@, fold), fold_seq(n@, fold), i as int),
            decreases nl - j,
        {
            let hc = h.get_char(i + j);
            let nc = n.get_char(j);
            let hf = if fold {
                lower_char_x(hc)
            } else {
                hc
            };
            let nf = if fold {
                lower_char_x(nc)
            } else {
                nc
            };
            if hf != nf {
                proof {
                    let fh = fold_seq(h@, fold);
                    let fn_ = fold_seq(n@, fold);
                    assert(fh[i + j] != fn_[j as int]);
                    if matches_at(fh, fn_, i as int) {
                        assert(fh.subrange(i as int, i + fn_.len() as int)[j as int] == fh[i + j]);
                    }
                }
                hit = false;
            }
            j += 1;
        }
        if hit {
            proof {
                let fh = fold_seq(h@, fold);
                let fn_ = fold_seq(n@, fold);
                assert(fh.subrange(i as int, i + fn_.len() as int) =~= fn_);
                assert(matches_at(fh, fn_, i as int));
            }
            return true;
        }
        i += 1;
    }
    proof {
        let fh = fold_seq(h@, fold);
        let fn_ = fold_seq(n@, fold);
        assert forall|k: int| !matches_at(fh, fn_, k) by {
            if k > hl - nl {
                assert(!matches_at(fh, fn_, k));
            }
        }
    }
    false
}

/// Exact substring test.
pub fn contains_str(h: &str, n: &str) -> (r: bool)
    ensures
        r == contains_seq(h@, n@),
{
    contains_impl(h, n, false)
}

/// ASCII-case-insensitive substring test.
pub fn contains_nocase(h: &str, n: &str) -> (r: bool)
    ensures
        r == contains_seq(lower_seq(h@), lower_seq(n@)),
{
    contains_impl(h, n, true)
}

/// The sequence with leading ASCII whitespace removed.
pub open spec fn ltrim(s: Seq<char>) -> Seq<char>
    decreases s.len(),
{
    if s.len() > 0 && is_space_char(s[0]) {
        ltrim(s.drop_first())
    } else {
        s
    }
}

/// The sequence with trailing ASCII whitespace removed.
pub open spec fn rtrim(s: Seq<char>) -> Seq<char>
    decreases s.len(),
{
    if s.len() > 0 && is_space_char(s.last()) {
        rtrim(s.drop_last())
    } else {
        s
    }
}

/// The sequence with both leading and trailing ASCII whitespace removed.
pub open spec fn trim_seq(s: Seq<char>) -> Seq<char> {
    rtrim(ltrim(s))
}

/// Copies `s` without its leading and trailing ASCII whitespace.
#[verifier::loop_isolation(false)]
pub fn trim_str(s: &str) -> (r: String)
    ensures
        r@ == trim_seq(s@),
{
    let n = s.unicode_len();
    proof {
        assert(s@.skip(0) =~= s@);
    }
    let mut start: usize = 0;
    while start < n && is_space_char_x(s.get_char(start))
        invariant
            start <= n,
            ltrim(s@) == ltrim(s@.skip(start as int)),
        decreases n - start,
    {
        proof {
            let tail = s@.skip(start as int);
            assert(tail[0] == s@[start as int]);
            assert(tail.drop_first() =~= s@.skip(start as int + 1));
        }
        start += 1;
    }
    proof {
        let tail = s@.skip(start as int);
        if start < n {
            assert(tail[0] == s@[start as int]);
        }
        assert(ltrim(s@) == tail);
        assert(s@.subrange(start as int, n as int) =~= tail);
    }
    let mut end: usize = n;
    while end > start && is_space_char_x(s.get_char(end - 1))
        invariant
            start <= end <= n,
            rtrim(ltrim(s@)) == rtrim(s@.subrange(start as int, end as int)),
        decreases end,
    {
        proof {
            let mid = s@.subrange(start as int, end as int);
            assert(mid.last() == s@[end - 1]);
            assert(mid.drop_last() =~= s@.subrange(start as int, end as int - 1));
        }
        end -= 1;
    }
    proof {
        let mid = s@.subrange(start as int, end as int);
        if end > start {
            assert(mid.last() == s@[end - 1]);
        }
        assert(rtrim(mid) == mid);
    }
    s.substring_char(start, end).to_owned()
}

/// Lower-casing never makes a character whitespace, nor the other way
/// around.
pub proof fn lemma_lower_char_keeps_space(c: char)
    ensures
        is_space_char(lower_char(c)) == is_space_char(c),
{
}

/// A trimmed sequence does not start with whitespace.
pub proof fn lemma_ltrim_head(s: Seq<char>)
    ensures
        ltrim(s).len() > 0 ==> !is_space_char(ltrim(s)[0]),
    decreases s.len(),
{
    if s.len() > 0 && is_space_char(s[0]) {
        lemma_ltrim_head(s.drop_first());
    }
}

/// A trimmed sequence does not end with whitespace.
pub proof fn lemma_rtrim_last(s: Seq<char>)
    ensures
        rtrim(s).len() > 0 ==> !is_space_char(rtrim(s).last()),
    decreases s.len(),
{
    if s.len() > 0 && is_space_char(s.last()) {
        lemma_rtrim_last(s.drop_last());
    }
}

/// What is right-trimmed is a prefix of the input.
pub proof fn lemma_rtrim_prefix(s: Seq<char>)
    ensures
        rtrim(s).len() <= s.len(),
        forall|i: int| 0 <= i < rtrim(s).len() ==> rtrim(s)[i] == s[i],
    decreases s.len(),
{
    if s.len() > 0 && is_space_char(s.last()) {
        let d = s.drop_last();
        lemma_rtrim_prefix(d);
        assert forall|i: int| 0 <= i < rtrim(s).len() implies rtrim(s)[i] == s[i] by {
            assert(rtrim(s)[i] == rtrim(d)[i]);
            assert(rtrim(d)[i] == d[i]);
            assert(d[i] == s[i]);
        }
    }
}

/// Trimming twice is the same as trimming once.
pub proof fn lemma_trim_idempotent(s: Seq<char>)
    ensures
        trim_seq(trim_seq(s)) == trim_seq(s),
{
    let u = ltrim(s);
    let v = rtrim(u);
    lemma_ltrim_head(s);
    lemma_rtrim_last(u);
    lemma_rtrim_prefix(u);
    if v.len() > 0 {
        assert(v[0] == u[0]);
        assert(!is_space_char(v[0]));
        assert(ltrim(v) == v);
        assert(rtrim(v) == v);
    } else {
        assert(ltrim(v) == v);
        assert(rtrim(v) == v);
    }
}

/// Lower-casing commutes with left-trimming.
pub proof fn lemma_lower_ltrim(s: Seq<char>)
    ensures
        ltrim(lower_seq(s)) == lower_seq(ltrim(s)),
    decreases s.len(),
{
    if s.len() == 0 {
        assert(lower_seq(s) =~= Seq::<char>::empty());
    } else {
        assert(lower_seq(s)[0] == lower_char(s[0]));
        lemma_lower_char_keeps_space(s[0]);
        if is_space_char(s[0]) {
            lemma_lower_ltrim(s.drop_first());
            assert(lower_seq(s).drop_first() =~= lower_seq(s.drop_first()));
        } else {
            assert(ltrim(lower_seq(s)) == lower_seq(s));
            assert(ltrim(s) == s);
        }
    }
}

/// Lower-casing commutes with right-trimming.
pub proof fn lemma_lower_rtrim(s: Seq<char>)
    ensures
        rtrim(lower_seq(s)) == lower_seq(rtrim(s)),
    decreases s.len(),
{
    if s.len() == 0 {
        assert(lower_seq(s) =~= Seq::<char>::empty());
    } else {
        assert(lower_seq(s).last() == lower_char(s.last()));
        lemma_lower_char_keeps_space(s.last());
        if is_space_char(s.last()) {
            lemma_lower_rtrim(s.drop_last());
            assert(lower_seq(s).drop_last() =~= lower_seq(s.drop_last()));
        } else {
            assert(rtrim(lower_seq(s)) == lower_seq(s));
            assert(rtrim(s) == s);
        }
    }
}

/// Lower-casing commutes with trimming.
pub proof fn lemma_lower_trim(s: Seq<char>)
    ensures
        trim_seq(lower_seq(s)) == lower_seq(trim_seq(s)),
{
    lemma_lower_ltrim(s);
    lemma_lower_rtrim(ltrim(s));
}

/// ASCII-case-insensitive string equality.
#[verifier::loop_isolation(false)]
pub fn eq_ignore_case(a: &str, b: &str) -> (r: bool)
    ensures
        r == (lower_seq(a@) == lower_seq(b@)),
{
    let al = a.unicode_len();
    let bl = b.unicode_len();
    if al != bl {
        proof {
            assert(lower_seq(a@).len() == a@.len());
            assert(lower_seq(b@).len() == b@.len());
        }
        return false;
    }
    let mut i: usize = 0;
    while i < al
        invariant
            i <= al,
            forall|j: int| 0 <= j < i ==> lower_seq(a@)[j] == lower_seq(b@)[j],
        decreases al - i,
    {
        let ca = lower_char_x(a.get_char(i));
        let cb = lower_char_x(b.get_char(i));
        if ca != cb {
            proof {
                assert(lower_seq(a@)[i as int] != lower_seq(b@)[i as int]);
            }
            return false;
        }
        i += 1;
    }
    proof {
        assert(lower_seq(a@) =~= lower_seq(b@));
    }
    true
}

/// The sequence with leading copies of `c` removed.
pub open spec fn ltrim_char(s: Seq<char>, c: char) -> Seq<char>
    decreases s.len(),
{
    if s.len() > 0 && s[0] == c {
        ltrim_char(s.drop_first(), c)
    } else {
        s
    }
}

/// The sequence with trailing copies of `c` removed.
pub open spec fn rtrim_char(s: Seq<char>, c: char) -> Seq<char>
    decreases s.len(),
{
    if s.len() > 0 && s.last() == c {
        rtrim_char(s.drop_last(), c)
    } else {
        s
    }
}

/// The sequence with leading and trailing copies of `c` removed, as the
/// standard `trim_matches` does for a single-character pattern.
pub open spec fn trim_char_seq(s: Seq<char>, c: char) -> Seq<char> {
    rtrim_char(ltrim_char(s, c), c)
}

/// Copies `s` without its leading and trailing copies of `c`.
#[verifier::loop_isolation(false)]
pub fn trim_char_str(s: &str, c: char) -> (r: String)
    ensures
        r@ == trim_char_seq(s@, c),
{
    let n = s.unicode_len();
    proof {
        assert(s@.skip(0) =~= s@);
    }
    let mut start: usize = 0;
    while start < n && s.get_char(start) == c
        invariant
            start <= n,
            ltrim_char(s@, c) == ltrim_char(s@.skip(start as int), c),
        decreases n - start,
    {
        proof {
            let tail = s@.skip(start as int);
            assert(tail[0] == s@[start as int]);
            assert(tail.drop_first() =~= s@.skip(start as int + 1));
        }
        start += 1;
    }
    proof {
        let tail = s@.skip(start as int);
        if start < n {
            assert(tail[0] == s@[start as int]);
        }
        assert(ltrim_char(s@, c) == tail);
        assert(s@.subrange(start as int, n as int) =~= tail);
    }
    let mut end: usize = n;
    while end > start && s.get_char(end - 1) == c
        invariant
            start <= end <= n,
            rtrim_char(ltrim_char(s@, c), c) == rtrim_char(s@.subrange(start as int, end as int), c),
        decreases end,
    {
        proof {
            let mid = s@.subrange(start as int, end as int);
            assert(mid.last() == s@[end - 1]);
            assert(mid.drop_last() =~= s@.subrange(start as int, end as int - 1));
        }
        end -= 1;
    }
    proof {
        let mid = s@.subrange(start as int, end as int);
        if end > start {
            assert(mid.last() == s@[end - 1]);
        }
        assert(rtrim_char(mid, c) == mid);
    }
    s.substring_char(start, end).to_owned()
}

/// Decimal digit test.
pub open spec fn is_dec_digit(c: char) -> bool {
    '0' <= c && c <= '9'
}

/// Runtime test for [`is_dec_digit`].
pub fn is_dec_digit_x(c: char) -> (r: bool)
    ensures
        r == is_dec_digit(c),
{
    '0' <= c && c <= '9'
}

/// Numeric value of a decimal digit; anything else counts as zero so the
/// value is always non-negative.
pub open spec fn digit_val(c: char) -> int {
    if is_dec_digit(c) {
        (c as int) - ('0' as int)
    } else {
        0
    }
}

/// Value of a digit string read in base ten.
pub open spec fn dec_value(s: Seq<char>) -> int
    decreases s.len(),
{
    if s.len() == 0 {
        0
    } else {
        dec_value(s.drop_last()) * 10 + digit_val(s.last())
    }
}

/// Every character is a decimal digit.
pub open spec fn all_dec_digits(s: Seq<char>) -> bool {
    forall|i: int| 0 <= i < s.len() ==> is_dec_digit(s[i])
}

/// A non-empty, all-digit string.
pub open spec fn is_dec_number(s: Seq<char>) -> bool {
    s.len() > 0 && all_dec_digits(s)
}

/// The digits of an unsigned numeric literal: a leading `+` sign, if any,
/// is dropped, as the standard integer parsers do.
pub open spec fn num_body(s: Seq<char>) -> Seq<char> {
    if s.len() > 0 && s[0] == '+' {
        s.drop_first()
    } else {
        s
    }
}

/// The shape the standard unsigned parsers accept, ignoring their range check.
pub open spec fn is_uint_literal(s: Seq<char>) -> bool {
    is_dec_number(num_body(s))
}

/// Value of an unsigned numeric literal.
pub open spec fn uint_literal_value(s: Seq<char>) -> int {
    dec_value(num_body(s))
}

/// The value never decreases as a digit string is extended to the right.
pub proof fn lemma_dec_value_take_le(s: Seq<char>, i: int)
    requires
        0 <= i <= s.len(),
    ensures
        dec_value(s.take(i)) <= dec_value(s),
    decreases s.len() - i,
{
    if i < s.len() {
        lemma_dec_value_take_le(s, i + 1);
        let t = s.take(i + 1);
        assert(t.drop_last() =~= s.take(i));
        assert(dec_value(s.take(i)) >= 0) by {
            lemma_dec_value_nonneg(s.take(i));
        }
        assert(dec_value(t) == dec_value(s.take(i)) * 10 + digit_val(t.last()));
        assert(digit_val(t.last()) >= 0);
    } else {
        assert(s.take(i) =~= s);
    }
}

/// A digit-string value is never negative.
pub proof fn lemma_dec_value_nonneg(s: Seq<char>)
    ensures
        dec_value(s) >= 0,
    decreases s.len(),
{
    if s.len() > 0 {
        lemma_dec_value_nonneg(s.drop_last());
    }
}

/// Parses the all-digit run `s[from..to]`, read in base ten, refusing a value
/// above `cap`. `None` exactly when the run is empty, holds a non-digit, or
/// its value is out of range.
#[verifier::loop_isolation(false)]
pub fn parse_digit_run(s: &str, from: usize, to: usize, cap: u32) -> (r: Option<u32>)
    requires
        from <= to <= s@.len(),
    ensures
        match r {
            Some(v) => is_dec_number(s@.subrange(from as int, to as int)) && v as int == dec_value(
                s@.subrange(from as int, to as int),
            ) && v <= cap,
            None => !(is_dec_number(s@.subrange(from as int, to as int)) && dec_value(
                s@.subrange(from as int, to as int),
            ) <= cap as int),
        },
{
    let ghost body = s@.subrange(from as int, to as int);
    if from == to {
        return None;
    }
    let mut acc: u64 = 0;
    let mut i: usize = from;
    while i < to
        invariant
            from <= i <= to,
            acc as int == dec_value(s@.subrange(from as int, i as int)),
            acc <= cap,
            all_dec_digits(s@.subrange(from as int, i as int)),
        decreases to - i,
    {
        let c = s.get_char(i);
        if !('0' <= c && c <= '9') {
            proof {
                assert(body[i - from] == s@[i as int]);
                assert(!is_dec_number(body));
            }
            return None;
        }
        let d: u32 = (c as u32) - 0x30;
        let next: u64 = acc * 10 + (d as u64);
        proof {
            let pre = s@.subrange(from as int, i as int);
            let pre1 = s@.subrange(from as int, i as int + 1);
            assert(pre1.drop_last() =~= pre);
            assert(pre1.last() == s@[i as int]);
            assert(digit_val(s@[i as int]) == d as int);
            assert(next as int == dec_value(pre1));
        }
        if next > cap as u64 {
            proof {
                let pre1 = s@.subrange(from as int, i as int + 1);
                assert(pre1 =~= body.take(i - from + 1));
                lemma_dec_value_take_le(body, i - from + 1);
                assert(dec_value(body) > cap as int);
            }
            return None;
        }
        acc = next as u64;
        i += 1;
    }
    proof {
        assert(s@.subrange(from as int, to as int) =~= body);
    }
    Some(acc as u32)
}

/// Parses a `u16` the way the standard library does: an optional leading `+`,
/// then decimal digits, rejecting values above `u16::MAX`.
pub fn parse_u16(s: &str) -> (r: Option<u16>)
    ensures
        match r {
            Some(v) => is_uint_literal(s@) && v as int == uint_literal_value(s@)
                && uint_literal_value(s@) <= 0xffff,
            None => !(is_uint_literal(s@) && uint_literal_value(s@) <= 0xffff),
        },
{
    let n = s.unicode_len();
    let from: usize = if n > 0 && s.get_char(0) == '+' {
        1
    } else {
        0
    };
    proof {
        assert(s@.subrange(from as int, n as int) =~= num_body(s@));
    }
    match parse_digit_run(s, from, n, 0xffff) {
        Some(v) => Some(v as u16),
        None => None,
    }
}

/// Parses a `u32` the way the standard library does.
pub fn parse_u32(s: &str) -> (r: Option<u32>)
    ensures
        match r {
            Some(v) => is_uint_literal(s@) && v as int == uint_literal_value(s@)
                && uint_literal_value(s@) <= 0xffff_ffff,
            None => !(is_uint_literal(s@) && uint_literal_value(s@) <= 0xffff_ffff),
        },
{
    let n = s.unicode_len();
    let from: usize = if n > 0 && s.get_char(0) == '+' {
        1
    } else {
        0
    };
    proof {
        assert(s@.subrange(from as int, n as int) =~= num_body(s@));
    }
    parse_digit_run(s, from, n, 0xffff_ffff)
}

/// The character for a single decimal digit.
pub open spec fn digit_char(d: int) -> char {
    if d == 0 {
        '0'
    } else if d == 1 {
        '1'
    } else if d == 2 {
        '2'
    } else if d == 3 {
        '3'
    } else if d == 4 {
        '4'
    } else if d == 5 {
        '5'
    } else if d == 6 {
        '6'
    } else if d == 7 {
        '7'
    } else if d == 8 {
        '8'
    } else {
        '9'
    }
}

/// The base-ten rendering of a non-negative number, most significant digit
/// first, without leading zeros.
pub open spec fn dec_digits_of(n: int) -> Seq<char>
    decreases n,
{
    if n < 10 {
        seq![digit_char(n)]
    } else {
        dec_digits_of(n / 10).push(digit_char(n % 10))
    }
}

/// A one-character string for a decimal digit.
fn digit_str(d: u32) -> (r: &'static str)
    requires
        d < 10,
    ensures
        r@ =~= seq![digit_char(d as int)],
{
    proof {
        reveal_strlit("0");
        reveal_strlit("1");
        reveal_strlit("2");
        reveal_strlit("3");
        reveal_strlit("4");
        reveal_strlit("5");
        reveal_strlit("6");
        reveal_strlit("7");
        reveal_strlit("8");
        reveal_strlit("9");
    }
    if d == 0 {
        "0"
    } else if d == 1 {
        "1"
    } else if d == 2 {
        "2"
    } else if d == 3 {
        "3"
    } else if d == 4 {
        "4"
    } else if d == 5 {
        "5"
    } else if d == 6 {
        "6"
    } else if d == 7 {
        "7"
    } else if d == 8 {
        "8"
    } else {
        "9"
    }
}

/// Renders a `u32` in base ten.
pub fn u32_dec(n: u32) -> (s: String)
    ensures
        s@ == dec_digits_of(n as int),
    decreases n,
{
    if n < 10 {
        digit_str(n).to_owned()
    } else {
        let mut s = u32_dec(n / 10);
        s.append(digit_str(n % 10));
        proof {
            assert(dec_digits_of((n / 10) as int) + seq![digit_char((n % 10) as int)]
                =~= dec_digits_of(n as int));
        }
        s
    }
}

/// Index of the last occurrence of `c` in `s`.
pub open spec fn rfind_char(s: Seq<char>, c: char) -> Option<int>
    decreases s.len(),
{
    if s.len() == 0 {
        None
    } else if s.last() == c {
        Some(s.len() - 1)
    } else {
        rfind_char(s.drop_last(), c)
    }
}

/// Finds the last occurrence of `c` in `s`.
#[verifier::loop_isolation(false)]
pub fn rfind_char_x(s: &str, c: char) -> (r: Option<usize>)
    ensures
        match r {
            Some(i) => rfind_char(s@, c) == Some(i as int),
            None => rfind_char(s@, c) is None,
        },
{
    let n = s.unicode_len();
    proof {
        assert(s@.take(n as int) =~= s@);
    }
    let mut i: usize = n;
    while i > 0
        invariant
            i <= n,
            rfind_char(s@, c) == rfind_char(s@.take(i as int), c),
        decreases i,
    {
        let ch = s.get_char(i - 1);
        proof {
            let pre = s@.take(i as int);
            assert(pre.last() == s@[i - 1]);
            assert(pre.drop_last() =~= s@.take(i as int - 1));
        }
        if ch == c {
            return Some(i - 1);
        }
        i -= 1;
    }
    None
}

/// Index of the first occurrence of `c` in `s`.
pub open spec fn find_char(s: Seq<char>, c: char) -> Option<int>
    decreases s.len(),
{
    if s.len() == 0 {
        None
    } else if s[0] == c {
        Some(0)
    } else {
        match find_char(s.drop_first(), c) {
            Some(i) => Some(i + 1),
            None => None,
        }
    }
}

/// `find_char` returns the least index holding `c`, or `None` when `c` does
/// not occur.
pub proof fn lemma_find_char_characterization(s: Seq<char>, c: char)
    ensures
        match find_char(s, c) {
            Some(i) => 0 <= i < s.len() && s[i] == c && forall|j: int| 0 <= j < i ==> s[j] != c,
            None => forall|j: int| 0 <= j < s.len() ==> s[j] != c,
        },
    decreases s.len(),
{
    if s.len() > 0 && s[0] != c {
        let d = s.drop_first();
        lemma_find_char_characterization(d, c);
        assert(forall|j: int| 0 <= j < d.len() ==> d[j] == s[j + 1]);
        match find_char(d, c) {
            Some(i) => {
                assert(find_char(s, c) == Some(i + 1));
                assert(s[i + 1] == d[i]);
                assert forall|j: int| 0 <= j < i + 1 implies s[j] != c by {
                    if j > 0 {
                        assert(d[j - 1] != c);
                    }
                }
            },
            None => {
                assert forall|j: int| 0 <= j < s.len() implies s[j] != c by {
                    if j > 0 {
                        assert(d[j - 1] != c);
                    }
                }
            },
        }
    }
}

/// Finds the first occurrence of `c` in `s`.
#[verifier::loop_isolation(false)]
pub fn find_char_x(s: &str, c: char) -> (r: Option<usize>)
    ensures
        match r {
            Some(i) => find_char(s@, c) == Some(i as int),
            None => find_char(s@, c) is None,
        },
{
    proof {
        lemma_find_char_characterization(s@, c);
    }
    let n = s.unicode_len();
    let mut i: usize = 0;
    while i < n
        invariant
            i <= n,
            forall|j: int| 0 <= j < i ==> s@[j] != c,
        decreases n - i,
    {
        if s.get_char(i) == c {
            proof {
                if let Some(k) = find_char(s@, c) {
                    assert(k == i);
                } else {
                    assert(false);
                }
            }
            return Some(i);
        }
        i += 1;
    }
    None
}

/// A found last occurrence lies inside the sequence and holds the character.
pub proof fn lemma_rfind_char_in_range(s: Seq<char>, c: char)
    ensures
        match rfind_char(s, c) {
            Some(i) => 0 <= i < s.len() && s[i] == c,
            None => true,
        },
    decreases s.len(),
{
    if s.len() > 0 && s.last() != c {
        lemma_rfind_char_in_range(s.drop_last(), c);
    }
}

/// Index of the first occurrence of the needle `n` in `h`.
pub open spec fn find_sub(h: Seq<char>, n: Seq<char>) -> Option<int>
    decreases h.len(),
{
    if h.len() < n.len() {
        None
    } else if h.take(n.len() as int) == n {
        Some(0)
    } else if h.len() == 0 {
        None
    } else {
        match find_sub(h.drop_first(), n) {
            Some(i) => Some(i + 1),
            None => None,
        }
    }
}

/// `find_sub` returns the least index at which the needle matches, or
/// `None` when it matches nowhere.
pub proof fn lemma_find_sub_characterization(h: Seq<char>, n: Seq<char>)
    ensures
        match find_sub(h, n) {
            Some(i) => matches_at(h, n, i) && forall|j: int| 0 <= j < i ==> !matches_at(h, n, j),
            None => forall|j: int| !matches_at(h, n, j),
        },
    decreases h.len(),
{
    if h.len() < n.len() {
        assert(forall|j: int| !matches_at(h, n, j));
    } else if h.take(n.len() as int) == n {
        assert(h.subrange(0, n.len() as int) =~= h.take(n.len() as int));
        assert(matches_at(h, n, 0));
    } else if h.len() == 0 {
        assert(forall|j: int| !matches_at(h, n, j));
    } else {
        lemma_find_sub_characterization(h.drop_first(), n);
        assert forall|j: int| 1 <= j implies matches_at(h, n, j) == matches_at(
            h.drop_first(),
            n,
            j - 1,
        ) by {
            if matches_at(h, n, j) {
                assert(h.drop_first().subrange(j - 1, j - 1 + n.len() as int) =~= h.subrange(
                    j,
                    j + n.len() as int,
                ));
            }
            if matches_at(h.drop_first(), n, j - 1) {
                assert(h.subrange(j, j + n.len() as int) =~= h.drop_first().subrange(
                    j - 1,
                    j - 1 + n.len() as int,
                ));
            }
        }
        assert(!matches_at(h, n, 0)) by {
            if matches_at(h, n, 0) {
                assert(h.take(n.len() as int) =~= h.subrange(0, n.len() as int));
            }
        }
    }
}

/// Finds the first occurrence of the needle `n` in `h`.
#[verifier::loop_isolation(false)]
pub fn find_sub_x(h: &str, n: &str) -> (r: Option<usize>)
    ensures
        match r {
            Some(i) => find_sub(h@, n@) == Some(i as int),
            None => find_sub(h@, n@) is None,
        },
{
    let hl = h.unicode_len();
    let nl = n.unicode_len();
    proof {
        lemma_find_sub_characterization(h@, n@);
    }
    if nl > hl {
        return None;
    }
    if nl == 0 {
        proof {
            assert(h@.subrange(0, 0) =~= n@);
            assert(matches_at(h@, n@, 0));
        }
        return Some(0);
    }
    let limit = hl - nl;
    let mut i: usize = 0;
    while i <= limit
        invariant
            i <= limit + 1,
            forall|k: int| 0 <= k < i ==> !matches_at(h@, n@, k),
        decreases limit + 1 - i,
    {
        let mut j: usize = 0;
        let mut hit = true;
        while j < nl
            invariant
                j <= nl,
                hit ==> forall|t: int| 0 <= t < j ==> h@[i + t] == n@[t],
                !hit ==> !matches_at(h@, n@, i as int),
            decreases nl - j,
        {
            if h.get_char(i + j) != n.get_char(j) {
                proof {
                    if matches_at(h@, n@, i as int) {
                        assert(h@.subrange(i as int, i + n@.len() as int)[j as int] == h@[i + j]);
                    }
                }
                hit = false;
            }
            j += 1;
        }
        if hit {
            proof {
                assert(h@.subrange(i as int, i + n@.len() as int) =~= n@);
                assert(matches_at(h@, n@, i as int));
            }
            return Some(i);
        }
        i += 1;
    }
    proof {
        assert forall|k: int| !matches_at(h@, n@, k) by {
            if k > limit {
                assert(!matches_at(h@, n@, k));
            }
        }
    }
    None
}

/// A found first occurrence of the needle fits inside the haystack.
pub proof fn lemma_find_sub_in_range(h: Seq<char>, n: Seq<char>)
    ensures
        match find_sub(h, n) {
            Some(i) => 0 <= i && i + n.len() <= h.len(),
            None => true,
        },
{
    lemma_find_sub_characterization(h, n);
}

/// The longest all-digit prefix of `s`.
pub open spec fn digits_prefix(s: Seq<char>) -> Seq<char>
    decreases s.len(),
{
    if s.len() > 0 && is_dec_digit(s[0]) {
        seq![s[0]] + digits_prefix(s.drop_first())
    } else {
        Seq::empty()
    }
}

/// Length of the all-digit prefix of `s`: every character before it is a
/// digit and the character after it, if any, is not.
#[verifier::loop_isolation(false)]
pub fn digits_prefix_len(s: &str, from: usize) -> (r: usize)
    requires
        from <= s@.len(),
    ensures
        from <= r <= s@.len(),
        digits_prefix(s@.skip(from as int)) =~= s@.subrange(from as int, r as int),
{
    let n = s.unicode_len();
    let mut i: usize = from;
    while i < n && is_dec_digit_x(s.get_char(i))
        invariant
            from <= i <= n,
            digits_prefix(s@.skip(from as int)) =~= s@.subrange(from as int, i as int)
                + digits_prefix(s@.skip(i as int)),
            all_dec_digits(s@.subrange(from as int, i as int)),
        decreases n - i,
    {
        proof {
            let tail = s@.skip(i as int);
            assert(tail[0] == s@[i as int]);
            assert(tail.drop_first() =~= s@.skip(i as int + 1));
            assert(s@.subrange(from as int, i as int) + seq![s@[i as int]] =~= s@.subrange(
                from as int,
                i as int + 1,
            ));
        }
        i += 1;
    }
    proof {
        let tail = s@.skip(i as int);
        if i < n {
            assert(tail[0] == s@[i as int]);
        }
        assert(digits_prefix(tail) =~= Seq::empty());
    }
    i
}

/// `parts` glued together with `sep` between neighbours.
pub open spec fn join_with(parts: Seq<Seq<char>>, sep: Seq<char>) -> Seq<char>
    decreases parts.len(),
{
    if parts.len() == 0 {
        Seq::empty()
    } else if parts.len() == 1 {
        parts[0]
    } else {
        parts[0] + sep + join_with(parts.drop_first(), sep)
    }
}

/// Appending one part on the right extends the joined text on the right.
pub proof fn lemma_join_with_push(parts: Seq<Seq<char>>, sep: Seq<char>, last: Seq<char>)
    ensures
        join_with(parts.push(last), sep) == if parts.len() == 0 {
            last
        } else {
            join_with(parts, sep) + sep + last
        },
    decreases parts.len(),
{
    let all = parts.push(last);
    if parts.len() == 0 {
        assert(all[0] == last);
    } else if parts.len() == 1 {
        assert(all.drop_first() =~= seq![last]);
        assert(join_with(seq![last], sep) == seq![last][0]);
        assert(join_with(all, sep) == all[0] + sep + join_with(all.drop_first(), sep));
        assert(join_with(all, sep) == parts[0] + sep + last);
        assert(join_with(parts, sep) == parts[0]);
    } else {
        lemma_join_with_push(parts.drop_first(), sep, last);
        assert(all.drop_first() =~= parts.drop_first().push(last));
        assert(join_with(all, sep) == all[0] + sep + join_with(parts.drop_first().push(last), sep));
        assert(join_with(parts.drop_first().push(last), sep) == join_with(parts.drop_first(), sep)
            + sep + last);
        assert(all[0] + sep + (join_with(parts.drop_first(), sep) + sep + last) =~= (parts[0] + sep
            + join_with(parts.drop_first(), sep)) + sep + last);
    }
}

/// Glues the strings in `parts` together with `sep` between neighbours.
#[verifier::loop_isolation(false)]
pub fn join_strings(parts: &Vec<String>, sep: &str) -> (r: String)
    ensures
        r@ == join_with(parts@.map_values(|p: String| p@), sep@),
{
    let ghost model = parts@.map_values(|p: String| p@);
    let mut r = String::new();
    let mut i: usize = 0;
    proof {
        assert(model.take(0) =~= Seq::<Seq<char>>::empty());
    }
    while i < parts.len()
        invariant
            i <= parts.len(),
            r@ == join_with(model.take(i as int), sep@),
        decreases parts.len() - i,
    {
        if i > 0 {
            r.append(sep);
        }
        r.append(parts[i].as_str());
        proof {
            assert(model.take(i as int).push(model[i as int]) =~= model.take(i as int + 1));
            lemma_join_with_push(model.take(i as int), sep@, model[i as int]);
        }
        i += 1;
    }
    proof {
        assert(model.take(parts@.len() as int) =~= model);
    }
    r
}

/// A separator of a port-expression token list: a comma or ASCII whitespace.
pub open spec fn is_expr_sep(c: char) -> bool {
    c == ',' || is_space_char(c)
}

/// Runtime test for [`is_expr_sep`].
pub fn is_expr_sep_x(c: char) -> (r: bool)
    ensures
        r == is_expr_sep(c),
{
    c == ',' || is_space_char_x(c)
}

/// The maximal non-separator runs of `s` followed by the run `cur` carried
/// in from the left, empty runs dropped.
pub open spec fn split_acc(s: Seq<char>, commas: bool, cur: Seq<char>) -> Seq<Seq<char>>
    decreases s.len(),
{
    if s.len() == 0 {
        if cur.len() == 0 {
            Seq::empty()
        } else {
            seq![cur]
        }
    } else if (if commas {
        is_expr_sep(s[0])
    } else {
        is_space_char(s[0])
    }) {
        if cur.len() == 0 {
            split_acc(s.drop_first(), commas, Seq::empty())
        } else {
            seq![cur] + split_acc(s.drop_first(), commas, Seq::empty())
        }
    } else {
        split_acc(s.drop_first(), commas, cur.push(s[0]))
    }
}

/// The non-empty runs of `s` between commas and whitespace (`commas` set) or
/// between whitespace alone (`commas` clear).
pub open spec fn tokens_of(s: Seq<char>, commas: bool) -> Seq<Seq<char>> {
    split_acc(s, commas, Seq::empty())
}

/// Splits `s` into its non-empty runs between separators.
#[verifier::loop_isolation(false)]
pub fn split_tokens(s: &str, commas: bool) -> (v: Vec<String>)
    ensures
        v@.map_values(|t: String| t@) == tokens_of(s@, commas),
{
    let n = s.unicode_len();
    let mut v: Vec<String> = Vec::new();
    let mut i: usize = 0;
    let mut start: usize = 0;
    proof {
        assert(s@.skip(0) =~= s@);
        assert(s@.subrange(0, 0) =~= Seq::<char>::empty());
        assert(v@.map_values(|t: String| t@) =~= Seq::<Seq<char>>::empty());
    }
    while i < n
        invariant
            start <= i <= n,
            tokens_of(s@, commas) == v@.map_values(|t: String| t@) + split_acc(
                s@.skip(i as int),
                commas,
                s@.subrange(start as int, i as int),
            ),
        decreases n - i,
    {
        let c = s.get_char(i);
        let sep = if commas {
            is_expr_sep_x(c)
        } else {
            is_space_char_x(c)
        };
        proof {
            let tail = s@.skip(i as int);
            assert(tail[0] == s@[i as int]);
            assert(tail.drop_first() =~= s@.skip(i as int + 1));
            assert(s@.subrange(start as int, i as int).push(s@[i as int]) =~= s@.subrange(
                start as int,
                i as int + 1,
            ));
            assert(s@.subrange(i as int + 1, i as int + 1) =~= Seq::<char>::empty());
        }
        if sep {
            if i > start {
                let tok = s.substring_char(start, i).to_owned();
                let ghost before = v@.map_values(|t: String| t@);
                v.push(tok);
                proof {
                    assert(v@.map_values(|t: String| t@) =~= before.push(
                        s@.subrange(start as int, i as int),
                    ));
                    assert(before.push(s@.subrange(start as int, i as int)) + split_acc(
                        s@.skip(i as int + 1),
                        commas,
                        Seq::empty(),
                    ) =~= before + (seq![s@.subrange(start as int, i as int)] + split_acc(
                        s@.skip(i as int + 1),
                        commas,
                        Seq::empty(),
                    )));
                }
            }
            i += 1;
            start = i;
        } else {
            i += 1;
        }
    }
    if i > start {
        let tok = s.substring_char(start, i).to_owned();
        let ghost before = v@.map_values(|t: String| t@);
        v.push(tok);
        proof {
            assert(s@.skip(i as int).len() == 0);
            assert(v@.map_values(|t: String| t@) =~= before.push(
                s@.subrange(start as int, i as int),
            ));
            assert(before.push(s@.subrange(start as int, i as int)) =~= before + seq![
                s@.subrange(start as int, i as int),
            ]);
        }
    } else {
        proof {
            assert(s@.skip(i as int).len() == 0);
            assert(v@.map_values(|t: String| t@) + Seq::<Seq<char>>::empty() =~= v@.map_values(
                |t: String| t@,
            ));
        }
    }
    v
}

/// A line with one trailing carriage return removed, as the standard
/// line splitter does for CRLF endings.
pub open spec fn strip_cr(l: Seq<char>) -> Seq<char> {
    if l.len() > 0 && l.last() == '\r' {
        l.drop_last()
    } else {
        l
    }
}

/// The lines of `s` up to the next newline, with the partial line `cur`
/// carried in from the left. A final empty fragment is dropped, matching
/// the standard line splitter.
pub open spec fn lines_acc(s: Seq<char>, cur: Seq<char>) -> Seq<Seq<char>>
    decreases s.len(),
{
    if s.len() == 0 {
        if cur.len() == 0 {
            Seq::empty()
        } else {
            seq![cur]
        }
    } else if s[0] == '\n' {
        seq![strip_cr(cur)] + lines_acc(s.drop_first(), Seq::empty())
    } else {
        lines_acc(s.drop_first(), cur.push(s[0]))
    }
}

/// The lines of `s`, as the standard `lines` splitter yields them: split at
/// each newline, a carriage return before the newline removed, and no final
/// empty line for text that ends with a newline.
pub open spec fn lines_of(s: Seq<char>) -> Seq<Seq<char>> {
    lines_acc(s, Seq::empty())
}

/// Splits `s` into lines.
#[verifier::loop_isolation(false)]
#[verifier::rlimit(30)]
pub fn split_lines(s: &str) -> (v: Vec<String>)
    ensures
        v@.map_values(|t: String| t@) == lines_of(s@),
{
    let n = s.unicode_len();
    let mut v: Vec<String> = Vec::new();
    let mut i: usize = 0;
    let mut start: usize = 0;
    proof {
        assert(s@.skip(0) =~= s@);
        assert(s@.subrange(0, 0) =~= Seq::<char>::empty());
        assert(v@.map_values(|t: String| t@) =~= Seq::<Seq<char>>::empty());
    }
    while i < n
        invariant
            start <= i <= n,
            lines_of(s@) == v@.map_values(|t: String| t@) + lines_acc(
                s@.skip(i as int),
                s@.subrange(start as int, i as int),
            ),
        decreases n - i,
    {
        let c = s.get_char(i);
        proof {
            let tail = s@.skip(i as int);
            assert(tail[0] == s@[i as int]);
            assert(tail.drop_first() =~= s@.skip(i as int + 1));
            assert(s@.subrange(start as int, i as int).push(s@[i as int]) =~= s@.subrange(
                start as int,
                i as int + 1,
            ));
            assert(s@.subrange(i as int + 1, i as int + 1) =~= Seq::<char>::empty());
        }
        if c == '\n' {
            let end = if i > start && s.get_char(i - 1) == '\r' {
                i - 1
            } else {
                i
            };
            let line = s.substring_char(start, end).to_owned();
            let ghost before = v@.map_values(|t: String| t@);
            proof {
                let cur = s@.subrange(start as int, i as int);
                if i > start && s@[i as int - 1] == '\r' {
                    assert(cur.last() == s@[i as int - 1]);
                    assert(cur.drop_last() =~= s@.subrange(start as int, i as int - 1));
                    assert(strip_cr(cur) == s@.subrange(start as int, end as int));
                } else {
                    assert(strip_cr(cur) == s@.subrange(start as int, end as int));
                }
            }
            v.push(line);
            proof {
                let cur = s@.subrange(start as int, i as int);
                assert(v@.map_values(|t: String| t@) =~= before.push(strip_cr(cur)));
                assert(before.push(strip_cr(cur)) + lines_acc(s@.skip(i as int + 1), Seq::empty())
                    =~= before + (seq![strip_cr(cur)] + lines_acc(
                    s@.skip(i as int + 1),
                    Seq::empty(),
                )));
            }
            i += 1;
            start = i;
        } else {
            i += 1;
        }
    }
    if i > start {
        let line = s.substring_char(start, i).to_owned();
        let ghost before = v@.map_values(|t: String| t@);
        v.push(line);
        proof {
            assert(s@.skip(i as int).len() == 0);
            assert(v@.map_values(|t: String| t@) =~= before.push(
                s@.subrange(start as int, i as int),
            ));
            assert(before.push(s@.subrange(start as int, i as int)) =~= before + seq![
                s@.subrange(start as int, i as int),
            ]);
        }
    } else {
        proof {
            assert(s@.skip(i as int).len() == 0);
            assert(v@.map_values(|t: String| t@) + Seq::<Seq<char>>::empty() =~= v@.map_values(
                |t: String| t@,
            ));
        }
    }
    v
}

} // verus!
