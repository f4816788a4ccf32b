//! The computational half of a small HTTP client: building a request
//! from a URL, and parsing a status line and a header block.  All
//! reading and writing of sockets stays outside the library; these
//! functions work on plain strings handed in by the caller.

use vstd::prelude::*;
use vstd::string::StrSliceExecFns;

use crate::error::Error;
use crate::url::Url;
use crate::url::is_url;
use crate::url::url_match;

verus! {

/// The protocol a request is sent over.
#[derive(Debug, Clone, Copy, PartialEq, Eq, Structural)]
pub enum Protocol {
    HTTP,
    HTTPS,
}

/// A request in the making: method, protocol, host and path.
#[derive(Debug)]
pub struct RequestBuilder {
    pub method: String,
    pub protocol: Protocol,
    pub host: String,
    pub path: String,
}

/// Are two strings the same sequence of characters?
fn str_eq(a: &str, b: &str) -> (r: bool)
    ensures
        r == (a@ == b@),
{
    let na = a.unicode_len();
    let nb = b.unicode_len();
    if na != nb {
        return false;
    }
    let mut i: usize = 0;
    while i < na
        invariant
            i <= na,
            na == a@.len(),
            na == b@.len(),
            forall|k: int| 0 <= k < i ==> a@[k] == b@[k],
        decreases na - i,
    {
        if a.get_char(i) != b.get_char(i) {
            return false;
        }
        i = i + 1;
    }
    proof {
        assert(a@ =~= b@);
    }
    true
}

impl RequestBuilder {
    /// Starts a GET request from a URL, rejecting anything that is not
    /// an `http` URL.
    pub fn from_url(url: &str) -> (r: Result<RequestBuilder, Error>)
        ensures
            (match r {
                Ok(b) => is_url(url@) && (url_match(url@) matches Some(st) && st.1[0] == "http"@
                    && b.method@ == "GET"@ && b.protocol == Protocol::HTTP && b.host@ == st.1[1]
                    && b.path@ == (if st.1[2].len() == 0 {
                    seq!['/']
                } else {
                    st.1[2]
                })),
                Err(e) => !(is_url(url@) && (url_match(url@) matches Some(st) && st.1[0]
                    == "http"@)),
            }),
    {
        match Url::parse(url) {
            Err(e) => Err(e),
            Ok(u) => {
                if str_eq(u.scheme(), "http") {
                    Ok(
                        RequestBuilder {
                            method: "GET".to_owned(),
                            protocol: Protocol::HTTP,
                            host: u.host().to_owned(),
                            path: u.path().to_owned(),
                        },
                    )
                } else {
                    Err(Error {})
                }
            },
        }
    }

    /// Replaces the request method.
    pub fn method(self, method: &str) -> (r: RequestBuilder)
        ensures
            r.method@ == method@,
            r.protocol == self.protocol,
            r.host@ == self.host@,
            r.path@ == self.path@,
    {
        RequestBuilder {
            method: method.to_owned(),
            protocol: self.protocol,
            host: self.host,
            path: self.path,
        }
    }
}

/// ASCII whitespace, as trimmed from header names and values.
pub open spec fn is_space(c: char) -> bool {
    c == ' ' || c == '\t' || c == '\r' || c == '\n'
}

/// How many whitespace characters the string starts with.
pub open spec fn ltrim_count(s: Seq<char>) -> int
    decreases s.len(),
{
    if s.len() > 0 && is_space(s[0]) {
        1 + ltrim_count(s.drop_first())
    } else {
        0
    }
}

/// How many whitespace characters the string ends with.
pub open spec fn rtrim_count(s: Seq<char>) -> int
    decreases s.len(),
{
    if s.len() > 0 && is_space(s.last()) {
        1 + rtrim_count(s.drop_last())
    } else {
        0
    }
}

/// The string with leading and trailing whitespace removed.
pub open spec fn trim_spec(s: Seq<char>) -> Seq<char> {
    if ltrim_count(s) + rtrim_count(s) <= s.len() {
        s.subrange(ltrim_count(s), s.len() - rtrim_count(s))
    } else {
        Seq::empty()
    }
}

/// A line that holds only whitespace, or nothing; it ends a header
/// block.
pub open spec fn is_blank_line(s: Seq<char>) -> bool {
    ltrim_count(s) == s.len()
}

/// A decimal digit.
pub open spec fn is_digit(c: char) -> bool {
    '0' as int <= c as int && c as int <= '9' as int
}

/// Is the whole string made of decimal digits?
pub open spec fn all_digits(s: Seq<char>) -> bool {
    forall|i: int| 0 <= i < s.len() ==> is_digit(#[trigger] s[i])
}

/// The number that a digit string stands for.
pub open spec fn dec_val(s: Seq<char>) -> int
    decreases s.len(),
{
    if s.len() == 0 {
        0
    } else {
        dec_val(s.drop_last()) * 10 + (s.last() as int - '0' as int)
    }
}

/// The status code that a digit string stands for: at least one digit,
/// nothing but digits, and small enough for a `u16`.
pub open spec fn dec_u16(s: Seq<char>) -> Option<u16> {
    if s.len() > 0 && all_digits(s) && dec_val(s) <= 65535 {
        Some(dec_val(s) as u16)
    } else {
        None
    }
}

/// The status code of a status line `HTTP/1.x CODE REASON`: the text
/// up to the first space must start with `HTTP/1.`, a second space
/// must follow, and the piece between the two spaces must be a
/// `u16` in decimal.
pub open spec fn status_line_spec(line: Seq<char>) -> Option<u16> {
    match crate::compiler::find_char(line, ' ') {
        None => None,
        Some(i) => {
            let piece0 = line.subrange(0, i);
            let rest = line.skip(i + 1);
            match crate::compiler::find_char(rest, ' ') {
                None => None,
                Some(j) => {
                    let piece1 = rest.subrange(0, j);
                    if piece0.len() >= 7 && piece0.subrange(0, 7) == "HTTP/1."@ {
                        dec_u16(piece1)
                    } else {
                        None
                    }
                },
            }
        },
    }
}

/// The name and value of one header line: the text before the first
/// `:` and the text after it, both trimmed.
pub open spec fn header_of(line: Seq<char>) -> Option<(Seq<char>, Seq<char>)> {
    match crate::compiler::find_char(line, ':') {
        None => None,
        Some(i) => Some((trim_spec(line.subrange(0, i)), trim_spec(line.skip(i + 1)))),
    }
}

/// The header pairs of a header block: one pair per line up to the
/// first blank line, each line split at its first `:`.  A non-blank
/// line without `:` makes the block invalid.
pub open spec fn headers_spec(lines: Seq<Seq<char>>) -> Option<Seq<(Seq<char>, Seq<char>)>>
    decreases lines.len(),
{
    if lines.len() == 0 {
        Some(Seq::empty())
    } else if is_blank_line(lines[0]) {
        Some(Seq::empty())
    } else {
        match header_of(lines[0]) {
            None => None,
            Some(kv) => match headers_spec(lines.drop_first()) {
                Some(hs) => Some(seq![kv] + hs),
                None => None,
            },
        }
    }
}

/// The character sequences that a list of header strings stands for.
pub open spec fn pairs_model(hs: Seq<(String, String)>) -> Seq<(Seq<char>, Seq<char>)> {
    hs.map_values(|p: (String, String)| (p.0@, p.1@))
}

/// An HTTP response, reduced to what the library parses out of one:
/// the status code and the headers.
#[derive(Debug)]
pub struct Response {
    pub status_code: u16,
    pub headers: Vec<(String, String)>,
}

proof fn lemma_ltrim_is(s: Seq<char>, j: int)
    requires
        0 <= j <= s.len(),
        forall|k: int| 0 <= k < j ==> is_space(#[trigger] s[k]),
        j < s.len() ==> !is_space(s[j]),
    ensures
        ltrim_count(s) == j,
    decreases s.len(),
{
    if s.len() > 0 && is_space(s[0]) {
        assert(j >= 1) by {
            assert(is_space(s[0]));
        }
        assert forall|k: int| 0 <= k < j - 1 implies is_space(#[trigger] s.drop_first()[k]) by {
            assert(s.drop_first()[k] == s[k + 1]);
        }
        if j - 1 < s.drop_first().len() {
            assert(s.drop_first()[j - 1] == s[j]);
        }
        lemma_ltrim_is(s.drop_first(), j - 1);
    } else {
        if j > 0 {
            assert(is_space(s[0]));
        }
    }
}

proof fn lemma_rtrim_is(s: Seq<char>, j: int)
    requires
        0 <= j <= s.len(),
        forall|k: int| s.len() - j <= k < s.len() ==> is_space(#[trigger] s[k]),
        j < s.len() ==> !is_space(s[s.len() - j - 1]),
    ensures
        rtrim_count(s) == j,
    decreases s.len(),
{
    if s.len() > 0 && is_space(s.last()) {
        assert(j >= 1) by {
            assert(is_space(s[s.len() - 1]));
        }
        assert forall|k: int|
            s.drop_last().len() - (j - 1) <= k < s.drop_last().len() implies is_space(
            #[trigger] s.drop_last()[k],
        ) by {
            assert(s.drop_last()[k] == s[k]);
        }
        if j - 1 < s.drop_last().len() {
            assert(s.drop_last()[s.drop_last().len() - (j - 1) - 1] == s[s.len() - j - 1]);
        }
        lemma_rtrim_is(s.drop_last(), j - 1);
    } else {
        if j > 0 {
            assert(is_space(s[s.len() - 1]));
        }
    }
}

proof fn lemma_dec_val_nonneg(s: Seq<char>)
    requires
        all_digits(s),
    ensures
        dec_val(s) >= 0,
    decreases s.len(),
{
    if s.len() > 0 {
        assert(is_digit(s[s.len() - 1]));
        assert forall|i: int| 0 <= i < s.drop_last().len() implies is_digit(
            #[trigger] s.drop_last()[i],
        ) by {
            assert(s.drop_last()[i] == s[i]);
        }
        lemma_dec_val_nonneg(s.drop_last());
    }
}

proof fn lemma_dec_val_prefix(s: Seq<char>, m: int)
    requires
        all_digits(s),
        0 <= m <= s.len(),
    ensures
        dec_val(s.subrange(0, m)) <= dec_val(s),
    decreases s.len(),
{
    if m == s.len() {
        assert(s.subrange(0, m) =~= s);
    } else {
        assert forall|i: int| 0 <= i < s.drop_last().len() implies is_digit(
            #[trigger] s.drop_last()[i],
        ) by {
            assert(s.drop_last()[i] == s[i]);
        }
        lemma_dec_val_nonneg(s.drop_last());
        assert(is_digit(s[s.len() - 1]));
        assert(s.subrange(0, m) =~= s.drop_last().subrange(0, m));
        lemma_dec_val_prefix(s.drop_last(), m);
    }
}

/// Scans `s[from..to]` for the first occurrence of `c`.
fn find_in_str(s: &str, from: usize, to: usize, c: char) -> (r: Option<usize>)
    requires
        from <= to <= s@.len(),
    ensures
        (match r {
            Some(j) => from <= j < to && crate::compiler::find_char(
                s@.subrange(from as int, to as int),
                c,
            ) == Some(j as int - from as int),
            None => crate::compiler::find_char(s@.subrange(from as int, to as int), c) is None,
        }),
{
    let mut i: usize = from;
    while i < to
        invariant
            from <= i <= to <= s@.len(),
            forall|k: int| from <= k < i ==> s@[k] != c,
        decreases to - i,
    {
        if s.get_char(i) == c {
            proof {
                let w = s@.subrange(from as int, to as int);
                assert forall|k: int| 0 <= k < i - from implies w[k] != c by {
                    assert(w[k] == s@[from + k]);
                }
                crate::compiler::lemma_find_char_is(w, c, i as int - from as int);
            }
            return Some(i);
        }
        i = i + 1;
    }
    proof {
        let w = s@.subrange(from as int, to as int);
        crate::compiler::lemma_find_char(w, c);
        match crate::compiler::find_char(w, c) {
            Some(j) => {
                assert(w[j] == s@[from + j]);
            },
            None => {},
        }
    }
    None
}

/// The first index in `s[from..to]` that holds no whitespace.
fn ltrim_to(s: &str, from: usize, to: usize) -> (lo: usize)
    requires
        from <= to <= s@.len(),
    ensures
        from <= lo <= to,
        ltrim_count(s@.subrange(from as int, to as int)) == lo - from,
{
    let mut i: usize = from;
    while i < to
        invariant
            from <= i <= to <= s@.len(),
            forall|k: int| from <= k < i ==> is_space(#[trigger] s@[k]),
        decreases to - i,
    {
        let ch = s.get_char(i);
        if !(ch == ' ' || ch == '\t' || ch == '\r' || ch == '\n') {
            proof {
                let w = s@.subrange(from as int, to as int);
                assert forall|k: int| 0 <= k < i - from implies is_space(#[trigger] w[k]) by {
                    assert(w[k] == s@[from + k]);
                }
                assert(w[i - from] == s@[i as int]);
                lemma_ltrim_is(w, i as int - from as int);
            }
            return i;
        }
        i = i + 1;
    }
    proof {
        let w = s@.subrange(from as int, to as int);
        assert forall|k: int| 0 <= k < i - from implies is_space(#[trigger] w[k]) by {
            assert(w[k] == s@[from + k]);
        }
        lemma_ltrim_is(w, i as int - from as int);
    }
    i
}

/// One past the last index in `s[from..to]` that holds no whitespace.
fn rtrim_to(s: &str, from: usize, to: usize) -> (hi: usize)
    requires
        from <= to <= s@.len(),
    ensures
        from <= hi <= to,
        rtrim_count(s@.subrange(from as int, to as int)) == to - hi,
{
    let mut i: usize = to;
    while i > from
        invariant
            from <= i <= to <= s@.len(),
            forall|k: int| i <= k < to ==> is_space(#[trigger] s@[k]),
        decreases i,
    {
        let ch = s.get_char(i - 1);
        if !(ch == ' ' || ch == '\t' || ch == '\r' || ch == '\n') {
            proof {
                let w = s@.subrange(from as int, to as int);
                assert forall|k: int| w.len() - (to - i) <= k < w.len() implies is_space(
                    #[trigger] w[k],
                ) by {
                    assert(w[k] == s@[from + k]);
                }
                assert(w[w.len() - (to - i) - 1] == s@[i - 1]);
                lemma_rtrim_is(w, to as int - i as int);
            }
            return i;
        }
        i = i - 1;
    }
    proof {
        let w = s@.subrange(from as int, to as int);
        assert forall|k: int| w.len() - (to - i) <= k < w.len() implies is_space(
            #[trigger] w[k],
        ) by {
            assert(w[k] == s@[from + k]);
        }
        lemma_rtrim_is(w, to as int - i as int);
    }
    i
}

/// Does `s[0..i]` start with `HTTP/1.`?
fn has_http1_prefix(s: &str, i: usize) -> (b: bool)
    requires
        i <= s@.len(),
    ensures
        b == (i >= 7 && s@.subrange(0, i as int).subrange(0, 7) == "HTTP/1."@),
{
    proof {
        reveal_strlit("HTTP/1.");
    }
    if i < 7 {
        return false;
    }
    let ok = s.get_char(0) == 'H' && s.get_char(1) == 'T' && s.get_char(2) == 'T' && s.get_char(3)
        == 'P' && s.get_char(4) == '/' && s.get_char(5) == '1' && s.get_char(6) == '.';
    proof {
        let piece = s@.subrange(0, i as int).subrange(0, 7);
        assert(piece =~= s@.subrange(0, 7));
        if ok {
            assert(s@.subrange(0, 7) =~= "HTTP/1."@);
        } else {
            if s@.subrange(0, 7) == "HTTP/1."@ {
                assert forall|k: int| 0 <= k < 7 implies s@[k] == "HTTP/1."@[k] by {
                    assert(s@.subrange(0, 7)[k] == s@[k]);
                }
            }
        }
    }
    ok
}

/// Reads a decimal `u16` out of `s[from..to]`.
fn parse_dec_u16(s: &str, from: usize, to: usize) -> (r: Option<u16>)
    requires
        from <= to <= s@.len(),
    ensures
        (match r {
            Some(v) => dec_u16(s@.subrange(from as int, to as int)) == Some(v),
            None => dec_u16(s@.subrange(from as int, to as int)) is None,
        }),
{
    let ghost w = s@.subrange(from as int, to as int);
    if from == to {
        return None;
    }
    let mut val: u32 = 0;
    let mut k: usize = from;
    while k < to
        invariant
            from <= k <= to <= s@.len(),
            w == s@.subrange(from as int, to as int),
            forall|m: int| 0 <= m < k - from ==> is_digit(#[trigger] w[m]),
            val == dec_val(s@.subrange(from as int, k as int)),
            0 <= val <= 65535,
        decreases to - k,
    {
        let c = s.get_char(k);
        if c < '0' || c > '9' {
            proof {
                assert(w[k - from] == s@[k as int]);
                assert(!is_digit(w[k - from]));
            }
            return None;
        }
        let d: u32 = (c as u32) - 48;
        proof {
            assert(s@.subrange(from as int, k as int + 1).drop_last() =~= s@.subrange(
                from as int,
                k as int,
            ));
            assert(s@.subrange(from as int, k as int + 1).last() == s@[k as int]);
            assert(d == c as int - '0' as int);
        }
        let next: u32 = val * 10 + d;
        if next > 65535 {
            proof {
                assert(w[k - from] == s@[k as int]);
                if all_digits(w) {
                    assert(s@.subrange(from as int, k as int + 1) =~= w.subrange(
                        0,
                        k as int + 1 - from,
                    ));
                    lemma_dec_val_prefix(w, k as int + 1 - from);
                }
            }
            return None;
        }
        val = next;
        k = k + 1;
    }
    proof {
        assert(w =~= s@.subrange(from as int, k as int));
        assert(all_digits(w));
    }
    Some(val as u16)
}

/// Prepends already-parsed header pairs to the outcome of parsing the
/// remaining lines.
spec fn with_headers_prefix(
    pre: Seq<(Seq<char>, Seq<char>)>,
    r: Option<Seq<(Seq<char>, Seq<char>)>>,
) -> Option<Seq<(Seq<char>, Seq<char>)>> {
    match r {
        Some(hs) => Some(pre + hs),
        None => None,
    }
}

/// The characters of `s[from..to]` with surrounding whitespace removed,
/// as a fresh string.
fn trimmed_window(s: &str, from: usize, to: usize) -> (r: String)
    requires
        from <= to <= s@.len(),
    ensures
        r@ == trim_spec(s@.subrange(from as int, to as int)),
{
    let lo = ltrim_to(s, from, to);
    let hi = rtrim_to(s, from, to);
    let ghost w = s@.subrange(from as int, to as int);
    if lo <= hi {
        let r = s.substring_char(lo, hi).to_owned();
        proof {
            assert(w.subrange(lo - from, w.len() - (to - hi)) =~= s@.subrange(
                lo as int,
                hi as int,
            ));
        }
        r
    } else {
        String::new()
    }
}

/// Is the line whitespace only?
fn line_blank(s: &str) -> (b: bool)
    ensures
        b == is_blank_line(s@),
{
    let n = s.unicode_len();
    proof {
        assert(s@.subrange(0, n as int) =~= s@);
    }
    let lo = ltrim_to(s, 0, n);
    lo == n
}

/// Splits one header line at its first `:` into a trimmed name and
/// value.
fn parse_header_line(line: &str) -> (r: Option<(String, String)>)
    ensures
        (match r {
            Some(kv) => header_of(line@) == Some((kv.0@, kv.1@)),
            None => header_of(line@) is None,
        }),
{
    let n = line.unicode_len();
    proof {
        assert(line@.subrange(0, n as int) =~= line@);
    }
    match find_in_str(line, 0, n, ':') {
        None => None,
        Some(ci) => {
            let key = trimmed_window(line, 0, ci);
            proof {
                assert(line@.skip(ci as int + 1) =~= line@.subrange(ci as int + 1, n as int));
            }
            let value = trimmed_window(line, ci + 1, n);
            Some((key, value))
        },
    }
}

impl Response {
    /// The status code of a status line, or an error when the line is
    /// not a valid `HTTP/1.x` status line.
    pub fn read_status_line(line: &str) -> (r: Result<u16, Error>)
        ensures
            (match r {
                Ok(code) => status_line_spec(line@) == Some(code),
                Err(e) => status_line_spec(line@) is None,
            }),
    {
        let n = line.unicode_len();
        proof {
            assert(line@.subrange(0, n as int) =~= line@);
        }
        match find_in_str(line, 0, n, ' ') {
            None => Err(Error {}),
            Some(i) => {
                proof {
                    assert(line@.skip(i as int + 1) =~= line@.subrange(i as int + 1, n as int));
                }
                match find_in_str(line, i + 1, n, ' ') {
                    None => Err(Error {}),
                    Some(j) => {
                        proof {
                            assert(line@.skip(i as int + 1).subrange(0, j - i - 1) =~= line@
                                .subrange(i as int + 1, j as int));
                        }
                        if !has_http1_prefix(line, i) {
                            return Err(Error {});
                        }
                        match parse_dec_u16(line, i + 1, j) {
                            Some(v) => Ok(v),
                            None => Err(Error {}),
                        }
                    },
                }
            },
        }
    }

    /// The header pairs of a header block, each line up to the first
    /// blank one split at its first `:`; an error when a non-blank
    /// line has no `:`.
    pub fn read_headers(lines: &Vec<String>) -> (r: Result<Vec<(String, String)>, Error>)
        ensures
            (match r {
                Ok(hs) => headers_spec(lines.deep_view()) == Some(pairs_model(hs@)),
                Err(e) => headers_spec(lines.deep_view()) is None,
            }),
    {
        let ghost all = lines.deep_view();
        let mut hs: Vec<(String, String)> = Vec::new();
        let mut idx: usize = 0;
        proof {
            assert(pairs_model(hs@) =~= Seq::<(Seq<char>, Seq<char>)>::empty());
            assert(all.skip(0) =~= all);
            match headers_spec(all) {
                Some(t0) => {
                    assert(pairs_model(hs@) + t0 =~= t0);
                },
                None => {},
            }
        }
        while idx < lines.len()
            invariant
                idx <= lines@.len(),
                all == lines.deep_view(),
                all.len() == lines@.len(),
                with_headers_prefix(pairs_model(hs@), headers_spec(all.skip(idx as int)))
                    == headers_spec(all),
            decreases lines@.len() - idx,
        {
            let ghost restl = all.skip(idx as int);
            proof {
                assert(restl[0] == all[idx as int]);
                assert(all[idx as int] == lines@[idx as int]@);
                assert(restl.drop_first() =~= all.skip(idx as int + 1));
            }
            let ls = lines[idx].as_str();
            if line_blank(ls) {
                proof {
                    assert(pairs_model(hs@) + Seq::<(Seq<char>, Seq<char>)>::empty()
                        =~= pairs_model(hs@));
                }
                return Ok(hs);
            }
            match parse_header_line(ls) {
                None => {
                    return Err(Error {});
                },
                Some(kv) => {
                    let ghost kv0 = kv.0@;
                    let ghost kv1 = kv.1@;
                    let ghost pre = hs@;
                    hs.push(kv);
                    proof {
                        assert(pairs_model(hs@) =~= pairs_model(pre).push((kv0, kv1)));
                        match headers_spec(restl.drop_first()) {
                            Some(tl) => {
                                assert(pairs_model(pre) + (seq![(kv0, kv1)] + tl) =~= pairs_model(
                                    hs@,
                                ) + tl);
                            },
                            None => {},
                        }
                    }
                    idx = idx + 1;
                },
            }
        }
        proof {
            assert(all.skip(lines@.len() as int).len() == 0);
            assert(pairs_model(hs@) + Seq::<(Seq<char>, Seq<char>)>::empty() =~= pairs_model(hs@));
        }
        Ok(hs)
    }
}

} // verus!
