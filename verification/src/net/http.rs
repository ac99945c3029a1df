//! The parts of an HTTP/1.1 exchange that compute: request heads and responses.

use crate::error::{Error, ErrorKind};
use crate::seqs::{copy_bytes, first_where};
use crate::text::{
    chars_of, decimal, is_space, parse_decimal, space, string_of, sub_chars, utf8_text,
};
use vstd::prelude::*;
use vstd::slice::slice_subrange;
use vstd::string::StringExecFns;

verus! {

/// Maximum number of redirects to follow before giving up.
pub const MAX_REDIRECTS: u32 = 5;

/// A map of header fields.
#[verifier::external_type_specification]
#[verifier::external_body]
#[verifier::reject_recursive_types(T)]
pub struct ExHeaderMap<T>(http::HeaderMap<T>);

/// The value of a header field.
#[verifier::external_type_specification]
#[verifier::external_body]
pub struct ExHeaderValue(http::HeaderValue);

/// What a header map holds: for each name, in lower case, its values, as
/// bytes, in the order in which they were appended.
pub uninterp spec fn header_contents(m: http::HeaderMap<http::HeaderValue>) -> Map<
    Seq<char>,
    Seq<Seq<u8>>,
>;

/// Whether a character may stand in the name of a header field.
pub open spec fn is_name_char(c: char) -> bool {
    ('a' <= c <= 'z') || ('A' <= c <= 'Z') || ('0' <= c <= '9') || c == '!' || c == '#' || c == '$'
        || c == '%' || c == '&' || c == '\'' || c == '*' || c == '+' || c == '-' || c == '.' || c
        == '^' || c == '_' || c == '`' || c == '|' || c == '~'
}

/// Whether a text is the name of a header field.
pub open spec fn is_header_name(s: Seq<char>) -> bool {
    &&& 1 <= s.len() <= 0xffff
    &&& forall|i: int| 0 <= i < s.len() ==> is_name_char(#[trigger] s[i])
}

/// Whether a text is the value of a header field: no control character but the
/// tab.
pub open spec fn is_header_value(s: Seq<char>) -> bool {
    forall|i: int|
        0 <= i < s.len() ==> ((#[trigger] s[i] as u32) >= 32 && s[i] as u32 != 127) || s[i] == '\t'
}

/// A character in lower case.
pub open spec fn lower_char(c: char) -> char {
    if 'A' <= c <= 'Z' {
        (c as u32 + 32) as char
    } else {
        c
    }
}

/// A name in lower case.
pub open spec fn lower(s: Seq<char>) -> Seq<char> {
    s.map_values(|c: char| lower_char(c))
}

/// The contents after one more value was appended.
pub open spec fn appended(
    m: Map<Seq<char>, Seq<Seq<u8>>>,
    name: Seq<char>,
    value: Seq<u8>,
) -> Map<Seq<char>, Seq<Seq<u8>>> {
    m.insert(
        name,
        if m.contains_key(name) {
            m[name].push(value)
        } else {
            seq![value]
        },
    )
}

/// The contents of an empty map.
pub open spec fn no_headers() -> Map<Seq<char>, Seq<Seq<u8>>> {
    Map::empty()
}

/// The number of names that a header map takes in any case.
pub const HEADER_NAMES_FIT: usize = 6553;

/// `http::HeaderMap::new`: an empty map.
#[verifier::external_body]
pub(crate) fn new_headers() -> (m: http::HeaderMap<http::HeaderValue>)
    ensures
        header_contents(m) == no_headers(),
{
    http::HeaderMap::new()
}

/// `http::HeaderMap::try_append`, on a name and a value that `http::HeaderName`
/// and `http::HeaderValue` made of the two texts: the value, in UTF-8, goes
/// behind the values of the name, which is kept in lower case. A text that is no
/// name or no value is refused. A map may refuse a field when it is full, which
/// it is not before it holds 6554 names. What is refused changes nothing.
#[verifier::external_body]
pub(crate) fn append_header(
    m: &mut http::HeaderMap<http::HeaderValue>,
    name: &str,
    value: &str,
) -> (ok: bool)
    ensures
        ok ==> is_header_name(name@) && is_header_value(value@) && header_contents(*final(m))
            == appended(
            header_contents(*old(m)),
            lower(name@),
            vstd::utf8::encode_utf8(value@),
        ),
        !ok ==> header_contents(*final(m)) == header_contents(*old(m)),
        is_header_name(name@) && is_header_value(value@) && !ok ==> header_contents(
            *old(m),
        ).dom().len() > HEADER_NAMES_FIT,
{
    match (http::HeaderName::try_from(name), http::HeaderValue::try_from(value)) {
        (Ok(n), Ok(v)) => m.try_append(n, v).is_ok(),
        _ => false,
    }
}

/// `http::HeaderMap::get`: the first value of the name, as bytes; letter case
/// does not matter.
#[verifier::external_body]
pub(crate) fn first_header(m: &http::HeaderMap<http::HeaderValue>, name: &str) -> (r: Option<
    Vec<u8>,
>)
    ensures
        match r {
            Some(v) => header_contents(*m).contains_key(lower(name@)) && v@ == header_contents(
                *m,
            )[lower(name@)][0],
            None => !header_contents(*m).contains_key(lower(name@)),
        },
{
    m.get(name).map(|v| v.as_bytes().to_vec())
}

/// An HTTP response.
pub struct HttpResponse {
    /// Status code.
    pub status: u16,
    /// Header fields.
    pub headers: http::HeaderMap<http::HeaderValue>,
    /// Body.
    pub body: Vec<u8>,
}

impl HttpResponse {
    /// The first value of a header field, as bytes; letter case does not matter.
    pub fn header(&self, name: &str) -> (r: Option<Vec<u8>>)
        ensures
            match r {
                Some(v) => header_contents(self.headers).contains_key(lower(name@)) && v@
                    == header_contents(self.headers)[lower(name@)][0],
                None => !header_contents(self.headers).contains_key(lower(name@)),
            },
    {
        first_header(&self.headers, name)
    }
}

/// Whether the header block ends at `i`, with an empty line.
pub open spec fn ends_at(raw: Seq<u8>, i: int) -> bool {
    i + 4 <= raw.len() && raw[i] == 13 && raw[i + 1] == 10 && raw[i + 2] == 13 && raw[i + 3] == 10
}

/// The length of the header block: up to the first empty line. If there is
/// none, the length of the input.
pub open spec fn header_end(raw: Seq<u8>) -> int {
    first_where(Seq::new(raw.len(), |i: int| ends_at(raw, i)), |b: bool| b)
}

/// A line without the carriage return that belongs to its line feed.
pub open spec fn strip_cr(line: Seq<char>) -> Seq<char> {
    if line.len() > 0 && line.last() == '\r' {
        line.drop_last()
    } else {
        line
    }
}

/// Whether a character ends a line.
pub open spec fn is_lf() -> spec_fn(char) -> bool {
    |c: char| c == '\n'
}

/// The lines of a text, without their ends.
pub open spec fn lines_of(s: Seq<char>) -> Seq<Seq<char>>
    decreases s.len(),
{
    let i = first_where(s, is_lf());
    if s.len() == 0 {
        Seq::empty()
    } else if !(0 <= i < s.len()) {
        seq![s]
    } else {
        seq![strip_cr(s.take(i))] + lines_of(s.skip(i + 1))
    }
}

/// Whether a character is white space.
pub open spec fn spaces() -> spec_fn(char) -> bool {
    |c: char| is_space(c)
}

/// Whether a character is no white space.
pub open spec fn no_spaces() -> spec_fn(char) -> bool {
    |c: char| !is_space(c)
}

/// A text without the white space in front.
pub open spec fn skip_spaces(s: Seq<char>) -> Seq<char> {
    s.skip(first_where(s, no_spaces()))
}

/// The second word of a line, if it has one.
pub open spec fn second_word(s: Seq<char>) -> Option<Seq<char>> {
    let a = skip_spaces(s);
    let b = skip_spaces(a.skip(first_where(a, spaces())));
    if b.len() == 0 {
        None
    } else {
        Some(b.take(first_where(b, spaces())))
    }
}

/// The status code of a status line: its second word; 500 if that is no number.
pub open spec fn status_code(line: Seq<char>) -> int {
    match second_word(line) {
        Some(w) => match decimal(w, u16::MAX as int) {
            Some(n) => n as int,
            None => 500,
        },
        None => 500,
    }
}

/// The position of the first colon that a blank follows, or the length.
pub open spec fn colon_at(line: Seq<char>) -> int {
    first_where(
        Seq::new(
            line.len(),
            |i: int| i + 1 < line.len() && line[i] == ':' && line[i + 1] == ' ',
        ),
        |b: bool| b,
    )
}

/// The header fields that lines hold: those with a colon and a blank, in order.
pub open spec fn fields_of(lines: Seq<Seq<char>>) -> Seq<(Seq<char>, Seq<char>)>
    decreases lines.len(),
{
    if lines.len() == 0 {
        Seq::empty()
    } else {
        let before = fields_of(lines.drop_last());
        let line = lines.last();
        let i = colon_at(line);
        if i < line.len() {
            before.push((line.take(i), line.skip(i + 2)))
        } else {
            before
        }
    }
}

/// Whether every field has a proper name and a proper value.
pub open spec fn fields_ok(fields: Seq<(Seq<char>, Seq<char>)>) -> bool {
    forall|i: int|
        0 <= i < fields.len() ==> is_header_name((#[trigger] fields[i]).0) && is_header_value(
            fields[i].1,
        )
}

/// The contents of a header map that was filled with these fields.
pub open spec fn contents_of(fields: Seq<(Seq<char>, Seq<char>)>) -> Map<
    Seq<char>,
    Seq<Seq<u8>>,
>
    decreases fields.len(),
{
    if fields.len() == 0 {
        Map::empty()
    } else {
        appended(
            contents_of(fields.drop_last()),
            lower(fields.last().0),
            vstd::utf8::encode_utf8(fields.last().1),
        )
    }
}

/// The text of the header block of a response.
pub open spec fn header_text(raw: Seq<u8>) -> Seq<char> {
    vstd::utf8::decode_utf8(raw.take(header_end(raw)))
}

/// The status line of a response; empty if there is none.
pub open spec fn status_line(text: Seq<char>) -> Seq<char> {
    if lines_of(text).len() > 0 {
        lines_of(text)[0]
    } else {
        Seq::empty()
    }
}

/// The header fields of a response.
pub open spec fn response_fields(text: Seq<char>) -> Seq<(Seq<char>, Seq<char>)> {
    let lines = lines_of(text);
    if lines.len() > 0 {
        fields_of(lines.skip(1))
    } else {
        Seq::empty()
    }
}

/// Whether the bytes are a response: a header block that ends and is text, a
/// status code of three digits, and proper header fields.
pub open spec fn is_response(raw: Seq<u8>) -> bool {
    &&& header_end(raw) < raw.len()
    &&& vstd::utf8::valid_utf8(raw.take(header_end(raw)))
    &&& 100 <= status_code(status_line(header_text(raw))) <= 999
    &&& fields_ok(response_fields(header_text(raw)))
}

/// Splits a text into its lines.
pub fn split_lines(s: &Vec<char>) -> (r: Vec<Vec<char>>)
    ensures
        r@.map_values(|l: Vec<char>| l@) == lines_of(s@),
{
    let ghost view = |l: Vec<char>| l@;
    let mut r: Vec<Vec<char>> = Vec::new();
    let mut start: usize = 0;
    assert(s@.skip(0) =~= s@);
    assert(r@.map_values(view) + lines_of(s@.skip(0)) =~= lines_of(s@));
    while start < s.len()
        invariant
            start <= s@.len(),
            view == (|l: Vec<char>| l@),
            r@.map_values(view) + lines_of(s@.skip(start as int)) == lines_of(s@),
        decreases s@.len() - start,
    {
        let ghost rest = s@.skip(start as int);
        let mut i: usize = start;
        while i < s.len() && s[i] != '\n'
            invariant
                start <= i <= s@.len(),
                rest == s@.skip(start as int),
                forall|j: int| 0 <= j < i - start ==> !is_lf()(#[trigger] rest[j]),
            decreases s@.len() - i,
        {
            i += 1;
        }
        proof {
            crate::seqs::lemma_first_where_is(rest, is_lf(), i - start);
        }
        let mut end: usize = i;
        if i < s.len() && i > start && s[i - 1] == '\r' {
            end = i - 1;
        }
        let line = sub_chars(s, start, end);
        let ghost before = r@;
        r.push(line);
        proof {
            assert(r@.map_values(view) =~= before.map_values(view).push(line@));
            if i < s@.len() {
                assert(rest.take(i - start) =~= s@.subrange(start as int, i as int));
                assert(line@ =~= strip_cr(rest.take(i - start)));
                assert(rest.skip(i - start + 1) =~= s@.skip(i + 1));
                assert(before.map_values(view) + (seq![line@] + lines_of(s@.skip(i + 1)))
                    =~= before.map_values(view).push(line@) + lines_of(s@.skip(i + 1)));
            } else {
                assert(line@ =~= rest);
                assert(before.map_values(view) + seq![line@] =~= before.map_values(view).push(
                    line@,
                ) + Seq::<Seq<char>>::empty());
                assert(s@.skip(s@.len() as int) =~= Seq::<char>::empty());
            }
        }
        start = if i < s.len() {
            i + 1
        } else {
            i
        };
    }
    proof {
        assert(s@.skip(start as int) =~= Seq::<char>::empty());
        assert(r@.map_values(view) + Seq::<Seq<char>>::empty() =~= r@.map_values(view));
    }
    r
}

/// The first position from `start` on at which white space begins or ends.
fn find_space(s: &Vec<char>, start: usize, wanted: bool) -> (i: usize)
    requires
        start <= s@.len(),
    ensures
        start <= i <= s@.len(),
        i - start == first_where(
            s@.skip(start as int),
            if wanted {
                spaces()
            } else {
                no_spaces()
            },
        ),
{
    let ghost rest = s@.skip(start as int);
    let ghost f = if wanted {
        spaces()
    } else {
        no_spaces()
    };
    let mut i: usize = start;
    while i < s.len() && space(s[i]) != wanted
        invariant
            start <= i <= s@.len(),
            rest == s@.skip(start as int),
            f == if wanted {
                spaces()
            } else {
                no_spaces()
            },
            forall|j: int| 0 <= j < i - start ==> !f(#[trigger] rest[j]),
        decreases s@.len() - i,
    {
        i += 1;
    }
    proof {
        if i < s@.len() {
            assert(rest[i - start] == s@[i as int]);
        }
        crate::seqs::lemma_first_where_is(rest, f, i - start);
    }
    i
}

/// The status code of a status line.
pub fn parse_status(line: &Vec<char>) -> (code: u16)
    ensures
        code == status_code(line@),
{
    assert(line@.skip(0) =~= line@);
    let a: usize = find_space(line, 0, false);
    assert(line@.skip(a as int) =~= skip_spaces(line@));
    let b: usize = find_space(line, a, true);
    assert(line@.skip(b as int) =~= skip_spaces(line@).skip(b - a));
    let c: usize = find_space(line, b, false);
    let ghost w = line@.skip(c as int);
    assert(w =~= skip_spaces(line@.skip(b as int)));
    if c == line.len() {
        return 500;
    }
    let d: usize = find_space(line, c, true);
    let word = sub_chars(line, c, d);
    assert(word@ =~= w.take(d - c));
    match parse_decimal(&word, u16::MAX as u64) {
        Some(n) => n as u16,
        None => 500,
    }
}

/// The header field that a line holds, if any.
pub fn split_field(line: &Vec<char>) -> (r: Option<(Vec<char>, Vec<char>)>)
    ensures
        match r {
            Some((n, v)) => colon_at(line@) < line@.len() && n@ == line@.take(colon_at(line@)) && v@
                == line@.skip(colon_at(line@) + 2),
            None => colon_at(line@) >= line@.len(),
        },
{
    let ghost flags = Seq::new(
        line@.len(),
        |i: int| i + 1 < line@.len() && line@[i] == ':' && line@[i + 1] == ' ',
    );
    let ghost yes = |b: bool| b;
    let mut i: usize = 0;
    while i < line.len()
        invariant
            i <= line@.len(),
            yes == (|b: bool| b),
            flags == Seq::new(
                line@.len(),
                |i: int| i + 1 < line@.len() && line@[i] == ':' && line@[i + 1] == ' ',
            ),
            forall|j: int| 0 <= j < i ==> !yes(#[trigger] flags[j]),
        decreases line@.len() - i,
    {
        if line[i] == ':' && i + 1 < line.len() && line[i + 1] == ' ' {
            proof {
                crate::seqs::lemma_first_where_is(flags, yes, i as int);
            }
            let name = sub_chars(line, 0, i);
            let value = sub_chars(line, i + 2, line.len());
            assert(name@ =~= line@.take(i as int));
            assert(value@ =~= line@.skip(i + 2));
            return Some((name, value));
        }
        i += 1;
    }
    proof {
        crate::seqs::lemma_first_where_is(flags, yes, i as int);
    }
    None
}

/// The length of the header block.
pub fn find_header_end(raw: &[u8]) -> (r: Option<usize>)
    ensures
        match r {
            Some(i) => i == header_end(raw@) && i + 4 <= raw@.len(),
            None => header_end(raw@) >= raw@.len(),
        },
{
    let ghost flags = Seq::new(raw@.len(), |i: int| ends_at(raw@, i));
    let ghost yes = |b: bool| b;
    let mut i: usize = 0;
    while i < raw.len()
        invariant
            i <= raw@.len(),
            yes == (|b: bool| b),
            flags == Seq::new(raw@.len(), |i: int| ends_at(raw@, i)),
            forall|j: int| 0 <= j < i ==> !yes(#[trigger] flags[j]),
        decreases raw@.len() - i,
    {
        if raw.len() - i >= 4 && raw[i] == 13 && raw[i + 1] == 10 && raw[i + 2] == 13 && raw[i + 3]
            == 10 {
            assert(flags[i as int]);
            proof {
                crate::seqs::lemma_first_where_is(flags, yes, i as int);
            }
            return Some(i);
        }
        i += 1;
    }
    proof {
        crate::seqs::lemma_first_where_is(flags, yes, i as int);
    }
    None
}

/// Fills a header map with the fields of the lines.
fn collect_headers(lines: &Vec<Vec<char>>) -> (r: Option<http::HeaderMap<http::HeaderValue>>)
    ensures
        ({
            let fields = fields_of(
                lines@.map_values(|l: Vec<char>| l@).skip(if lines@.len() > 0 {
                    1
                } else {
                    0
                }),
            );
            match r {
                Some(m) => fields_ok(fields) && header_contents(m) == contents_of(fields),
                None => !fields_ok(fields) || fields.len() > HEADER_NAMES_FIT,
            }
        }),
{
    let ghost all = lines@.map_values(|l: Vec<char>| l@);
    let first: usize = if lines.len() > 0 {
        1
    } else {
        0
    };
    let ghost rest = all.skip(first as int);
    let mut m = new_headers();
    let mut k: usize = first;
    assert(rest.take(0) =~= Seq::<Seq<char>>::empty());
    while k < lines.len()
        invariant
            first <= k <= lines@.len(),
            all == lines@.map_values(|l: Vec<char>| l@),
            rest == all.skip(first as int),
            first == if lines@.len() > 0 {
                1int
            } else {
                0int
            },
            fields_ok(fields_of(rest.take(k - first))),
            header_contents(m) == contents_of(fields_of(rest.take(k - first))),
        decreases lines@.len() - k,
    {
        let ghost n = k - first;
        let ghost before = fields_of(rest.take(n));
        proof {
            assert(rest.take(n + 1).drop_last() =~= rest.take(n));
            lemma_fields_prefix(rest, n + 1);
            lemma_contents_names(before);
        }
        if let Some((name, value)) = split_field(&lines[k]) {
            let ghost pair = (name@, value@);
            let ghost after = before.push(pair);
            proof {
                assert(after.drop_last() =~= before);
                assert(after.last() == pair);
            }
            if !append_header(
                &mut m,
                string_of(name.as_slice()).as_str(),
                string_of(value.as_slice()).as_str(),
            ) {
                return None;
            }
            proof {
                assert forall|i: int| 0 <= i < after.len() implies is_header_name(
                    (#[trigger] after[i]).0,
                ) && is_header_value(after[i].1) by {}
            }
        }
        k += 1;
    }
    assert(rest.take(k - first) =~= rest);
    Some(m)
}

/// The fields of the first lines are the first fields.
proof fn lemma_fields_prefix(lines: Seq<Seq<char>>, n: int)
    requires
        0 <= n <= lines.len(),
    ensures
        fields_of(lines.take(n)).is_prefix_of(fields_of(lines)),
    decreases lines.len() - n,
{
    if n == lines.len() {
        assert(lines.take(n) =~= lines);
    } else {
        assert(lines.take(n + 1).drop_last() =~= lines.take(n));
        lemma_fields_prefix(lines, n + 1);
    }
}

/// There are no more names than fields.
proof fn lemma_contents_names(fields: Seq<(Seq<char>, Seq<char>)>)
    ensures
        contents_of(fields).dom().finite(),
        contents_of(fields).dom().len() <= fields.len(),
    decreases fields.len(),
{
    if fields.len() > 0 {
        lemma_contents_names(fields.drop_last());
    }
}

/// Parse an HTTP/1.1 response: status code, header fields and body.
///
/// Bytes that are no response are an error. A response with thousands of header
/// fields may be one too.
pub fn parse_http_response(raw: &[u8]) -> (r: Result<HttpResponse, Error>)
    ensures
        match r {
            Ok(resp) => {
                &&& is_response(raw@)
                &&& resp.status == status_code(status_line(header_text(raw@)))
                &&& header_contents(resp.headers) == contents_of(response_fields(header_text(raw@)))
                &&& resp.body@ == raw@.skip(header_end(raw@) + 4)
            },
            Err(e) => {
                &&& !is_response(raw@) || response_fields(header_text(raw@)).len()
                    > HEADER_NAMES_FIT
                &&& e.spec_kind() == ErrorKind::Protocol
            },
        },
{
    let end: usize = match find_header_end(raw) {
        Some(i) => i,
        None => {
            return Err(Error::new(ErrorKind::Protocol));
        },
    };
    let head = slice_subrange(raw, 0, end);
    let total: usize = raw.len();
    let body = copy_bytes(slice_subrange(raw, end + 4, total));
    assert(head@ =~= raw@.take(end as int));
    assert(body@ =~= raw@.skip(end + 4));
    let text = match utf8_text(head) {
        Some(t) => t,
        None => {
            return Err(Error::new(ErrorKind::Protocol));
        },
    };
    let chars = chars_of(text);
    let lines = split_lines(&chars);
    let ghost all = lines@.map_values(|l: Vec<char>| l@);
    let status: u16 = if lines.len() > 0 {
        parse_status(&lines[0])
    } else {
        let empty: Vec<char> = Vec::new();
        assert(empty@ =~= Seq::<char>::empty());
        parse_status(&empty)
    };
    assert(lines@.len() == 0 ==> all.skip(0) =~= Seq::<Seq<char>>::empty());
    let headers = match collect_headers(&lines) {
        Some(m) => m,
        None => {
            return Err(Error::new(ErrorKind::Protocol));
        },
    };
    if status < 100 || status > 999 {
        return Err(Error::new(ErrorKind::Protocol));
    }
    Ok(HttpResponse { status, headers, body })
}

/// An HTTP request, as far as sending it depends on it.
pub struct HttpRequest {
    /// Method.
    pub method: String,
    /// Scheme of the target.
    pub scheme: Option<String>,
    /// Host of the target.
    pub host: Option<String>,
    /// Port of the target.
    pub port: Option<u16>,
    /// Path and query of the target.
    pub path_and_query: Option<String>,
    /// Header fields, names in lower case.
    pub headers: Vec<(String, Vec<u8>)>,
}

/// Where a request goes and how.
pub struct Target {
    /// Host to connect to.
    pub host: String,
    /// Port to connect to.
    pub port: u16,
    /// Whether to use TLS.
    pub tls: bool,
}

/// Whether the target is to be reached over TLS.
pub open spec fn wants_tls(req: HttpRequest) -> bool {
    req.scheme matches Some(s) && s@ == "https"@
}

/// The port of the target: the one that is given, or that of the scheme.
pub open spec fn port_of(req: HttpRequest) -> u16 {
    match req.port {
        Some(p) => p,
        None => if wants_tls(req) {
            443
        } else {
            80
        },
    }
}

/// Whether a value can be shown: printable ASCII and tabs only.
pub open spec fn is_printable(v: Seq<u8>) -> bool {
    forall|i: int| 0 <= i < v.len() ==> 32 <= #[trigger] v[i] < 127 || v[i] == 9
}

/// ASCII bytes as text.
pub open spec fn ascii_text(v: Seq<u8>) -> Seq<char> {
    v.map_values(|b: u8| b as char)
}

/// The lines of the header fields that can be shown.
pub open spec fn header_lines(headers: Seq<(String, Vec<u8>)>) -> Seq<char>
    decreases headers.len(),
{
    if headers.len() == 0 {
        Seq::empty()
    } else {
        let before = header_lines(headers.drop_last());
        let h = headers.last();
        if is_printable(h.1@) {
            before + h.0@ + ": "@ + ascii_text(h.1@) + "\r\n"@
        } else {
            before
        }
    }
}

/// Whether a header field is present.
pub open spec fn has_header(headers: Seq<(String, Vec<u8>)>, name: Seq<char>) -> bool {
    exists|i: int| 0 <= i < headers.len() && (#[trigger] headers[i]).0@ == name
}

/// The path to ask for.
pub open spec fn request_path(req: HttpRequest) -> Seq<char> {
    match req.path_and_query {
        Some(p) => p@,
        None => "/"@,
    }
}

/// The head of a request: request line, host, the given fields, and defaults
/// for the fields that are not given.
pub open spec fn head_text(req: HttpRequest, host: Seq<char>) -> Seq<char> {
    req.method@ + " "@ + request_path(req) + " HTTP/1.1\r\nHost: "@ + host + "\r\n"@ + header_lines(
        req.headers@,
    ) + (if has_header(req.headers@, "user-agent"@) {
        Seq::empty()
    } else {
        "User-Agent: torrent-rs/0.1.0\r\n"@
    }) + (if has_header(req.headers@, "accept-encoding"@) {
        Seq::empty()
    } else {
        "Accept-Encoding: identity\r\n"@
    }) + "Connection: close\r\n"@ + "\r\n"@
}

fn has_field(headers: &Vec<(String, Vec<u8>)>, name: &str) -> (r: bool)
    ensures
        r == has_header(headers@, name@),
{
    let wanted = name.to_string();
    let mut i: usize = 0;
    while i < headers.len()
        invariant
            i <= headers@.len(),
            wanted@ == name@,
            forall|j: int| 0 <= j < i ==> (#[trigger] headers@[j]).0@ != name@,
        decreases headers@.len() - i,
    {
        if headers[i].0 == wanted {
            assert(headers@[i as int].0@ == name@);
            return true;
        }
        i += 1;
    }
    false
}

fn printable(v: &Vec<u8>) -> (r: Option<String>)
    ensures
        match r {
            Some(s) => is_printable(v@) && s@ == ascii_text(v@),
            None => !is_printable(v@),
        },
{
    let mut s = String::new();
    let mut i: usize = 0;
    while i < v.len()
        invariant
            i <= v@.len(),
            forall|j: int| 0 <= j < i ==> 32 <= #[trigger] v@[j] < 127 || v@[j] == 9,
            s@ == ascii_text(v@.take(i as int)),
        decreases v@.len() - i,
    {
        if !(v[i] >= 32 && v[i] < 127 || v[i] == 9) {
            return None;
        }
        s.push(v[i] as char);
        i += 1;
        assert(s@ =~= ascii_text(v@.take(i as int)));
    }
    assert(v@.take(i as int) =~= v@);
    Some(s)
}

/// A purpose-built HTTP/1.1 client. It is stateless.
#[derive(Clone, Copy, Debug, PartialEq, Eq, Structural)]
pub struct HttpClient;

impl HttpClient {
    /// Create a new HTTP client.
    pub fn new() -> (c: HttpClient)
        ensures
            c == HttpClient,
    {
        HttpClient
    }

    /// Where a request goes: the port defaults to that of its scheme. A request
    /// without a host is an error.
    pub fn target(&self, req: &HttpRequest) -> (r: Result<Target, Error>)
        ensures
            match r {
                Ok(t) => {
                    &&& req.host matches Some(h) && t.host@ == h@
                    &&& t.tls == wants_tls(*req)
                    &&& t.port == match req.port {
                        Some(p) => p,
                        None => if wants_tls(*req) {
                            443
                        } else {
                            80
                        },
                    }
                    &&& t.port == port_of(*req)
                },
                Err(e) => req.host is None && e.spec_kind() == ErrorKind::InvalidInput,
            },
    {
        let host = match &req.host {
            Some(h) => h.clone(),
            None => {
                return Err(Error::new(ErrorKind::InvalidInput));
            },
        };
        let tls = match &req.scheme {
            Some(s) => *s == "https".to_string(),
            None => false,
        };
        let port: u16 = match req.port {
            Some(p) => p,
            None => if tls {
                443
            } else {
                80
            },
        };
        Ok(Target { host, port, tls })
    }

    /// The head of a request, to be sent to `host`.
    pub fn request_head(&self, req: &HttpRequest, host: &str) -> (r: String)
        ensures
            r@ == head_text(*req, host@),
    {
        let mut out = req.method.clone();
        out.append(" ");
        match &req.path_and_query {
            Some(p) => {
                out.append(p.as_str());
            },
            None => {
                out.append("/");
            },
        }
        out.append(" HTTP/1.1\r\nHost: ");
        out.append(host);
        out.append("\r\n");
        let ghost line = out@;
        let mut i: usize = 0;
        proof {
            assert(req.headers@.take(0) =~= Seq::<(String, Vec<u8>)>::empty());
            assert(line + header_lines(req.headers@.take(0)) =~= line);
        }
        while i < req.headers.len()
            invariant
                i <= req.headers@.len(),
                out@ == line + header_lines(req.headers@.take(i as int)),
            decreases req.headers@.len() - i,
        {
            proof {
                assert(req.headers@.take(i + 1).drop_last() =~= req.headers@.take(i as int));
            }
            if let Some(v) = printable(&req.headers[i].1) {
                out.append(req.headers[i].0.as_str());
                out.append(": ");
                out.append(v.as_str());
                out.append("\r\n");
                assert(out@ =~= line + header_lines(req.headers@.take(i + 1)));
            }
            i += 1;
        }
        assert(req.headers@.take(i as int) =~= req.headers@);
        if !has_field(&req.headers, "user-agent") {
            out.append("User-Agent: torrent-rs/0.1.0\r\n");
        } else {
            assert(out@ + Seq::<char>::empty() =~= out@);
        }
        if !has_field(&req.headers, "accept-encoding") {
            out.append("Accept-Encoding: identity\r\n");
        } else {
            assert(out@ + Seq::<char>::empty() =~= out@);
        }
        out.append("Connection: close\r\n");
        out.append("\r\n");
        out
    }

    /// The limit on the size of the response, if the request sets one.
    pub fn max_response(&self, req: &HttpRequest) -> (r: Option<u64>)
        ensures
            match r {
                Some(n) => response_limit(req.headers@) == Some(n as nat),
                None => response_limit(req.headers@) is None,
            },
    {
        let wanted = "x-max-response".to_string();
        let ghost f = |h: (String, Vec<u8>)| h.0@ == "x-max-response"@;
        let mut i: usize = 0;
        while i < req.headers.len()
            invariant
                i <= req.headers@.len(),
                wanted@ == "x-max-response"@,
                f == (|h: (String, Vec<u8>)| h.0@ == "x-max-response"@),
                forall|j: int| 0 <= j < i ==> !f(#[trigger] req.headers@[j]),
            decreases req.headers@.len() - i,
        {
            if req.headers[i].0 == wanted {
                proof {
                    crate::seqs::lemma_first_where_is(req.headers@, f, i as int);
                }
                return match printable(&req.headers[i].1) {
                    Some(s) => {
                        let chars = chars_of(s.as_str());
                        parse_decimal(&chars, u64::MAX)
                    },
                    None => None,
                };
            }
            i += 1;
        }
        proof {
            crate::seqs::lemma_first_where_is(req.headers@, f, i as int);
        }
        None
    }
}

/// The limit on the size of the response: the number in the first field of that
/// name.
pub open spec fn response_limit(headers: Seq<(String, Vec<u8>)>) -> Option<nat> {
    let i = first_where(headers, |h: (String, Vec<u8>)| h.0@ == "x-max-response"@);
    if i < headers.len() && is_printable(headers[i].1@) {
        decimal(ascii_text(headers[i].1@), u64::MAX as int)
    } else {
        None
    }
}

/// Lines of a header block come back as they were put in: a text of lines that
/// hold no line end, each ended by a carriage return and a line feed but the
/// last, has these lines.
pub proof fn law_lines_of_crlf(first: Seq<char>, rest: Seq<char>)
    requires
        forall|i: int| 0 <= i < first.len() ==> #[trigger] first[i] != '\n' && first[i] != '\r',
    ensures
        lines_of(first + seq!['\r', '\n'] + rest) == seq![first] + lines_of(rest),
{
    let s = first + seq!['\r', '\n'] + rest;
    let i: int = (first.len() + 1) as int;
    assert forall|j: int| 0 <= j < i implies !is_lf()(#[trigger] s[j]) by {}
    crate::seqs::lemma_first_where_is(s, is_lf(), i as int);
    assert(s.take(i as int) =~= first.push('\r'));
    assert(strip_cr(first.push('\r')) =~= first);
    assert(s.skip(i + 1) =~= rest);
}

} // verus!
