//! What requests and responses say, told by the parts that they are made of.

use super::http::{
    ascii_text, colon_at, contents_of, ends_at, fields_of, has_header, head_text, header_end,
    header_lines, header_text, is_header_name, is_header_value, is_lf, is_printable, is_response,
    law_lines_of_crlf, lines_of, lower, lower_char, no_spaces, port_of, request_path,
    response_fields, response_limit, second_word, skip_spaces, spaces, status_code, status_line,
    wants_tls, HttpRequest,
};
use crate::seqs::{lemma_first_where, lemma_first_where_is};
use crate::text::{all_digits, decimal, decimal_of, is_space, law_decimal_round_trip};
use vstd::prelude::*;

verus! {

/// The header block of a response ends where the first empty line begins.
pub proof fn law_head_ends(raw: Seq<u8>, n: int)
    requires
        0 <= n,
        n + 4 <= raw.len(),
        raw[n] == 13 && raw[n + 1] == 10 && raw[n + 2] == 13 && raw[n + 3] == 10,
        forall|i: int|
            0 <= i < n ==> !(#[trigger] raw[i] == 13 && raw[i + 1] == 10 && raw[i + 2] == 13
                && raw[i + 3] == 10),
    ensures
        header_end(raw) == n,
{
    let flags = Seq::new(raw.len(), |i: int| ends_at(raw, i));
    let yes = |b: bool| b;
    assert forall|j: int| 0 <= j < n implies !yes(#[trigger] flags[j]) by {
        assert(!(raw[j] == 13 && raw[j + 1] == 10 && raw[j + 2] == 13 && raw[j + 3] == 10));
    }
    assert(yes(flags[n]));
    lemma_first_where_is(flags, yes, n);
}

/// Without an empty line there is no header block.
pub proof fn law_no_head(raw: Seq<u8>)
    requires
        forall|i: int|
            0 <= i && i + 4 <= raw.len() ==> !(#[trigger] raw[i] == 13 && raw[i + 1] == 10
                && raw[i + 2] == 13 && raw[i + 3] == 10),
    ensures
        header_end(raw) == raw.len(),
{
    let flags = Seq::new(raw.len(), |i: int| ends_at(raw, i));
    let yes = |b: bool| b;
    assert forall|j: int| 0 <= j < raw.len() implies !yes(#[trigger] flags[j]) by {
        if j + 4 <= raw.len() {
            assert(!(raw[j] == 13 && raw[j + 1] == 10 && raw[j + 2] == 13 && raw[j + 3] == 10));
        }
    }
    lemma_first_where_is(flags, yes, raw.len() as int);
}

/// The status is the number between the version and the reason, whatever the
/// reason, and also without one.
pub proof fn law_status(version: Seq<char>, n: nat, reason: Seq<char>)
    requires
        version.len() > 0,
        forall|i: int| 0 <= i < version.len() ==> !is_space(#[trigger] version[i]),
        n <= u16::MAX,
    ensures
        status_code(version + seq![' '] + decimal_of(n) + seq![' '] + reason) == n,
        status_code(version + seq![' '] + decimal_of(n)) == n,
        status_code(version) == 500,
{
    let d = decimal_of(n);
    law_decimal_round_trip(n, u16::MAX as int);
    lemma_digits(n);
    assert forall|i: int| 0 <= i < d.len() implies !is_space(#[trigger] d[i]) by {}
    let tail = seq![' '] + reason;
    law_second_word(Seq::empty(), version, seq![' '], d, tail);
    assert(Seq::<char>::empty() + version + seq![' '] + d + tail =~= version + seq![' '] + d + tail);
    assert(version + seq![' '] + d + tail =~= version + seq![' '] + d + seq![' '] + reason);
    law_second_word(Seq::empty(), version, seq![' '], d, Seq::empty());
    assert(Seq::<char>::empty() + version + seq![' '] + d + Seq::<char>::empty() =~= version + seq![
        ' ',
    ] + d);
    assert(version + seq![' '] + d + Seq::<char>::empty() =~= version + seq![' '] + d);
    let a = skip_spaces(version);
    lemma_first_where_is(version, no_spaces(), 0);
    assert(a =~= version);
    assert forall|j: int| 0 <= j < a.len() implies !spaces()(#[trigger] a[j]) by {}
    lemma_first_where_is(a, spaces(), a.len() as int);
    let t = a.skip(a.len() as int);
    assert(t =~= Seq::empty());
    lemma_first_where(t, no_spaces());
    assert(skip_spaces(t) =~= Seq::empty());
}

/// A number is written in digits alone.
proof fn lemma_digits(n: nat)
    ensures
        decimal_of(n).len() > 0,
        all_digits(decimal_of(n)),
{
    law_decimal_round_trip(n, n as int);
    let d = decimal_of(n);
    if d.len() > 0 && d[0] == '+' {
        lemma_no_sign(n);
    }
}

proof fn lemma_no_sign(n: nat)
    ensures
        decimal_of(n).len() > 0,
        decimal_of(n)[0] != '+',
    decreases n,
{
    if n >= 10 {
        lemma_no_sign(n / 10);
    }
}

/// The second word of a line comes after the blanks that follow the first, however
/// many there are, and ends before the next blank.
pub proof fn law_second_word(
    lead: Seq<char>,
    first: Seq<char>,
    gap: Seq<char>,
    second: Seq<char>,
    tail: Seq<char>,
)
    requires
        forall|i: int| 0 <= i < lead.len() ==> is_space(#[trigger] lead[i]),
        first.len() > 0,
        forall|i: int| 0 <= i < first.len() ==> !is_space(#[trigger] first[i]),
        gap.len() > 0,
        forall|i: int| 0 <= i < gap.len() ==> is_space(#[trigger] gap[i]),
        second.len() > 0,
        forall|i: int| 0 <= i < second.len() ==> !is_space(#[trigger] second[i]),
        tail.len() > 0 ==> is_space(tail[0]),
    ensures
        second_word(lead + first + gap + second + tail) == Some(second),
{
    let s = lead + first + gap + second + tail;
    let m = lead.len() as int;
    assert forall|j: int| 0 <= j < m implies !no_spaces()(#[trigger] s[j]) by {
        assert(s[j] == lead[j]);
    }
    assert(s[m] == first[0]);
    lemma_first_where_is(s, no_spaces(), m);
    let a = skip_spaces(s);
    assert(a =~= first + gap + second + tail);
    let n = first.len() as int;
    assert(a[n] == gap[0]);
    assert(spaces()(a[n]));
    assert forall|j: int| 0 <= j < n implies !spaces()(#[trigger] a[j]) by {
        assert(a[j] == first[j]);
    }
    lemma_first_where_is(a, spaces(), n);
    let t = a.skip(n);
    assert(t =~= gap + second + tail);
    let g = gap.len() as int;
    assert forall|j: int| 0 <= j < g implies !no_spaces()(#[trigger] t[j]) by {
        assert(t[j] == gap[j]);
    }
    assert(t[g] == second[0]);
    assert(no_spaces()(t[g]));
    lemma_first_where_is(t, no_spaces(), g);
    let b = skip_spaces(t);
    assert(b =~= second + tail);
    let k = second.len() as int;
    assert forall|j: int| 0 <= j < k implies !spaces()(#[trigger] b[j]) by {
        assert(b[j] == second[j]);
    }
    if tail.len() > 0 {
        assert(b[k] == tail[0]);
        assert(spaces()(b[k]));
    }
    lemma_first_where_is(b, spaces(), k);
    assert(b.take(k) =~= second);
}

/// A line with a name, a colon, a blank and a value adds that field behind the
/// others. The value may hold further colons. A line without a colon and a blank
/// adds none.
pub proof fn law_field(lines: Seq<Seq<char>>, name: Seq<char>, value: Seq<char>, line: Seq<char>)
    requires
        forall|i: int| 0 <= i < name.len() ==> #[trigger] name[i] != ':',
        forall|i: int|
            0 <= i && i + 1 < line.len() ==> !(#[trigger] line[i] == ':' && line[i + 1] == ' '),
    ensures
        fields_of(lines.push(name + seq![':', ' '] + value)) == fields_of(lines).push(
            (name, value),
        ),
        fields_of(lines.push(line)) == fields_of(lines),
        fields_of(Seq::empty()).len() == 0,
{
    let yes = |b: bool| b;
    let l = name + seq![':', ' '] + value;
    let flags = Seq::new(
        l.len(),
        |i: int| i + 1 < l.len() && l[i] == ':' && l[i + 1] == ' ',
    );
    let n = name.len() as int;
    assert(l[n] == ':' && l[n + 1] == ' ');
    assert forall|j: int| 0 <= j < n implies !yes(#[trigger] flags[j]) by {
        assert(l[j] == name[j]);
    }
    assert(yes(flags[n]));
    lemma_first_where_is(flags, yes, n);
    assert(colon_at(l) == n);
    assert(l.take(n) =~= name);
    assert(l.skip(n + 2) =~= value);
    assert(lines.push(l).drop_last() =~= lines);
    let none = Seq::new(
        line.len(),
        |i: int| i + 1 < line.len() && line[i] == ':' && line[i + 1] == ' ',
    );
    assert forall|j: int| 0 <= j < line.len() implies !yes(#[trigger] none[j]) by {
        if j + 1 < line.len() {
            assert(!(line[j] == ':' && line[j + 1] == ' '));
        }
    }
    lemma_first_where_is(none, yes, line.len() as int);
    assert(lines.push(line).drop_last() =~= lines);
}

/// Letter case does not matter in names: a letter and its capital are the same,
/// and what is in lower case stays.
pub proof fn law_lower(s: Seq<char>, i: int)
    requires
        0 <= i < s.len(),
    ensures
        lower(s).len() == s.len(),
        'A' <= s[i] <= 'Z' ==> lower(s)[i] as u32 == s[i] as u32 + 32,
        !('A' <= s[i] <= 'Z') ==> lower(s)[i] == s[i],
        lower(lower(s)) == lower(s),
{
    assert forall|c: char| lower_char(#[trigger] lower_char(c)) == lower_char(c) by {
        if 'A' <= c <= 'Z' {
            let d = (c as u32 + 32) as char;
            assert(d as u32 == c as u32 + 32);
            assert(!('A' <= d <= 'Z'));
        }
    }
    assert(lower(lower(s)) =~= lower(s));
}

/// A field adds its value, in UTF-8, behind the values that its name has already,
/// in whatever letter case it comes; other names keep theirs.
pub proof fn law_contents(
    fields: Seq<(Seq<char>, Seq<char>)>,
    name: Seq<char>,
    value: Seq<char>,
    other: Seq<char>,
)
    ensures
        ({
            let before = contents_of(fields);
            let after = contents_of(fields.push((name, value)));
            let n = lower(name);
            &&& after.contains_key(n)
            &&& after[n].last() == vstd::utf8::encode_utf8(value)
            &&& before.contains_key(n) ==> after[n].drop_last() == before[n]
            &&& !before.contains_key(n) ==> after[n].len() == 1
            &&& other != n ==> after.contains_key(other) == before.contains_key(other)
                && after[other] == before[other]
        }),
        contents_of(Seq::empty()) == Map::<Seq<char>, Seq<Seq<u8>>>::empty(),
{
    let more = fields.push((name, value));
    assert(more.drop_last() =~= fields);
    let before = contents_of(fields);
    let n = lower(name);
    if before.contains_key(n) {
        assert(contents_of(more)[n].drop_last() =~= before[n]);
    }
}

/// A text without line ends.
pub open spec fn one_line(s: Seq<char>) -> bool {
    forall|i: int| 0 <= i < s.len() ==> #[trigger] s[i] != '\n' && s[i] != '\r'
}

/// The head of a request, line by line: what is asked for, the host, each given
/// field whose value can be shown, by name and value, and then an empty line. Who
/// asks is named unless the request names it, and no encoding is accepted unless
/// the request says so.
pub proof fn law_head(req: HttpRequest, host: Seq<char>, k: int)
    requires
        one_line(req.method@),
        one_line(request_path(req)),
        one_line(host),
        forall|i: int| 0 <= i < req.headers@.len() ==> one_line((#[trigger] req.headers@[i]).0@),
    ensures
        ({
            let lines = lines_of(head_text(req, host));
            let n = lines.len() as int;
            &&& n >= 4
            &&& lines[0] == req.method@ + " "@ + request_path(req) + " HTTP/1.1"@
            &&& lines[1] == "Host: "@ + host
            &&& lines[n - 1].len() == 0
            &&& lines[n - 2] == "Connection: close"@
            &&& 0 <= k < req.headers@.len() && is_printable(req.headers@[k].1@) ==> lines.contains(
                req.headers@[k].0@ + ": "@ + ascii_text(req.headers@[k].1@),
            )
            &&& !has_header(req.headers@, "user-agent"@) ==> lines.contains(
                "User-Agent: torrent-rs/0.1.0"@,
            )
            &&& !has_header(req.headers@, "accept-encoding"@) ==> lines.contains(
                "Accept-Encoding: identity"@,
            )
        }),
        req.path_and_query matches Some(p) ==> request_path(req) == p@,
        req.path_and_query is None ==> request_path(req) == "/"@,
{
    let crlf = seq!['\r', '\n'];
    let first = request_line(req);
    let second = "Host: "@ + host;
    let rest1 = default_lines(req);
    let rest0 = header_lines(req.headers@) + rest1;
    let t = head_text(req, host);
    lemma_head_parts(req, host);
    lemma_one_lines(req, host);
    law_lines_of_crlf(first, second + crlf + rest0);
    law_lines_of_crlf(second, rest0);
    lemma_header_lines(req.headers@, rest1, k);
    lemma_default_lines(req);
    let a = lines_of(t);
    let b = lines_of(rest0);
    let c = lines_of(rest1);
    assert(a =~= seq![first, second] + b);
    lemma_suffix(seq![first, second], b);
    let f = b.len() - c.len();
    assert(b.skip(f) == c);
    assert(b =~= b.take(f) + b.skip(f));
    lemma_suffix(b.take(f), c);
    assert(a[a.len() - 2] == c[c.len() - 2]) by {
        assert(a[a.len() - 2] == b[b.len() - 2]);
        assert(b[b.len() - 2] == b.skip(f)[c.len() - 2]);
    }
    assert(a[a.len() - 1] == c[c.len() - 1]) by {
        assert(a[a.len() - 1] == b[b.len() - 1]);
        assert(b[b.len() - 1] == b.skip(f)[c.len() - 1]);
    }
}

spec fn request_line(req: HttpRequest) -> Seq<char> {
    req.method@ + " "@ + request_path(req) + " HTTP/1.1"@
}

/// What follows the given fields in the head of a request.
spec fn default_lines(req: HttpRequest) -> Seq<char> {
    let crlf = seq!['\r', '\n'];
    let end = "Connection: close"@ + crlf + (Seq::<char>::empty() + crlf + Seq::<char>::empty());
    let encoding = if has_header(req.headers@, "accept-encoding"@) {
        end
    } else {
        "Accept-Encoding: identity"@ + crlf + end
    };
    if has_header(req.headers@, "user-agent"@) {
        encoding
    } else {
        "User-Agent: torrent-rs/0.1.0"@ + crlf + encoding
    }
}

proof fn lemma_head_parts(req: HttpRequest, host: Seq<char>)
    ensures
        head_text(req, host) == request_line(req) + seq!['\r', '\n'] + ("Host: "@ + host + seq![
            '\r',
            '\n',
        ] + (header_lines(req.headers@) + default_lines(req))),
{
    let crlf = seq!['\r', '\n'];
    assert(" HTTP/1.1\r\nHost: "@ =~= " HTTP/1.1"@ + crlf + "Host: "@) by {
        reveal_strlit(" HTTP/1.1");
        reveal_strlit("Host: ");
        reveal_strlit(" HTTP/1.1\r\nHost: ");
    }
    assert("\r\n"@ =~= crlf) by {
        reveal_strlit("\r\n");
    }
    assert("User-Agent: torrent-rs/0.1.0\r\n"@ =~= "User-Agent: torrent-rs/0.1.0"@ + crlf) by {
        reveal_strlit("User-Agent: torrent-rs/0.1.0");
        reveal_strlit("User-Agent: torrent-rs/0.1.0\r\n");
    }
    assert("Accept-Encoding: identity\r\n"@ =~= "Accept-Encoding: identity"@ + crlf) by {
        reveal_strlit("Accept-Encoding: identity");
        reveal_strlit("Accept-Encoding: identity\r\n");
    }
    assert("Connection: close\r\n"@ =~= "Connection: close"@ + crlf) by {
        reveal_strlit("Connection: close");
        reveal_strlit("Connection: close\r\n");
    }
    let end = "Connection: close"@ + crlf;
    let agent = if has_header(req.headers@, "user-agent"@) {
        Seq::empty()
    } else {
        "User-Agent: torrent-rs/0.1.0"@ + crlf
    };
    let encoding = if has_header(req.headers@, "accept-encoding"@) {
        Seq::empty()
    } else {
        "Accept-Encoding: identity"@ + crlf
    };
    let none = Seq::<char>::empty();
    assert(none + crlf + none =~= crlf);
    let front = req.method@ + " "@ + request_path(req);
    lemma_join_front(
        front,
        " HTTP/1.1"@ + crlf,
        "Host: "@,
        host,
        crlf,
        header_lines(req.headers@),
    );
    lemma_join_front(front, " HTTP/1.1"@, crlf, Seq::empty(), Seq::empty(), Seq::empty());
    lemma_join_back(
        front + " HTTP/1.1"@ + crlf + ("Host: "@ + host + crlf),
        header_lines(req.headers@),
        agent,
        encoding,
        end,
        crlf,
    );
    let last = agent + (encoding + (end + crlf));
    assert(last =~= default_lines(req));
    let all = header_lines(req.headers@) + last;
    assert((front + " HTTP/1.1"@ + crlf) + ("Host: "@ + host + crlf) + all =~= front + " HTTP/1.1"@
        + crlf + ("Host: "@ + host + crlf + all));
}

proof fn lemma_join_front(
    a: Seq<char>,
    b: Seq<char>,
    c: Seq<char>,
    d: Seq<char>,
    e: Seq<char>,
    f: Seq<char>,
)
    ensures
        a + (b + c) + d + e + f == (a + b) + (c + d + e) + f,
        a + (b + c) == (a + b) + c,
{
    assert(a + (b + c) =~= (a + b) + c);
    assert((a + b) + c + d + e =~= (a + b) + (c + d + e));
}

proof fn lemma_join_back(
    a: Seq<char>,
    b: Seq<char>,
    c: Seq<char>,
    d: Seq<char>,
    e: Seq<char>,
    f: Seq<char>,
)
    ensures
        a + b + c + d + e + f == a + (b + (c + (d + (e + f)))),
{
    assert(a + b + c + d + e + f =~= a + b + c + d + (e + f));
    assert(a + b + c + d + (e + f) =~= a + b + c + (d + (e + f)));
    assert(a + b + c + (d + (e + f)) =~= a + b + (c + (d + (e + f))));
    assert(a + b + (c + (d + (e + f))) =~= a + (b + (c + (d + (e + f)))));
}

proof fn lemma_one_lines(req: HttpRequest, host: Seq<char>)
    requires
        one_line(req.method@),
        one_line(request_path(req)),
        one_line(host),
    ensures
        one_line(request_line(req)),
        one_line("Host: "@ + host),
{
    reveal_strlit(" ");
    reveal_strlit(" HTTP/1.1");
    reveal_strlit("Host: ");
}

proof fn lemma_default_lines(req: HttpRequest)
    ensures
        ({
            let lines = lines_of(default_lines(req));
            let n = lines.len() as int;
            &&& n >= 2
            &&& lines[n - 1].len() == 0
            &&& lines[n - 2] == "Connection: close"@
            &&& !has_header(req.headers@, "user-agent"@) ==> lines.contains(
                "User-Agent: torrent-rs/0.1.0"@,
            )
            &&& !has_header(req.headers@, "accept-encoding"@) ==> lines.contains(
                "Accept-Encoding: identity"@,
            )
        }),
{
    let crlf = seq!['\r', '\n'];
    let none = Seq::<char>::empty();
    let agent = "User-Agent: torrent-rs/0.1.0"@;
    let identity = "Accept-Encoding: identity"@;
    let end = "Connection: close"@ + crlf + (none + crlf + none);
    assert(one_line("Connection: close"@)) by {
        reveal_strlit("Connection: close");
    }
    assert(one_line(agent)) by {
        reveal_strlit("User-Agent: torrent-rs/0.1.0");
    }
    assert(one_line(identity)) by {
        reveal_strlit("Accept-Encoding: identity");
    }
    law_lines_of_crlf("Connection: close"@, none + crlf + none);
    law_lines_of_crlf(none, none);
    let e = lines_of(end);
    assert(lines_of(none).len() == 0);
    assert(e =~= seq!["Connection: close"@, none]);
    let encoding = if has_header(req.headers@, "accept-encoding"@) {
        end
    } else {
        identity + crlf + end
    };
    law_lines_of_crlf(identity, end);
    law_lines_of_crlf(agent, encoding);
    let d = lines_of(encoding);
    lemma_suffix(seq![identity], e);
    if !has_header(req.headers@, "accept-encoding"@) {
        assert(d[0] == identity);
        assert(d.contains(identity));
    }
    lemma_suffix(seq![agent], d);
    if !has_header(req.headers@, "user-agent"@) {
        assert((seq![agent] + d)[0] == agent);
    }
}

/// What the end of a list holds, the list holds.
proof fn lemma_suffix(s: Seq<Seq<char>>, t: Seq<Seq<char>>)
    ensures
        forall|x: Seq<char>| #[trigger] t.contains(x) ==> (s + t).contains(x),
        t.len() > 0 ==> (s + t).last() == t.last(),
{
    assert forall|x: Seq<char>| #[trigger] t.contains(x) implies (s + t).contains(x) by {
        let i = choose|i: int| 0 <= i < t.len() && t[i] == x;
        assert((s + t)[s.len() + i] == x);
    }
}

/// The lines of the given fields come before those of what follows.
proof fn lemma_header_lines(headers: Seq<(String, Vec<u8>)>, rest: Seq<char>, k: int)
    requires
        forall|i: int| 0 <= i < headers.len() ==> one_line((#[trigger] headers[i]).0@),
    ensures
        ({
            let lines = lines_of(header_lines(headers) + rest);
            let n = lines.len() - lines_of(rest).len();
            &&& n >= 0
            &&& lines.skip(n) == lines_of(rest)
            &&& 0 <= k < headers.len() && is_printable(headers[k].1@) ==> lines.contains(
                headers[k].0@ + ": "@ + ascii_text(headers[k].1@),
            )
        }),
    decreases headers.len(),
{
    reveal_strlit(": ");
    reveal_strlit("\r\n");
    let all = header_lines(headers) + rest;
    if headers.len() == 0 {
        assert(all =~= rest);
        assert(lines_of(rest).skip(0) =~= lines_of(rest));
    } else {
        let h = headers.last();
        let init = headers.drop_last();
        let crlf = seq!['\r', '\n'];
        if is_printable(h.1@) {
            let line = h.0@ + ": "@ + ascii_text(h.1@);
            assert(one_line(line)) by {
                assert forall|i: int| 0 <= i < line.len() implies #[trigger] line[i] != '\n'
                    && line[i] != '\r' by {
                    let n = h.0@.len() as int;
                    if i < n {
                        assert(line[i] == headers[headers.len() - 1].0@[i]);
                    } else if i >= n + 2 {
                        let b = h.1@[i - n - 2];
                        assert(line[i] == b as char);
                        assert(line[i] as u32 == b as u32);
                    }
                }
            }
            let more = line + crlf + rest;
            assert(all =~= header_lines(init) + more);
            lemma_header_lines(init, more, k);
            law_lines_of_crlf(line, rest);
            let lines = lines_of(all);
            let m = lines.len() - lines_of(more).len();
            assert(lines.skip(m + 1) =~= lines_of(rest)) by {
                assert(lines.skip(m) == lines_of(more));
                assert(lines_of(more).skip(1) =~= lines_of(rest));
                assert(lines.skip(m).skip(1) =~= lines.skip(m + 1));
            }
            assert(lines[m] == line) by {
                assert(lines.skip(m)[0] == line);
            }
        } else {
            lemma_header_lines(init, rest, k);
        }
        if k < init.len() {
            assert(0 <= k ==> init[k] == headers[k]);
        }
    }
}

/// A request goes over TLS exactly when its scheme says so.
pub proof fn law_tls(req: HttpRequest)
    ensures
        wants_tls(req) <==> req.scheme is Some && (req.scheme->Some_0)@ == seq![
            'h',
            't',
            't',
            'p',
            's',
        ],
{
    reveal_strlit("https");
    assert("https"@ =~= seq!['h', 't', 't', 'p', 's']);
}

/// A limit is taken from the first field of that name: its value, if that is a
/// number in decimal. Without such a field there is no limit.
pub proof fn law_response_limit(headers: Seq<(String, Vec<u8>)>, k: int, n: nat)
    requires
        0 <= k <= headers.len(),
        n <= u64::MAX,
        forall|i: int| 0 <= i < k ==> (#[trigger] headers[i]).0@ != "x-max-response"@,
    ensures
        k == headers.len() ==> response_limit(headers) is None,
        k < headers.len() && headers[k].0@ == "x-max-response"@ && is_printable(headers[k].1@)
            && ascii_text(headers[k].1@) == decimal_of(n) ==> response_limit(headers) == Some(n),
        k < headers.len() && headers[k].0@ == "x-max-response"@ && headers[k].1@.len() == 0
            ==> response_limit(headers) is None,
{
    let f = |h: (String, Vec<u8>)| h.0@ == "x-max-response"@;
    if k == headers.len() || headers[k].0@ == "x-max-response"@ {
        lemma_first_where_is(headers, f, k);
        law_decimal_round_trip(n, u64::MAX as int);
    }
}

/// What stands before the first empty line is the header block, read as UTF-8. Its
/// first line is the status line, and the lines after that hold the fields.
pub proof fn law_response_parts(raw: Seq<u8>, status: Seq<char>, rest: Seq<char>)
    requires
        one_line(status),
        raw.take(header_end(raw)) == vstd::utf8::encode_utf8(status + seq!['\r', '\n'] + rest),
    ensures
        header_text(raw) == status + seq!['\r', '\n'] + rest,
        status_line(header_text(raw)) == status,
        response_fields(header_text(raw)) == fields_of(lines_of(rest)),
{
    let text = status + seq!['\r', '\n'] + rest;
    vstd::utf8::encode_utf8_decode_utf8(text);
    law_lines_of_crlf(status, rest);
    assert(lines_of(text).skip(1) =~= lines_of(rest));
}

/// Bytes are a response exactly when they hold an empty line, what stands before it
/// is text, its status has three digits, and every field has a proper name and a
/// proper value.
pub proof fn law_response(raw: Seq<u8>, k: int)
    ensures
        ({
            let text = header_text(raw);
            let fields = response_fields(text);
            &&& header_end(raw) >= raw.len() ==> !is_response(raw)
            &&& !vstd::utf8::valid_utf8(raw.take(header_end(raw))) ==> !is_response(raw)
            &&& status_code(status_line(text)) < 100 || status_code(status_line(text)) > 999
                ==> !is_response(raw)
            &&& 0 <= k < fields.len() && !(is_header_name(fields[k].0) && is_header_value(
                fields[k].1,
            )) ==> !is_response(raw)
            &&& header_end(raw) < raw.len() && vstd::utf8::valid_utf8(raw.take(header_end(raw)))
                && 100 <= status_code(status_line(text)) <= 999 && (forall|i: int|
                0 <= i < fields.len() ==> is_header_name((#[trigger] fields[i]).0)
                    && is_header_value(fields[i].1)) ==> is_response(raw)
        }),
{
}

/// A name is letters, digits and a few signs, and never empty; a blank, a colon or
/// a line end is none of these. A value holds no control character but the tab.
pub proof fn law_names_and_values(s: Seq<char>, i: int)
    requires
        0 <= i < s.len(),
    ensures
        is_header_name(s) ==> s[i] != ' ' && s[i] != ':' && s[i] != '\r' && s[i] != '\n' && s[i]
            != '\t' && s[i] as u32 > 32 && (s[i] as u32) < 127,
        !is_header_name(Seq::empty()),
        is_header_value(s) ==> s[i] != '\r' && s[i] != '\n' && (s[i] == '\t' || s[i] as u32 >= 32),
        is_header_value(Seq::empty()),
{
}

/// A line may also end in a line feed alone, and the last line need not end at all:
/// then it is taken as it is.
pub proof fn law_lines_of(line: Seq<char>, rest: Seq<char>)
    requires
        forall|i: int| 0 <= i < line.len() ==> #[trigger] line[i] != '\n',
    ensures
        line.len() > 0 ==> lines_of(line) == seq![line],
        lines_of(Seq::empty()).len() == 0,
        line.len() == 0 || line[line.len() - 1] != '\r' ==> lines_of(line + seq!['\n'] + rest)
            == seq![line] + lines_of(rest),
{
    let n = line.len() as int;
    assert forall|j: int| 0 <= j < n implies !is_lf()(#[trigger] line[j]) by {}
    lemma_first_where_is(line, is_lf(), n);
    let s = line + seq!['\n'] + rest;
    assert forall|j: int| 0 <= j < n implies !is_lf()(#[trigger] s[j]) by {
        assert(s[j] == line[j]);
    }
    assert(is_lf()(s[n]));
    lemma_first_where_is(s, is_lf(), n);
    assert(s.take(n) =~= line);
    assert(s.skip(n + 1) =~= rest);
}

/// A port that is given is used; otherwise it is the one of the scheme: 443 with
/// TLS, 80 without.
pub proof fn law_port(req: HttpRequest)
    ensures
        req.port matches Some(p) ==> port_of(req) == p,
        req.port is None && req.scheme is Some && (req.scheme->Some_0)@ == seq![
            'h',
            't',
            't',
            'p',
            's',
        ] ==> port_of(req) == 443,
        req.port is None && req.scheme is Some && (req.scheme->Some_0)@ == seq![
            'h',
            't',
            't',
            'p',
        ] ==> port_of(req) == 80,
        req.port is None && req.scheme is None ==> port_of(req) == 80,
{
    law_tls(req);
    assert(seq!['h', 't', 't', 'p'].len() != seq!['h', 't', 't', 'p', 's'].len());
}

/// A value that is made of printable ASCII characters and tabs can be shown, as the
/// characters with these codes; one with any other byte cannot.
pub proof fn law_printable(v: Seq<u8>, i: int)
    requires
        0 <= i < v.len(),
    ensures
        v[i] < 32 && v[i] != 9 ==> !is_printable(v),
        v[i] >= 127 ==> !is_printable(v),
        (forall|k: int| 0 <= k < v.len() ==> (32 <= #[trigger] v[k] <= 126 || v[k] == 9))
            ==> is_printable(v),
        is_printable(Seq::empty()),
        ascii_text(v).len() == v.len(),
        ascii_text(v)[i] as u32 == v[i],
{
}

/// A text of printable characters, blanks and tabs is a value, and so is one with
/// characters beyond ASCII.
pub proof fn law_proper_value(s: Seq<char>)
    requires
        forall|i: int|
            0 <= i < s.len() ==> (#[trigger] s[i] == '\t' || ' ' <= s[i] <= '~' || s[i] as u32
                >= 128),
    ensures
        is_header_value(s),
{
}

/// A text of letters, digits and dashes is a name, in either letter case.
pub proof fn law_proper_name(s: Seq<char>)
    requires
        1 <= s.len() <= 0xffff,
        forall|i: int|
            0 <= i < s.len() ==> ('a' <= #[trigger] s[i] <= 'z' || 'A' <= s[i] <= 'Z' || '0' <= s[i]
                <= '9' || s[i] == '-' || s[i] == '_' || s[i] == '.'),
    ensures
        is_header_name(s),
{
}

/// A status that is no number, or too large for one, counts as 500.
pub proof fn law_status_unreadable(version: Seq<char>, word: Seq<char>, tail: Seq<char>)
    requires
        version.len() > 0,
        forall|i: int| 0 <= i < version.len() ==> !is_space(#[trigger] version[i]),
        word.len() > 0,
        forall|i: int| 0 <= i < word.len() ==> !is_space(#[trigger] word[i]),
        tail.len() > 0 ==> is_space(tail[0]),
        decimal(word, 0xffff) is None,
    ensures
        status_code(version + seq![' '] + word + tail) == 500,
{
    law_second_word(Seq::empty(), version, seq![' '], word, tail);
    assert(Seq::<char>::empty() + version + seq![' '] + word + tail =~= version + seq![' '] + word
        + tail);
}

/// A field is present if one of the list has its name, the first one as well as the
/// last.
pub proof fn law_has_header(headers: Seq<(String, Vec<u8>)>, name: Seq<char>, k: int)
    ensures
        0 <= k < headers.len() && headers[k].0@ == name ==> has_header(headers, name),
        (forall|i: int| 0 <= i < headers.len() ==> (#[trigger] headers[i]).0@ != name)
            ==> !has_header(headers, name),
{
}

} // verus!
