//! HTTP/1.1 text: the head of a message split into its first line and its headers, the request
//! line of a server request, the body length a request announces, and the text of a client
//! request.
use vstd::prelude::*;
use crate::net::{
    chars_in, find_char, first_index, parse_status_code, split_words, status_code_spec, word_views,
    words,
};
use crate::sql::eq_ignore_ascii_case;
use crate::strmap::StrMap;
use crate::text::{
    chars_of, decimal, lowercase, new_string, parse_u64, parse_u64_spec, push_decimal, push_str, string_from_range,
    string_of, to_lowercase, to_uppercase, trim_bounds, trim_spec, uppercase,
};
use crate::value::{entry_models, lemma_entry_models_push, Value, ValueView};

verus! {

/// The lines of `s` as `str::split("\r\n")` yields them, scanning from `i` with the current
/// line starting at `start`.
pub open spec fn crlf_lines_from(s: Seq<char>, start: int, i: int) -> Seq<Seq<char>>
    recommends
        0 <= start <= i,
    decreases s.len() - i,
{
    if i + 1 >= s.len() {
        seq![s.subrange(start, s.len() as int)]
    } else if s[i] == '\r' && s[i + 1] == '\n' {
        seq![s.subrange(start, i)] + crlf_lines_from(s, i + 2, i + 2)
    } else {
        crlf_lines_from(s, start, i + 1)
    }
}

/// The lines of `s`, separated by `"\r\n"`.
pub open spec fn crlf_lines(s: Seq<char>) -> Seq<Seq<char>> {
    crlf_lines_from(s, 0, 0)
}

/// A header line `name: value` as a lower-cased, trimmed name and a trimmed value.
pub open spec fn header_pair(line: Seq<char>) -> Option<(Seq<char>, Seq<char>)> {
    match first_index(line, ':') {
        Some(i) => Some((lowercase(trim_spec(line.take(i))), trim_spec(line.skip(i + 1)))),
        None => None,
    }
}

/// A line with nothing but whitespace ends the headers.
pub open spec fn is_blank(line: Seq<char>) -> bool {
    trim_spec(line).len() == 0
}

/// The index of the first blank line at or after `i`, or the number of lines.
pub open spec fn first_blank(lines: Seq<Seq<char>>, i: int) -> int
    decreases lines.len() - i,
{
    if i >= lines.len() {
        lines.len() as int
    } else if is_blank(lines[i]) {
        i
    } else {
        first_blank(lines, i + 1)
    }
}

/// The headers that the lines give, in order; lines without a colon give none.
pub open spec fn header_pairs(lines: Seq<Seq<char>>) -> Seq<(Seq<char>, Seq<char>)>
    decreases lines.len(),
{
    if lines.len() == 0 {
        Seq::empty()
    } else {
        let rest = header_pairs(lines.drop_last());
        match header_pair(lines.last()) {
            Some(p) => rest.push(p),
            None => rest,
        }
    }
}

/// Name-value pairs stored in order into a map; a later pair replaces an earlier one.
pub open spec fn pairs_map(ps: Seq<(Seq<char>, Seq<char>)>) -> Map<Seq<char>, Seq<char>>
    decreases ps.len(),
{
    if ps.len() == 0 {
        Map::empty()
    } else {
        pairs_map(ps.drop_last()).insert(ps.last().0, ps.last().1)
    }
}

/// The head of an HTTP message: its first line, and the headers of the lines after it up to the
/// first blank one.
pub open spec fn head_spec(s: Seq<char>) -> (Seq<char>, Map<Seq<char>, Seq<char>>) {
    let lines = crlf_lines(s);
    (lines[0], pairs_map(header_pairs(lines.subrange(1, first_blank(lines, 1)))))
}

proof fn lemma_crlf_lines_nonempty(s: Seq<char>, start: int, i: int)
    ensures
        crlf_lines_from(s, start, i).len() >= 1,
    decreases s.len() - i,
{
    if i + 1 >= s.len() {
    } else if s[i] == '\r' && s[i + 1] == '\n' {
        lemma_crlf_lines_nonempty(s, i + 2, i + 2);
    } else {
        lemma_crlf_lines_nonempty(s, start, i + 1);
    }
}

/// The lines of `s`, separated by `"\r\n"`.
fn split_crlf(s: &Vec<char>) -> (r: Vec<Vec<char>>)
    ensures
        r@.len() >= 1,
        r@.map_values(|l: Vec<char>| l@) == crlf_lines(s@),
{
    let mut out: Vec<Vec<char>> = Vec::new();
    let mut start: usize = 0;
    let mut i: usize = 0;
    while s.len() - i > 1
        invariant
            start <= i <= s@.len(),
            out@.map_values(|l: Vec<char>| l@) + crlf_lines_from(s@, start as int, i as int)
                == crlf_lines(s@),
        decreases s@.len() - i,
    {
        if s[i] == '\r' && s[i + 1] == '\n' {
            let line = chars_in(s, start, i);
            let ghost before = out@.map_values(|l: Vec<char>| l@);
            out.push(line);
            assert(out@.map_values(|l: Vec<char>| l@) =~= before.push(line@));
            assert(before + crlf_lines_from(s@, start as int, i as int) =~= before.push(line@)
                + crlf_lines_from(s@, i + 2, i + 2));
            start = i + 2;
            i = i + 2;
        } else {
            i = i + 1;
        }
    }
    let line = chars_in(s, start, s.len());
    let ghost before = out@.map_values(|l: Vec<char>| l@);
    out.push(line);
    assert(out@.map_values(|l: Vec<char>| l@) =~= before + crlf_lines_from(s@, start as int, i as int));
    proof {
        lemma_crlf_lines_nonempty(s@, 0, 0);
    }
    out
}

/// The header a line gives, if it has a colon.
fn parse_header_line(line: &Vec<char>) -> (r: Option<(String, String)>)
    ensures
        match r {
            Some((k, v)) => header_pair(line@) == Some((k@, v@)),
            None => header_pair(line@) is None,
        },
{
    match find_char(line, 0, line.len(), ':') {
        Some(i) => {
            proof {
                assert(first_index(line@, ':') == Some(i as int)) by {
                    let j = choose|j: int|
                        0 <= j < line@.len() && line@[j] == ':' && forall|q: int| 0 <= q < j ==> line@[q] != ':';
                    if j < i {
                    } else if j > i {
                        assert(line@[i as int] == ':');
                    }
                }
            }
            let name = chars_in(line, 0, i);
            let (nlo, nhi) = trim_bounds(&name);
            let name_text = string_from_range(&name, nlo, nhi);
            let key = to_lowercase(name_text.as_str());
            let value = chars_in(line, i + 1, line.len());
            let (vlo, vhi) = trim_bounds(&value);
            let v = string_from_range(&value, vlo, vhi);
            assert(name@ == line@.take(i as int));
            assert(value@ == line@.skip(i + 1));
            Some((key, v))
        },
        None => {
            assert(!(exists|j: int| 0 <= j < line@.len() && line@[j] == ':'));
            None
        },
    }
}

/// The first line of an HTTP head and its headers: the lines after the first, up to the first
/// blank one, each `name: value` line giving a lower-cased, trimmed name and a trimmed value
/// (a later header of the same name wins, lines without a colon are passed over).
pub fn parse_http_head(head: &str) -> (r: (String, StrMap<String>))
    ensures
        r.1.wf(),
        (r.0@, r.1@) == head_spec(head@),
{
    let s = chars_of(head);
    let lines = split_crlf(&s);
    let ghost views = lines@.map_values(|l: Vec<char>| l@);
    assert(views[0] == lines@[0]@);
    let first = string_from_range(&lines[0], 0, lines[0].len());
    assert(lines@[0]@.subrange(0, lines@[0]@.len() as int) =~= lines@[0]@);
    let mut headers: StrMap<String> = StrMap::new();
    let mut j: usize = 1;
    assert(views.subrange(1, 1) =~= Seq::<Seq<char>>::empty());
    assert(pairs_map(header_pairs(views.subrange(1, 1))) =~= Map::<Seq<char>, Seq<char>>::empty());
    loop
        invariant
            1 <= j <= lines@.len(),
            views == lines@.map_values(|l: Vec<char>| l@),
            views == crlf_lines(s@),
            headers.wf(),
            headers@ == pairs_map(header_pairs(views.subrange(1, j as int))),
            first_blank(views, 1) == first_blank(views, j as int),
        ensures
            j == first_blank(views, 1),
            headers.wf(),
            headers@ == pairs_map(header_pairs(views.subrange(1, j as int))),
        decreases lines@.len() - j,
    {
        if j >= lines.len() {
            break;
        }
        let (lo, hi) = trim_bounds(&lines[j]);
        assert(views[j as int] == lines@[j as int]@);
        if lo == hi {
            assert(is_blank(views[j as int]));
            break;
        }
        let ghost sub = views.subrange(1, j + 1);
        assert(sub.drop_last() =~= views.subrange(1, j as int));
        assert(sub.last() == views[j as int]);
        let ghost prior = header_pairs(views.subrange(1, j as int));
        match parse_header_line(&lines[j]) {
            Some((k, v)) => {
                assert(header_pairs(sub) == prior.push((k@, v@)));
                assert(prior.push((k@, v@)).drop_last() =~= prior);
                headers.insert(k, v);
            },
            None => {
                assert(header_pairs(sub) == prior);
            },
        }
        j = j + 1;
    }
    (first, headers)
}

/// The request line `METHOD target HTTP/1.1`: the method upper-cased, and the target split at
/// its first `?` into path and query.
pub open spec fn request_line_spec(line: Seq<char>) -> Result<(Seq<char>, Seq<char>, Seq<char>), Seq<char>> {
    let ws = words(line);
    if ws.len() < 2 {
        Err("Malformed HTTP request line"@)
    } else {
        match first_index(ws[1], '?') {
            Some(i) => Ok((uppercase(ws[0]), ws[1].take(i), ws[1].skip(i + 1))),
            None => Ok((uppercase(ws[0]), ws[1], Seq::empty())),
        }
    }
}

/// Splits a request line into method, path and query.
pub fn parse_request_line(line: &str) -> (r: Result<(String, String, String), String>)
    ensures
        match r {
            Ok((m, p, q)) => request_line_spec(line@) == Ok::<(Seq<char>, Seq<char>, Seq<char>), Seq<char>>((m@, p@, q@)),
            Err(e) => request_line_spec(line@) == Err::<(Seq<char>, Seq<char>, Seq<char>), Seq<char>>(e@),
        },
{
    let s = chars_of(line);
    let ws = split_words(&s);
    if ws.len() < 2 {
        return Err(string_of("Malformed HTTP request line"));
    }
    assert(word_views(ws@)[0] == ws@[0]@ && word_views(ws@)[1] == ws@[1]@);
    let m = string_from_range(&ws[0], 0, ws[0].len());
    assert(ws@[0]@.subrange(0, ws@[0]@.len() as int) =~= ws@[0]@);
    let method = to_uppercase(m.as_str());
    let full = &ws[1];
    match find_char(full, 0, full.len(), '?') {
        Some(q) => {
            proof {
                assert(first_index(full@, '?') == Some(q as int)) by {
                    let j = choose|j: int|
                        0 <= j < full@.len() && full@[j] == '?' && forall|k: int| 0 <= k < j ==> full@[k] != '?';
                    if j > q {
                        assert(full@[q as int] == '?');
                    }
                }
                assert(full@.subrange(0, q as int) =~= full@.take(q as int));
                assert(full@.subrange(q + 1, full@.len() as int) =~= full@.skip(q + 1));
            }
            let path = string_from_range(full, 0, q);
            let query = string_from_range(full, q + 1, full.len());
            Ok((method, path, query))
        },
        None => {
            assert(!(exists|j: int| 0 <= j < full@.len() && full@[j] == '?'));
            assert(full@.subrange(0, full@.len() as int) =~= full@);
            let path = string_from_range(full, 0, full.len());
            Ok((method, path, new_string()))
        },
    }
}

/// The body length that headers announce: `content-length` read as a `usize`, or 0.
pub open spec fn content_length_spec(h: Map<Seq<char>, Seq<char>>) -> nat {
    if h.contains_key("content-length"@) {
        match parse_u64_spec(h["content-length"@]) {
            Some(n) => if n <= usize::MAX {
                n as nat
            } else {
                0
            },
            None => 0,
        }
    } else {
        0
    }
}

pub fn content_length(headers: &StrMap<String>) -> (n: usize)
    ensures
        n == content_length_spec(headers@),
{
    let key = string_of("content-length");
    match headers.lookup(&key) {
        Some(v) => {
            let c = chars_of(v.as_str());
            match parse_u64(&c) {
                Some(n) => if n <= usize::MAX as u64 {
                    n as usize
                } else {
                    0
                },
                None => 0,
            }
        },
        None => 0,
    }
}

/// Custom header lines `name: value`, in order.
pub open spec fn header_text(custom: Seq<(String, String)>) -> Seq<char>
    decreases custom.len(),
{
    if custom.len() == 0 {
        Seq::empty()
    } else {
        header_text(custom.drop_last()) + custom.last().0@ + ": "@ + custom.last().1@ + "\r\n"@
    }
}

/// Whether one of the custom headers is named `name`, ignoring ASCII case.
pub open spec fn names_header(custom: Seq<(String, String)>, name: Seq<char>) -> bool {
    exists|i: int| 0 <= i < custom.len() && eq_ignore_ascii_case(#[trigger] custom[i].0@, name)
}

/// The text of a client request: the request line, `Host`, `User-Agent` and `Connection`
/// headers, the custom headers, and, when there is a body, a JSON content type and the body's
/// length in bytes unless the custom headers set them; then a blank line and the body.
pub open spec fn request_text(
    method: Seq<char>,
    host: Seq<char>,
    port: u16,
    path: Seq<char>,
    body: Seq<char>,
    body_bytes: nat,
    custom: Seq<(String, String)>,
) -> Seq<char> {
    let fixed = "Host: "@ + host + ":"@ + decimal(port as nat)
        + "\r\nUser-Agent: Aether/2.0\r\nConnection: close\r\n"@;
    let extra = if body.len() > 0 {
        (if names_header(custom, "content-type"@) {
            Seq::empty()
        } else {
            "Content-Type: application/json\r\n"@
        }) + (if names_header(custom, "content-length"@) {
            Seq::empty()
        } else {
            "Content-Length: "@ + decimal(body_bytes) + "\r\n"@
        })
    } else {
        Seq::empty()
    };
    method + " "@ + path + " HTTP/1.1\r\n"@ + fixed + header_text(custom) + extra + "\r\n"@ + body
}

/// Whether some header of `custom` is named `name`, ignoring ASCII case.
fn has_header(custom: &Vec<(String, String)>, name: &str) -> (r: bool)
    ensures
        r == names_header(custom@, name@),
{
    let mut i: usize = 0;
    while i < custom.len()
        invariant
            i <= custom@.len(),
            forall|j: int| 0 <= j < i ==> !eq_ignore_ascii_case(#[trigger] custom@[j].0@, name@),
        decreases custom@.len() - i,
    {
        if crate::sql::same_ignoring_ascii_case(custom[i].0.as_str(), name) {
            return true;
        }
        i = i + 1;
    }
    false
}

/// The text of a client request for `path` on `host:port`.
pub fn build_http_request(
    method: &str,
    host: &str,
    port: u16,
    path: &str,
    body: &str,
    custom: &Vec<(String, String)>,
) -> (r: String)
    ensures
        r@ == request_text(method@, host@, port, path@, body@, body.len() as nat, custom@),
{
    let mut out = string_of(method);
    push_str(&mut out, " ");
    push_str(&mut out, path);
    push_str(&mut out, " HTTP/1.1\r\n");
    push_str(&mut out, "Host: ");
    push_str(&mut out, host);
    push_str(&mut out, ":");
    push_decimal(&mut out, port as u64);
    push_str(&mut out, "\r\nUser-Agent: Aether/2.0\r\nConnection: close\r\n");
    let ghost before_custom = out@;
    let mut i: usize = 0;
    assert(custom@.take(0) =~= Seq::<(String, String)>::empty());
    assert(before_custom + header_text(custom@.take(0)) =~= before_custom);
    while i < custom.len()
        invariant
            i <= custom@.len(),
            out@ == before_custom + header_text(custom@.take(i as int)),
        decreases custom@.len() - i,
    {
        assert(custom@.take(i + 1).drop_last() =~= custom@.take(i as int));
        push_str(&mut out, custom[i].0.as_str());
        push_str(&mut out, ": ");
        push_str(&mut out, custom[i].1.as_str());
        push_str(&mut out, "\r\n");
        assert(out@ =~= before_custom + header_text(custom@.take(i + 1)));
        i = i + 1;
    }
    assert(custom@.take(custom@.len() as int) =~= custom@);
    let ghost before_extra = out@;
    if !body.is_empty() {
        if !has_header(custom, "content-type") {
            push_str(&mut out, "Content-Type: application/json\r\n");
        }
        if !has_header(custom, "content-length") {
            push_str(&mut out, "Content-Length: ");
            push_decimal(&mut out, body.len() as u64);
            push_str(&mut out, "\r\n");
        }
    }
    proof {
        let extra = if body@.len() > 0 {
            (if names_header(custom@, "content-type"@) {
                Seq::empty()
            } else {
                "Content-Type: application/json\r\n"@
            }) + (if names_header(custom@, "content-length"@) {
                Seq::empty()
            } else {
                "Content-Length: "@ + decimal(body.len() as nat) + "\r\n"@
            })
        } else {
            Seq::<char>::empty()
        };
        assert(out@ =~= before_extra + extra);
    }
    push_str(&mut out, "\r\n");
    push_str(&mut out, body);
    proof {
        let fixed = "Host: "@ + host@ + ":"@ + decimal(port as nat)
            + "\r\nUser-Agent: Aether/2.0\r\nConnection: close\r\n"@;
        assert(before_custom =~= method@ + " "@ + path@ + " HTTP/1.1\r\n"@ + fixed);
        assert(out@ =~= request_text(method@, host@, port, path@, body@, body.len() as nat, custom@));
    }
    out
}

/// Headers as a map value of strings, in the order of their entries.
pub open spec fn headers_value(h: Seq<(String, String)>) -> ValueView {
    ValueView::MapEntries(h.map_values(|e: (String, String)| (e.0@, ValueView::String(e.1@))))
}

fn headers_to_value(headers: &StrMap<String>) -> (v: Value)
    ensures
        v@ == headers_value(headers.entries@),
{
    let mut entries: Vec<(String, Value)> = Vec::new();
    let mut i: usize = 0;
    let ghost h = headers.entries@;
    while i < headers.entries.len()
        invariant
            i <= h.len(),
            h == headers.entries@,
            entry_models(entries@) == h.take(i as int).map_values(
                |e: (String, String)| (e.0@, ValueView::String(e.1@)),
            ),
        decreases h.len() - i,
    {
        let e = (headers.entries[i].0.clone(), Value::String(headers.entries[i].1.clone()));
        proof {
            lemma_entry_models_push(entries@, e);
        }
        entries.push(e);
        assert(h.take(i + 1).map_values(|e: (String, String)| (e.0@, ValueView::String(e.1@)))
            =~= h.take(i as int).map_values(|e: (String, String)| (e.0@, ValueView::String(e.1@))).push(
            (h[i as int].0@, ValueView::String(h[i as int].1@)),
        ));
        i = i + 1;
    }
    assert(h.take(h.len() as int) =~= h);
    Value::MapEntries(entries)
}

/// A server request as a map value: `id`, `method`, `path`, `query`, `headers`, `body`.
pub open spec fn request_value(
    id: u64,
    method: Seq<char>,
    path: Seq<char>,
    query: Seq<char>,
    headers: Seq<(String, String)>,
    body: Seq<char>,
) -> ValueView {
    ValueView::MapEntries(
        seq![
            ("id"@, ValueView::Int(id as i64)),
            ("method"@, ValueView::String(method)),
            ("path"@, ValueView::String(path)),
            ("query"@, ValueView::String(query)),
            ("headers"@, headers_value(headers)),
            ("body"@, ValueView::String(body)),
        ],
    )
}

pub fn http_request_value(
    id: u64,
    method: String,
    path: String,
    query: String,
    headers: &StrMap<String>,
    body: String,
) -> (v: Value)
    ensures
        v@ == request_value(id, method@, path@, query@, headers.entries@, body@),
{
    let mut entries: Vec<(String, Value)> = Vec::new();
    let ghost m = method@;
    let ghost p = path@;
    let ghost q = query@;
    let ghost b = body@;
    entries.push((string_of("id"), Value::Int(id as i64)));
    entries.push((string_of("method"), Value::String(method)));
    entries.push((string_of("path"), Value::String(path)));
    entries.push((string_of("query"), Value::String(query)));
    entries.push((string_of("headers"), headers_to_value(headers)));
    entries.push((string_of("body"), Value::String(body)));
    proof {
        crate::value::lemma_entry_models(entries@);
    }
    let v = Value::MapEntries(entries);
    assert(entry_models(v->MapEntries_0@) =~= seq![
        ("id"@, ValueView::Int(id as i64)),
        ("method"@, ValueView::String(m)),
        ("path"@, ValueView::String(p)),
        ("query"@, ValueView::String(q)),
        ("headers"@, headers_value(headers.entries@)),
        ("body"@, ValueView::String(b)),
    ]);
    v
}

/// The status a client response reports: the code of its status line, or 200 when the line
/// has none.
pub open spec fn response_status(status_line: Seq<char>) -> i64 {
    match status_code_spec(status_line) {
        Some(c) => c,
        None => 200,
    }
}

/// A client response as a map value: `status`, `ok` (a 2xx status), `body`, `headers`.
pub open spec fn response_value(status_line: Seq<char>, headers: Seq<(String, String)>, body: Seq<char>) -> ValueView {
    let st = response_status(status_line);
    ValueView::MapEntries(
        seq![
            ("status"@, ValueView::Int(st)),
            ("ok"@, ValueView::Bool(200 <= st && st < 300)),
            ("body"@, ValueView::String(body)),
            ("headers"@, headers_value(headers)),
        ],
    )
}

pub fn http_response_value(status_line: &str, headers: &StrMap<String>, body: String) -> (v: Value)
    ensures
        v@ == response_value(status_line@, headers.entries@, body@),
{
    let status = match parse_status_code(status_line) {
        Some(c) => c,
        None => 200,
    };
    let ghost b = body@;
    let mut entries: Vec<(String, Value)> = Vec::new();
    entries.push((string_of("status"), Value::Int(status)));
    entries.push((string_of("ok"), Value::Bool(200 <= status && status < 300)));
    entries.push((string_of("body"), Value::String(body)));
    entries.push((string_of("headers"), headers_to_value(headers)));
    proof {
        crate::value::lemma_entry_models(entries@);
    }
    let v = Value::MapEntries(entries);
    assert(entry_models(v->MapEntries_0@) =~= seq![
        ("status"@, ValueView::Int(status)),
        ("ok"@, ValueView::Bool(200 <= status && status < 300)),
        ("body"@, ValueView::String(b)),
        ("headers"@, headers_value(headers.entries@)),
    ]);
    v
}

/// The most bytes a message head may take.
pub const MAX_HEAD_BYTES: usize = 65536;

/// Whether the bytes read so far end with the blank line that closes a head.
pub open spec fn ends_head(b: Seq<u8>) -> bool {
    b.len() >= 4 && b[b.len() - 4] == 13u8 && b[b.len() - 3] == 10u8 && b[b.len() - 2] == 13u8
        && b[b.len() - 1] == 10u8
}

pub fn head_complete(buf: &Vec<u8>) -> (r: bool)
    ensures
        r == ends_head(buf@),
{
    let n = buf.len();
    n >= 4 && buf[n - 4] == 13 && buf[n - 3] == 10 && buf[n - 2] == 13 && buf[n - 1] == 10
}

} // verus!
