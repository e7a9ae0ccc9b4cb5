//! Parsing of an HTTP request from the bytes read off a connection.

use crate::headers::{content_length_key, content_length_name, crlf, entries_map, header_block, Headers};
use crate::text::{
    byte_len, byte_prefix, byte_prefix_len, chars_of, decimal, lemma_ascii_byte_prefix, lemma_decimal_parses, find_char, find_char_exec, find_char_from,
    is_boundary, is_space, joined_lines, lemma_byte_len_grows, lemma_find_char, lemma_find_crlf,
    lemma_joined_lines_concat, lemma_lines_of_joined, lemma_three_words, lines, lines_exec, no_cr,
    no_space, parse_unsigned, parse_unsigned_exec, skip_spaces, back_spaces, string_of, sub_chars,
    trim, trim_exec, words, words_exec,
};
use vstd::prelude::*;
use vstd::utf8::*;

verus! {

/// `bytes` read as UTF-8 text, with `std::str::from_utf8`.
///
/// Trusted: `from_utf8` succeeds exactly on valid UTF-8, and the text it
/// returns is the sequence of characters that the bytes encode.
#[verifier::external_body]
fn utf8_text(bytes: &[u8]) -> (r: Option<&str>)
    ensures
        r is Some <==> valid_utf8(bytes@),
        r matches Some(s) ==> s@ == decode_utf8(bytes@),
{
    std::str::from_utf8(bytes).ok()
}

/// The lines of a request: its text split at each `"\r\n"`.
pub open spec fn request_lines(buf: Seq<u8>) -> Seq<Seq<char>> {
    lines(decode_utf8(buf))
}

/// The index of the first empty line at or after `i`, or `ls.len()`.
pub open spec fn first_empty_line(ls: Seq<Seq<char>>, i: int) -> int
    decreases ls.len() - i,
{
    if i < 0 || i >= ls.len() {
        ls.len() as int
    } else if ls[i].len() == 0 {
        i
    } else {
        first_empty_line(ls, i + 1)
    }
}

/// The index of the line that ends the header block: the first empty line
/// after the request line, or the number of lines when there is none.
pub open spec fn header_end(ls: Seq<Seq<char>>) -> int {
    first_empty_line(ls, 1)
}

/// The header lines: those between the request line and `header_end`.
pub open spec fn header_lines(ls: Seq<Seq<char>>) -> Seq<Seq<char>> {
    ls.subrange(1, header_end(ls))
}

/// The field that a header line holds: its name is what precedes the first
/// `:`, its value what lies between that `:` and the next one (or the end),
/// trimmed of whitespace. `None` when the line has no `:`.
pub open spec fn header_field(line: Seq<char>) -> Option<(Seq<char>, Seq<char>)> {
    match find_char(line, ':') {
        None => None,
        Some(c) => {
            let rest = line.skip(c + 1);
            let v = match find_char(rest, ':') {
                None => rest,
                Some(d) => rest.take(d),
            };
            Some((line.take(c), trim(v)))
        },
    }
}

/// The fields of the given header lines, in order.
pub open spec fn header_fields(hs: Seq<Seq<char>>) -> Seq<(Seq<char>, Seq<char>)> {
    hs.map_values(|l: Seq<char>| header_field(l).unwrap())
}

/// The headers of a request, later fields replacing earlier ones of the same
/// name.
pub open spec fn request_headers(buf: Seq<u8>) -> Map<Seq<char>, Seq<char>> {
    entries_map(header_fields(header_lines(request_lines(buf))))
}

/// The body length that the headers announce: the value of `Content-Length`
/// read as a `usize`, or 0 when the field is absent or is no such number.
pub open spec fn content_length(h: Map<Seq<char>, Seq<char>>) -> nat {
    if h.contains_key(content_length_name()) {
        match parse_unsigned(h[content_length_name()], usize::MAX as nat) {
            Some(n) => n,
            None => 0,
        }
    } else {
        0
    }
}

/// Law: a `Content-Length` field whose value is the decimal representation
/// of a number that fits a `usize` announces a body of that many bytes.
pub proof fn lemma_content_length_decimal(h: Map<Seq<char>, Seq<char>>, n: nat)
    requires
        n <= usize::MAX,
        h.contains_key(content_length_name()),
        h[content_length_name()] == decimal(n),
    ensures
        content_length(h) == n,
{
    lemma_decimal_parses(n, usize::MAX as nat);
}

/// The line that follows the empty line that ends the headers, if any.
pub open spec fn body_line(ls: Seq<Seq<char>>) -> Option<Seq<char>> {
    if header_end(ls) + 1 < ls.len() {
        Some(ls[header_end(ls) + 1])
    } else {
        None
    }
}

/// True when `buf` is a request that `Parser::parse` accepts: valid UTF-8,
/// at least three words on the request line, a `:` on every header line,
/// and, when a line follows the headers, a body length that ends on a
/// character of that line.
pub open spec fn request_well_formed(buf: Seq<u8>) -> bool {
    let ls = request_lines(buf);
    &&& valid_utf8(buf)
    &&& words(ls[0]).len() >= 3
    &&& forall|i: int| 1 <= i < header_end(ls) ==> (#[trigger] header_field(ls[i])) is Some
    &&& body_line(ls) matches Some(line) ==> is_boundary(
        line,
        content_length(request_headers(buf)),
    )
}

/// The body of a request: the first `content_length` bytes of the line after
/// the headers, or nothing when there is no such line.
pub open spec fn request_body(buf: Seq<u8>) -> Seq<char> {
    match body_line(request_lines(buf)) {
        Some(line) => byte_prefix(line, content_length(request_headers(buf))),
        None => Seq::empty(),
    }
}

/// Law: when the headers announce `n` bytes in `Content-Length`, written in
/// decimal and fitting a `usize`, and the line after the headers is ASCII
/// and at least `n` long, the body is that line's first `n` characters.
pub proof fn lemma_body_cut_to_length(buf: Seq<u8>, n: nat)
    requires
        n <= usize::MAX,
        request_headers(buf).contains_key(content_length_name()),
        request_headers(buf)[content_length_name()] == decimal(n),
        body_line(request_lines(buf)) is Some,
        n <= body_line(request_lines(buf)).unwrap().len(),
        forall|i: int|
            0 <= i < body_line(request_lines(buf)).unwrap().len() ==> (#[trigger] body_line(
                request_lines(buf),
            ).unwrap()[i] as u32) < 128,
    ensures
        request_body(buf) == body_line(request_lines(buf)).unwrap().take(n as int),
{
    lemma_content_length_decimal(request_headers(buf), n);
    lemma_ascii_byte_prefix(body_line(request_lines(buf)).unwrap(), n);
}

pub struct Parser;

/// An HTTP request.
#[derive(Debug)]
pub struct Request {
    pub method: String,
    pub path: String,
    pub version: String,
    pub headers: Headers,
    pub path_params: Headers,
    pub body: String,
}

impl Request {
    /// True when this request's method, path, version, headers and body are
    /// those that `buf` holds.
    pub open spec fn read_from(&self, buf: Seq<u8>) -> bool {
        let ls = request_lines(buf);
        &&& self.method@ == words(ls[0])[0]
        &&& self.path@ == words(ls[0])[1]
        &&& self.version@ == words(ls[0])[2]
        &&& self.headers@ == request_headers(buf)
        &&& self.body@ == request_body(buf)
    }

    /// True when this request is what `Parser::parse` makes of `buf`: read
    /// from it, with no path parameters yet.
    pub open spec fn parsed_from(&self, buf: Seq<u8>) -> bool {
        &&& self.read_from(buf)
        &&& self.path_params@ == Map::<Seq<char>, Seq<char>>::empty()
    }
}

proof fn lemma_lines_nonempty(s: Seq<char>)
    ensures
        lines(s).len() >= 1,
{
    lemma_find_crlf(s, 0);
}

/// The field of a header line (see `header_field`).
fn header_field_exec(line: &[char]) -> (r: Option<(Vec<char>, Vec<char>)>)
    ensures
        r is Some <==> header_field(line@) is Some,
        r matches Some(p) ==> header_field(line@) == Some((p.0@, p.1@)),
{
    match find_char_exec(line, ':') {
        None => None,
        Some(c) => {
            let n = line.len();
            assert(c < n);
            let name = sub_chars(line, 0, c);
            let rest = sub_chars(line, c + 1, n);
            let v = match find_char_exec(&rest, ':') {
                None => rest,
                Some(d) => {
                    sub_chars(&rest, 0, d)
                },
            };
            let value = trim_exec(&v);
            assert(rest@ =~= line@.skip(c + 1));
            assert(name@ =~= line@.take(c as int));
            Some((name, value))
        },
    }
}

proof fn lemma_first_empty_line(ls: Seq<Seq<char>>, i: int)
    requires
        0 <= i <= ls.len(),
    ensures
        i <= first_empty_line(ls, i) <= ls.len(),
        forall|j: int| i <= j < first_empty_line(ls, i) ==> (#[trigger] ls[j]).len() > 0,
        first_empty_line(ls, i) < ls.len() ==> ls[first_empty_line(ls, i)].len() == 0,
    decreases ls.len() - i,
{
    if i < ls.len() && ls[i].len() > 0 {
        lemma_first_empty_line(ls, i + 1);
    }
}

/// Reads the header lines that follow the request line, up to the first
/// empty line; gives the headers and the index of that line, or `None` when
/// a header line has no `:`.
fn parse_headers(ls: &Vec<Vec<char>>, Ghost(lsv): Ghost<Seq<Seq<char>>>) -> (r: Option<(Headers, usize)>)
    requires
        ls@.map_values(|w: Vec<char>| w@) == lsv,
        lsv.len() >= 1,
    ensures
        r is Some <==> forall|i: int|
            1 <= i < header_end(lsv) ==> (#[trigger] header_field(lsv[i])) is Some,
        r matches Some(p) ==> p.1 == header_end(lsv) && p.0@ == entries_map(
            header_fields(header_lines(lsv)),
        ),
{
    let mut headers = Headers::new();
    let mut i: usize = 1;
    assert(header_fields(lsv.subrange(1, 1)) =~= Seq::<(Seq<char>, Seq<char>)>::empty());
    proof {
        lemma_first_empty_line(lsv, 1);
    }
    while i < ls.len() && ls[i].len() > 0
        invariant
            1 <= i <= ls@.len(),
            ls@.map_values(|w: Vec<char>| w@) == lsv,
            first_empty_line(lsv, 1) == first_empty_line(lsv, i as int),
            i <= first_empty_line(lsv, 1),
            forall|j: int| 1 <= j < i ==> (#[trigger] header_field(lsv[j])) is Some,
            headers@ == entries_map(header_fields(lsv.subrange(1, i as int))),
        decreases ls@.len() - i,
    {
        assert(ls@[i as int]@ == lsv[i as int]);
        proof {
            lemma_first_empty_line(lsv, i as int);
        }
        match header_field_exec(ls[i].as_slice()) {
            None => {
                return None;
            },
            Some(p) => {
                let ghost before = header_fields(lsv.subrange(1, i as int));
                let name = string_of(p.0.as_slice());
                let value = string_of(p.1.as_slice());
                headers.insert(name, value);
                let ghost after = header_fields(lsv.subrange(1, i + 1));
                assert(after.drop_last() =~= before);
                assert(after.last() == header_field(lsv[i as int]).unwrap());
            },
        }
        i = i + 1;
    }
    proof {
        lemma_first_empty_line(lsv, i as int);
        if i < ls@.len() {
            assert(ls@[i as int]@ == lsv[i as int]);
        }
    }
    Some((headers, i))
}

impl Parser {
    /// Parses a request, or gives `None` exactly when `buff` is not well
    /// formed (see `request_well_formed`).
    pub fn try_parse(buff: &[u8]) -> (r: Option<Request>)
        ensures
            r is Some <==> request_well_formed(buff@),
            r matches Some(req) ==> req.parsed_from(buff@),
    {
        let text = match utf8_text(buff) {
            Some(t) => t,
            None => {
                return None;
            },
        };
        let chars = chars_of(text);
        let ls = lines_exec(chars.as_slice());
        let ghost lsv = request_lines(buff@);
        assert(ls@.map_values(|w: Vec<char>| w@) == lsv);
        proof {
            lemma_lines_nonempty(decode_utf8(buff@));
        }
        assert(ls@[0]@ == lsv[0]);
        let ws = words_exec(ls[0].as_slice());
        assert(ws@.map_values(|w: Vec<char>| w@) == words(lsv[0]));
        assert(ws@.len() == words(lsv[0]).len());
        if ws.len() < 3 {
            return None;
        }
        assert(ws@[0]@ == words(lsv[0])[0]);
        assert(ws@[1]@ == words(lsv[0])[1]);
        assert(ws@[2]@ == words(lsv[0])[2]);
        let method = string_of(ws[0].as_slice());
        let path = string_of(ws[1].as_slice());
        let version = string_of(ws[2].as_slice());

        let (headers, i) = match parse_headers(&ls, Ghost(lsv)) {
            Some(p) => p,
            None => {
                return None;
            },
        };

        let mut body = String::new();
        if i < ls.len() && i + 1 < ls.len() {
            assert(body_line(lsv) == Some(lsv[i + 1]));
            let cl_name = content_length_key();
            let cl: usize = match headers.get(&cl_name) {
                None => 0,
                Some(v) => {
                    let vc = chars_of(v.as_str());
                    match parse_unsigned_exec(vc.as_slice(), usize::MAX as u64) {
                        Some(n) => n as usize,
                        None => 0,
                    }
                },
            };
            assert(cl == content_length(request_headers(buff@)));
            assert(ls@[i + 1]@ == lsv[i + 1]);
            match byte_prefix_len(ls[i + 1].as_slice(), cl) {
                None => {
                    return None;
                },
                Some(k) => {
                    let pre = sub_chars(ls[i + 1].as_slice(), 0, k);
                    assert(pre@ =~= lsv[i + 1].take(k as int));
                    body = string_of(pre.as_slice());
                },
            }
        } else {
            assert(body_line(lsv) is None);
        }
        let req = Request {
            method,
            path,
            version,
            headers,
            path_params: Headers::new(),
            body,
        };
        Some(req)
    }

    /// Parses a well-formed request.
    pub fn parse(buff: &[u8]) -> (r: Request)
        requires
            request_well_formed(buff@),
        ensures
            r.parsed_from(buff@),
    {
        match Self::try_parse(buff) {
            Some(r) => r,
            None => {
                proof {
                    assert(false);
                }
                Request {
                    method: String::new(),
                    path: String::new(),
                    version: String::new(),
                    headers: Headers::new(),
                    path_params: Headers::new(),
                    body: String::new(),
                }
            },
        }
    }
}


// ---------------------------------------------------------------------------
// Reading back a request

/// Text that a header name or value can hold: no `:` and no carriage return.
pub open spec fn field_text(s: Seq<char>) -> bool {
    no_cr(s) && forall|k: int| 0 <= k < s.len() ==> s[k] != ':'
}

/// A value without whitespace at either end.
pub open spec fn clean_value(v: Seq<char>) -> bool {
    v.len() == 0 || (!is_space(v[0]) && !is_space(v.last()))
}

/// The header line of a field: `name: value`.
pub open spec fn field_line(f: (Seq<char>, Seq<char>)) -> Seq<char> {
    f.0 + seq![':', ' '] + f.1
}

/// The text of a request: the request line `method path version`, a
/// header line for each field, an empty line, and the body.
pub open spec fn request_text(
    method: Seq<char>,
    path: Seq<char>,
    version: Seq<char>,
    fields: Seq<(Seq<char>, Seq<char>)>,
    body: Seq<char>,
) -> Seq<char> {
    method + seq![' '] + path + seq![' '] + version + crlf() + header_block(fields) + crlf() + body
}

proof fn lemma_header_block_lines(hs: Seq<(Seq<char>, Seq<char>)>)
    ensures
        header_block(hs) == joined_lines(hs.map_values(|f: (Seq<char>, Seq<char>)| field_line(f))),
    decreases hs.len(),
{
    if hs.len() > 0 {
        lemma_header_block_lines(hs.drop_last());
        let fl = hs.map_values(|f: (Seq<char>, Seq<char>)| field_line(f));
        assert(fl.drop_last() =~= hs.drop_last().map_values(
            |f: (Seq<char>, Seq<char>)| field_line(f),
        ));
        assert(fl.last() == field_line(hs.last()));
        assert(header_block(hs) =~= joined_lines(fl));
    }
}

proof fn lemma_header_field_line(n: Seq<char>, v: Seq<char>)
    requires
        field_text(n),
        field_text(v),
        clean_value(v),
    ensures
        header_field(field_line((n, v))) == Some((n, v)),
{
    let line = field_line((n, v));
    let c = n.len() as int;
    assert(line[c] == ':');
    lemma_find_char(line, ':', 0);
    if let Some(k) = find_char_from(line, ':', 0) {
        if k < c {
            assert(line[k] == n[k]);
        }
    }
    assert(find_char(line, ':') == Some(c));
    let rest = line.skip(c + 1);
    assert(rest =~= seq![' '] + v);
    lemma_find_char(rest, ':', 0);
    if let Some(d) = find_char_from(rest, ':', 0) {
        assert(rest[d] == v[d - 1]);
    }
    assert(find_char(rest, ':') is None);
    assert(is_space(rest[0]));
    if v.len() == 0 {
        assert(skip_spaces(rest, 1) == 1);
        assert(back_spaces(rest, 0) == 0);
        assert(trim(rest) =~= v);
    } else {
        assert(rest[1] == v[0]);
        assert(skip_spaces(rest, 1) == 1);
        assert(rest[rest.len() - 1] == v.last());
        assert(back_spaces(rest, rest.len() as int) == rest.len());
        assert(trim(rest) =~= v);
    }
    assert(line.take(c) =~= n);
}

/// Law: a request with a request line of three words, header lines
/// `name: value` (names and values without `:` or carriage returns, values
/// without surrounding whitespace), an empty line, and a body without
/// carriage returns whose UTF-8 length the headers announce, is well formed,
/// and parsing it gives back those words, the fields (later ones replacing
/// earlier ones of the same name) and the body.
pub proof fn lemma_request_round_trip(
    method: Seq<char>,
    path: Seq<char>,
    version: Seq<char>,
    fields: Seq<(Seq<char>, Seq<char>)>,
    body: Seq<char>,
)
    requires
        method.len() > 0 && path.len() > 0 && version.len() > 0,
        no_space(method) && no_space(path) && no_space(version),
        forall|i: int|
            0 <= i < fields.len() ==> field_text((#[trigger] fields[i]).0) && field_text(fields[i].1)
                && clean_value(fields[i].1),
        no_cr(body),
        content_length(entries_map(fields)) == byte_len(body),
    ensures
        request_well_formed(encode_utf8(request_text(method, path, version, fields, body))),
        words(request_lines(encode_utf8(request_text(method, path, version, fields, body)))[0])
            == seq![method, path, version],
        request_headers(encode_utf8(request_text(method, path, version, fields, body))) == entries_map(
            fields,
        ),
        request_body(encode_utf8(request_text(method, path, version, fields, body))) == body,
{
    let text = request_text(method, path, version, fields, body);
    let buf = encode_utf8(text);
    let rl = method + seq![' '] + path + seq![' '] + version;
    let fl = fields.map_values(|f: (Seq<char>, Seq<char>)| field_line(f));
    let empty = Seq::<char>::empty();
    let ls = seq![rl] + fl + seq![empty];
    let k = fields.len() as int;

    // The text is the lines `ls`, each ended by "\r\n", then the body.
    lemma_header_block_lines(fields);
    lemma_joined_lines_concat(seq![rl] + fl, seq![empty]);
    lemma_joined_lines_concat(seq![rl], fl);
    assert(joined_lines(Seq::<Seq<char>>::empty()) == Seq::<char>::empty());
    assert(seq![rl].drop_last() =~= Seq::<Seq<char>>::empty());
    assert(seq![rl].last() == rl);
    assert(joined_lines(seq![rl]) =~= rl + crlf());
    assert(seq![empty].drop_last() =~= Seq::<Seq<char>>::empty());
    assert(seq![empty].last() == empty);
    assert(joined_lines(seq![empty]) =~= crlf());
    assert(text =~= joined_lines(ls) + body);
    assert forall|j: int| 0 <= j < ls.len() implies no_cr(#[trigger] ls[j]) by {
        if j == 0 {
            assert forall|q: int| 0 <= q < rl.len() implies rl[q] != '\r' by {
                if q < method.len() {
                    assert(!is_space(method[q]));
                } else if q < method.len() + 1 + path.len() && q > method.len() {
                    assert(!is_space(path[q - method.len() - 1]));
                } else if q > method.len() + 1 + path.len() {
                    assert(!is_space(version[q - method.len() - path.len() - 2]));
                }
            }
        } else if j <= k {
            assert(ls[j] == field_line(fields[j - 1]));
            let f = fields[j - 1];
            assert(field_text(f.0) && field_text(f.1));
            assert forall|q: int| 0 <= q < ls[j].len() implies ls[j][q] != '\r' by {
                if q < f.0.len() {
                    assert(ls[j][q] == f.0[q]);
                } else if q >= f.0.len() + 2 {
                    assert(ls[j][q] == f.1[q - f.0.len() - 2]);
                }
            }
        } else {
            assert(ls[j] == empty);
        }
    }
    lemma_lines_of_joined(ls, body);
    vstd::utf8::encode_utf8_valid_utf8(text);
    vstd::utf8::encode_utf8_decode_utf8(text);
    let lsv = request_lines(buf);
    assert(lsv == ls.push(body));

    // The request line.
    assert(lsv[0] == rl);
    lemma_three_words(method, path, version);

    // The header block ends at the empty line after the fields.
    assert forall|j: int| 1 <= j < k + 1 implies (#[trigger] lsv[j]).len() > 0 by {
        assert(lsv[j] == field_line(fields[j - 1]));
    }
    assert(lsv[k + 1] == empty);
    lemma_first_empty_line(lsv, 1);
    assert(header_end(lsv) == k + 1);
    assert(header_lines(lsv) =~= fl);
    assert forall|i: int| 0 <= i < k implies header_field(#[trigger] fl[i]) == Some(fields[i]) by {
        lemma_header_field_line(fields[i].0, fields[i].1);
    }
    assert(header_fields(fl) =~= fields);
    assert forall|j: int| 1 <= j < header_end(lsv) implies (#[trigger] header_field(
        lsv[j],
    )) is Some by {
        assert(lsv[j] == fl[j - 1]);
    }

    // The body is the whole last line.
    assert(body_line(lsv) == Some(body));
    assert(body.take(body.len() as int) =~= body);
    assert(is_boundary(body, byte_len(body)));
    let c = choose|c: int| 0 <= c <= body.len() && byte_len(#[trigger] body.take(c)) == byte_len(body);
    if c < body.len() {
        lemma_byte_len_grows(body, c, body.len() as int);
    }
}
} // verus!
