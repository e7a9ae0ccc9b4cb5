//! Responses, routes, and the router that picks the route of a request.

use crate::encoding::{accepts_gzip, gzip_name, gzip_stream, Encoding};
use crate::headers::{
    accept_encoding_key, accept_encoding_name, asks_close, close_requested, close_token,
    close_value, connection_key, connection_name, content_encoding_key, content_encoding_name,
    content_length_key, content_length_name, content_type_key, content_type_name, crlf,
    entries_insert, entries_map, header_block, lemma_entries_insert, lemma_entries_map, names_distinct,
    Headers,
};
use crate::parser::Request;
use crate::text::{
    chars_eq, chars_of, decimal, push_char, push_decimal, split, split_exec, string_of, trim,
    trim_char, trim_char_exec,
};
use vstd::prelude::*;
use vstd::string::StringExecFns;
use vstd::utf8::encode_utf8;

verus! {

/// The reason phrase of a status code that responses support.
pub open spec fn status_message(status: int) -> Seq<char> {
    if status == 200 {
        seq!['O', 'K']
    } else if status == 201 {
        seq!['C', 'r', 'e', 'a', 't', 'e', 'd']
    } else {
        seq!['N', 'o', 't', ' ', 'F', 'o', 'u', 'n', 'd']
    }
}

/// The status codes that responses support.
pub open spec fn handled_status(status: int) -> bool {
    status == 200 || status == 201 || status == 404
}

/// `text/plain`, the media type that a text body gets by default.
pub open spec fn text_plain() -> Seq<char> {
    seq!['t', 'e', 'x', 't', '/', 'p', 'l', 'a', 'i', 'n']
}

/// The status line of a response: protocol, status code and reason phrase.
pub open spec fn status_line(v: ResponseView) -> Seq<char> {
    v.protocol + seq![' '] + decimal(v.status as nat) + seq![' '] + v.status_msg + crlf()
}

/// The bytes of a response: status line, header lines and an empty line,
/// then the body.
pub open spec fn response_bytes(v: ResponseView, body: Seq<u8>) -> Seq<u8> {
    encode_utf8(status_line(v) + header_block(v.headers) + crlf()) + body
}

/// The response's fields once its body `body`, with the encoding `enc` if
/// any, is sent: `Connection: close` when the request asks to close;
/// `Content-Encoding` names the encoding; a body that is not empty gets
/// `Content-Type: text/plain` unless a type is set, and `Content-Length`
/// with its length in bytes.
pub open spec fn sent_headers(
    es: Seq<(Seq<char>, Seq<char>)>,
    body: Seq<u8>,
    enc: Option<Seq<char>>,
    close: bool,
) -> Seq<(Seq<char>, Seq<char>)> {
    let h0 = if close {
        entries_insert(es, connection_name(), close_token())
    } else {
        es
    };
    let h1 = match enc {
        Some(name) => entries_insert(h0, content_encoding_name(), name),
        None => h0,
    };
    if body.len() == 0 {
        h1
    } else {
        let h2 = if entries_map(h1).contains_key(content_type_name()) {
            h1
        } else {
            entries_insert(h1, content_type_name(), text_plain())
        };
        entries_insert(h2, content_length_name(), decimal(body.len()))
    }
}

/// The body that a response sends: the encoded text when an encoding was
/// applied, else the UTF-8 bytes of its text.
pub open spec fn sent_body(v: ResponseView, encoded: Option<(Seq<u8>, Seq<char>)>) -> Seq<u8> {
    match encoded {
        Some(e) => e.0,
        None => encode_utf8(v.text),
    }
}

/// The response after sending, given the encoding applied to its text (see
/// `sent_body`).
pub open spec fn after_send(v: ResponseView, encoded: Option<(Seq<u8>, Seq<char>)>) -> ResponseView {
    ResponseView {
        headers: sent_headers(
            v.headers,
            sent_body(v, encoded),
            match encoded {
                Some(e) => Some(e.1),
                None => None,
            },
            close_requested(v.req_headers),
        ),
        ..v
    }
}

/// The bytes sent, given the encoding applied to the text.
pub open spec fn sent_bytes(v: ResponseView, encoded: Option<(Seq<u8>, Seq<char>)>) -> Seq<u8> {
    response_bytes(after_send(v, encoded), sent_body(v, encoded))
}

/// True when the request asks for gzip: its `Accept-Encoding` lists it.
pub open spec fn gzip_requested(v: ResponseView) -> bool {
    v.req_headers.contains_key(accept_encoding_name()) && accepts_gzip(
        v.req_headers[accept_encoding_name()],
    )
}

/// The encoding that sending applies to the text: the gzip stream of the
/// text when the request asks for gzip and the encoder gives a stream, and
/// none otherwise.
pub open spec fn send_encoding(v: ResponseView) -> Option<(Seq<u8>, Seq<char>)> {
    if gzip_requested(v) && gzip_stream(encode_utf8(v.text)) is Some {
        Some((gzip_stream(encode_utf8(v.text)).unwrap(), gzip_name()))
    } else {
        None
    }
}

/// True when sending the response `v` gives `bytes` and leaves the response
/// as `after` (see `send_encoding`, `after_send` and `sent_bytes`).
pub open spec fn sends(v: ResponseView, bytes: Seq<u8>, after: ResponseView) -> bool {
    &&& after == after_send(v, send_encoding(v))
    &&& bytes == sent_bytes(v, send_encoding(v))
}

/// Law: the fields of a sent response keep distinct names; the answer to a
/// request that asks to close says `Connection: close`; a response with a
/// body announces its length in bytes in `Content-Length` and has a
/// `Content-Type`; an encoded body is announced in `Content-Encoding`; and
/// the bytes sent are the status line, the header lines and an empty line,
/// followed by the body.
pub proof fn lemma_sent_response(v: ResponseView, e: Option<(Seq<u8>, Seq<char>)>)
    requires
        names_distinct(v.headers),
    ensures
        names_distinct(after_send(v, e).headers),
        close_requested(v.req_headers) ==> entries_map(after_send(v, e).headers).contains_key(
            connection_name(),
        ) && entries_map(after_send(v, e).headers)[connection_name()] == close_token(),
        sent_body(v, e).len() > 0 ==> entries_map(after_send(v, e).headers).contains_key(
            content_length_name(),
        ) && entries_map(after_send(v, e).headers)[content_length_name()] == decimal(
            sent_body(v, e).len(),
        ),
        sent_body(v, e).len() > 0 ==> entries_map(after_send(v, e).headers).contains_key(
            content_type_name(),
        ),
        e matches Some(x) ==> entries_map(after_send(v, e).headers).contains_key(
            content_encoding_name(),
        ) && entries_map(after_send(v, e).headers)[content_encoding_name()] == x.1,
        sent_bytes(v, e) == encode_utf8(
            status_line(v) + header_block(after_send(v, e).headers) + crlf(),
        ) + sent_body(v, e),
{
    let body = sent_body(v, e);
    let h0 = if close_requested(v.req_headers) {
        entries_insert(v.headers, connection_name(), close_token())
    } else {
        v.headers
    };
    if close_requested(v.req_headers) {
        lemma_entries_insert(v.headers, connection_name(), close_token());
    }
    let h1 = match e {
        Some(x) => entries_insert(h0, content_encoding_name(), x.1),
        None => h0,
    };
    if let Some(x) = e {
        lemma_entries_insert(h0, content_encoding_name(), x.1);
    }
    assert(content_length_name() != content_encoding_name());
    assert(content_type_name() != content_encoding_name());
    assert(connection_name() != content_encoding_name());
    assert(connection_name() != content_type_name());
    assert(connection_name() != content_length_name());
    if body.len() > 0 {
        let h2 = if entries_map(h1).contains_key(content_type_name()) {
            h1
        } else {
            entries_insert(h1, content_type_name(), text_plain())
        };
        if !entries_map(h1).contains_key(content_type_name()) {
            lemma_entries_insert(h1, content_type_name(), text_plain());
        }
        lemma_entries_insert(h2, content_length_name(), decimal(body.len()));
    }
}

/// Law: a response to a request that does not ask for gzip (it has no
/// `Accept-Encoding` field, or no comma-separated item of its value, trimmed,
/// is `gzip`) is sent as is: no encoding is applied, the bytes sent end with
/// the UTF-8 bytes of the text, and, unless the response set one itself, no
/// `Content-Encoding` field is sent.
pub proof fn lemma_no_gzip_sent_as_is(v: ResponseView)
    requires
        names_distinct(v.headers),
        !v.req_headers.contains_key(accept_encoding_name()) || forall|i: int|
            0 <= i < split(v.req_headers[accept_encoding_name()], ',').len() ==> trim(
                #[trigger] split(v.req_headers[accept_encoding_name()], ',')[i],
            ) != seq!['g', 'z', 'i', 'p'],
    ensures
        send_encoding(v) is None,
        sent_bytes(v, send_encoding(v)).len() >= encode_utf8(v.text).len(),
        sent_bytes(v, send_encoding(v)).subrange(
            sent_bytes(v, send_encoding(v)).len() - encode_utf8(v.text).len(),
            sent_bytes(v, send_encoding(v)).len() as int,
        ) == encode_utf8(v.text),
        !entries_map(v.headers).contains_key(content_encoding_name()) ==> !entries_map(
            after_send(v, send_encoding(v)).headers,
        ).contains_key(content_encoding_name()),
{
    assert(!gzip_requested(v));
    let e = send_encoding(v);
    assert(e is None);
    let body = encode_utf8(v.text);
    let head = encode_utf8(status_line(after_send(v, e)) + header_block(after_send(v, e).headers) + crlf());
    let bytes = sent_bytes(v, e);
    assert(bytes == head + body);
    assert(bytes.subrange(bytes.len() - body.len(), bytes.len() as int) =~= body);
    let h0 = if close_requested(v.req_headers) {
        entries_insert(v.headers, connection_name(), close_token())
    } else {
        v.headers
    };
    if close_requested(v.req_headers) {
        lemma_entries_insert(v.headers, connection_name(), close_token());
    }
    assert(connection_name() != content_encoding_name());
    assert(content_type_name() != content_encoding_name());
    assert(content_length_name() != content_encoding_name());
    if body.len() > 0 {
        let h2 = if entries_map(h0).contains_key(content_type_name()) {
            h0
        } else {
            entries_insert(h0, content_type_name(), text_plain())
        };
        if !entries_map(h0).contains_key(content_type_name()) {
            lemma_entries_insert(h0, content_type_name(), text_plain());
        }
        lemma_entries_insert(h2, content_length_name(), decimal(body.len()));
    }
}

/// Law: a response to a request whose `Accept-Encoding` value has an item
/// that, trimmed, is `gzip` is sent gzip-encoded whenever the encoder gives
/// a stream for its text: that stream is the body, the bytes sent end with
/// it, and the field `Content-Encoding: gzip` is sent.
pub proof fn lemma_gzip_sent(v: ResponseView, i: int)
    requires
        names_distinct(v.headers),
        v.req_headers.contains_key(accept_encoding_name()),
        0 <= i < split(v.req_headers[accept_encoding_name()], ',').len(),
        trim(split(v.req_headers[accept_encoding_name()], ',')[i]) == seq!['g', 'z', 'i', 'p'],
        gzip_stream(encode_utf8(v.text)) is Some,
    ensures
        send_encoding(v) == Some(
            (gzip_stream(encode_utf8(v.text)).unwrap(), seq!['g', 'z', 'i', 'p']),
        ),
        sent_bytes(v, send_encoding(v)).len() >= gzip_stream(encode_utf8(v.text)).unwrap().len(),
        sent_bytes(v, send_encoding(v)).subrange(
            sent_bytes(v, send_encoding(v)).len() - gzip_stream(encode_utf8(v.text)).unwrap().len(),
            sent_bytes(v, send_encoding(v)).len() as int,
        ) == gzip_stream(encode_utf8(v.text)).unwrap(),
        entries_map(after_send(v, send_encoding(v)).headers).contains_key(content_encoding_name()),
        entries_map(after_send(v, send_encoding(v)).headers)[content_encoding_name()] == seq![
            'g',
            'z',
            'i',
            'p',
        ],
{
    let ae = v.req_headers[accept_encoding_name()];
    assert(trim(split(ae, ',')[i]) == gzip_name());
    assert(accepts_gzip(ae));
    let e = send_encoding(v);
    let body = gzip_stream(encode_utf8(v.text)).unwrap();
    assert(e == Some((body, gzip_name())));
    lemma_sent_response(v, e);
    let bytes = sent_bytes(v, e);
    assert(bytes.subrange(bytes.len() - body.len(), bytes.len() as int) =~= body);
}

/// The view of an applied encoding: the encoded bytes and the encoding's
/// name.
pub open spec fn encoding_view(encoded: Option<(Vec<u8>, &str)>) -> Option<(Seq<u8>, Seq<char>)> {
    match encoded {
        Some(p) => Some((p.0@, p.1@)),
        None => None,
    }
}

/// What a response holds, before it is sent.
pub struct ResponseView {
    pub status: int,
    pub status_msg: Seq<char>,
    pub text: Seq<char>,
    pub protocol: Seq<char>,
    /// The response's own header fields, in order.
    pub headers: Seq<(Seq<char>, Seq<char>)>,
    /// The headers of the request that it answers.
    pub req_headers: Map<Seq<char>, Seq<char>>,
}

/// An HTTP response under construction.
pub struct Response {
    status: i32,
    text: String,
    protocol: String,
    headers: Headers,
    req_headers: Headers,
}

impl View for Response {
    type V = ResponseView;

    closed spec fn view(&self) -> ResponseView {
        ResponseView {
            status: self.status as int,
            status_msg: status_message(self.status as int),
            text: self.text@,
            protocol: self.protocol@,
            headers: self.headers.entries(),
            req_headers: self.req_headers@,
        }
    }
}

fn status_message_exec(status: i32) -> (s: String)
    requires
        handled_status(status as int),
    ensures
        s@ == status_message(status as int),
{
    if status == 200 {
        let s = String::from_str("OK");
        proof {
            reveal_strlit("OK");
        }
        assert(s@ =~= status_message(status as int));
        s
    } else if status == 201 {
        let s = String::from_str("Created");
        proof {
            reveal_strlit("Created");
        }
        assert(s@ =~= status_message(status as int));
        s
    } else {
        let s = String::from_str("Not Found");
        proof {
            reveal_strlit("Not Found");
        }
        assert(s@ =~= status_message(status as int));
        s
    }
}

impl Response {
    #[verifier::type_invariant]
    spec fn well_formed(self) -> bool {
        &&& handled_status(self.status as int)
        &&& names_distinct(self.headers.entries())
    }

    /// A `200 OK` response without text or headers, answering a request of
    /// the given protocol and headers.
    pub fn new(protocol: String, req_headers: Headers) -> (r: Response)
        ensures
            r@ == (ResponseView {
                status: 200,
                status_msg: status_message(200),
                text: Seq::empty(),
                protocol: protocol@,
                headers: Seq::empty(),
                req_headers: req_headers@,
            }),
            names_distinct(r@.headers),
    {
        Response {
            status: 200,
            text: String::new(),
            protocol,
            headers: Headers::new(),
            req_headers,
        }
    }

    /// Sets the text of the response.
    pub fn text(&mut self, text: String) -> (r: &mut Self)
        ensures
            (*r)@ == (ResponseView { text: text@, ..old(self)@ }),
            names_distinct((*r)@.headers),
            *final(self) == *final(r),
    {
        proof {
            use_type_invariant(&*self);
        }
        self.text = text;
        self
    }

    /// Sets the status code (one of 200, 201 and 404).
    pub fn status(&mut self, status: i32) -> (r: &mut Self)
        requires
            handled_status(status as int),
        ensures
            (*r)@ == (ResponseView {
                status: status as int,
                status_msg: status_message(status as int),
                ..old(self)@
            }),
            names_distinct((*r)@.headers),
            *final(self) == *final(r),
    {
        proof {
            use_type_invariant(&*self);
        }
        self.status = status;
        self
    }

    /// Sets a header field of the response.
    pub fn set_header(&mut self, name: String, value: String) -> (r: &mut Self)
        ensures
            (*r)@ == (ResponseView {
                headers: entries_insert(old(self)@.headers, name@, value@),
                ..old(self)@
            }),
            names_distinct((*r)@.headers),
            entries_map((*r)@.headers) == entries_map(old(self)@.headers).insert(name@, value@),
            *final(self) == *final(r),
    {
        proof {
            use_type_invariant(&*self);
        }
        let mut headers = Headers::new();
        std::mem::swap(&mut headers, &mut self.headers);
        headers.insert(name, value);
        self.headers = headers;
        self
    }

    /// Renders the response for sending, with `encoded` as the encoded
    /// text when an encoding was applied: updates its header fields (see
    /// `sent_headers`) and gives the bytes to write.
    pub fn send_encoded(&mut self, encoded: Option<(Vec<u8>, &str)>) -> (r: Vec<u8>)
        ensures
            final(self)@ == after_send(old(self)@, encoding_view(encoded)),
            r@ == sent_bytes(old(self)@, encoding_view(encoded)),
            names_distinct(final(self)@.headers),
    {
        proof {
            use_type_invariant(&*self);
        }
        let ghost v = self@;
        let ghost e = encoding_view(encoded);
        let mut headers = Headers::new();
        std::mem::swap(&mut headers, &mut self.headers);
        if asks_close(&self.req_headers) {
            headers.insert(connection_key(), close_value());
        }
        let body: Vec<u8> = match encoded {
            Some((b, name)) => {
                headers.insert(content_encoding_key(), String::from_str(name));
                b
            },
            None => vstd::slice::slice_to_vec(self.text.as_str().as_bytes()),
        };
        assert(body@ == sent_body(v, e));
        if body.len() > 0 {
            let ct = content_type_key();
            if headers.get(&ct).is_none() {
                let tp = String::from_str("text/plain");
                proof {
                    reveal_strlit("text/plain");
                }
                assert(tp@ =~= text_plain());
                headers.insert(ct, tp);
            }
            let mut len_text = String::new();
            push_decimal(&mut len_text, body.len() as u64);
            assert(len_text@ =~= decimal(body@.len()));
            headers.insert(content_length_key(), len_text);
        }
        self.headers = headers;
        assert(self@ == after_send(v, e));
        let mut block = String::new();
        let mut i: usize = 0;
        while i < self.headers.len()
            invariant
                i <= self@.headers.len(),
                block@ == header_block(self@.headers.take(i as int)),
            decreases self@.headers.len() - i,
        {
            let (name, value) = self.headers.entry(i);
            block.append(name.as_str());
            block.append(": ");
            block.append(value.as_str());
            block.append("\r\n");
            proof {
                reveal_strlit(": ");
                reveal_strlit("\r\n");
                let t = self@.headers.take(i + 1);
                assert(t.drop_last() =~= self@.headers.take(i as int));
            }
            assert(block@ =~= header_block(self@.headers.take(i + 1)));
            i = i + 1;
        }
        assert(self@.headers.take(i as int) =~= self@.headers);
        self.build_response(&block, body)
    }

    /// The bytes of the response: status line, `headers_resp` and an empty
    /// line, then `text`.
    fn build_response(&self, headers_resp: &String, text: Vec<u8>) -> (r: Vec<u8>)
        ensures
            r@ == encode_utf8(status_line(self@) + headers_resp@ + crlf()) + text@,
    {
        proof {
            use_type_invariant(self);
        }
        let mut head = String::new();
        head.append(self.protocol.as_str());
        push_char(&mut head, ' ');
        push_decimal(&mut head, self.status as u64);
        push_char(&mut head, ' ');
        let msg = status_message_exec(self.status);
        head.append(msg.as_str());
        head.append("\r\n");
        head.append(headers_resp.as_str());
        head.append("\r\n");
        proof {
            reveal_strlit("\r\n");
        }
        assert(head@ =~= status_line(self@) + headers_resp@ + crlf());
        let mut response = vstd::slice::slice_to_vec(head.as_str().as_bytes());
        let mut text = text;
        response.append(&mut text);
        response
    }

    /// Renders the response for sending: encodes its text with gzip when
    /// the request asks for it (and the encoder succeeds), updates its header
    /// fields, and gives the bytes to write.
    pub fn send(&mut self) -> (r: Vec<u8>)
        ensures
            sends(old(self)@, r@, final(self)@),
            names_distinct(final(self)@.headers),
    {
        let ghost v = self@;
        let text = vstd::slice::slice_to_vec(self.text.as_str().as_bytes());
        let ae = accept_encoding_key();
        let encoded: Option<(Vec<u8>, &str)> = match self.req_headers.get(&ae) {
            Some(val) => match Encoding::select_encoding(val.as_str()) {
                Some(name) => match Encoding::encode(name, text) {
                    Ok(p) => Some(p),
                    Err(_) => None,
                },
                None => None,
            },
            None => None,
        };
        let ghost e = encoding_view(encoded);
        assert(e == send_encoding(v));
        self.send_encoded(encoded)
    }
}


// ---------------------------------------------------------------------------
// Routes

/// The segments of a path: its pieces between `/`, leading and trailing `/`
/// removed first.
pub open spec fn segments(s: Seq<char>) -> Seq<Seq<char>> {
    split(trim_char(s, '/'), '/')
}

/// A template segment of the form `{name}` stands for any one segment.
pub open spec fn is_param_segment(t: Seq<char>) -> bool {
    t.len() > 0 && t[0] == '{' && t.last() == '}'
}

/// The name of a `{name}` segment.
pub open spec fn param_name(t: Seq<char>) -> Seq<char> {
    t.subrange(1, t.len() - 1)
}

/// True when a path with segments `ps` fits a template with segments `ts`:
/// as many segments, and equal segments where the template has no `{name}`.
pub open spec fn segments_match(ts: Seq<Seq<char>>, ps: Seq<Seq<char>>) -> bool {
    &&& ts.len() == ps.len()
    &&& forall|i: int| 0 <= i < ts.len() && !is_param_segment(#[trigger] ts[i]) ==> ts[i] == ps[i]
}

/// The (name, segment) pairs that the `{name}` segments of the template bind,
/// in order.
pub open spec fn param_entries(ts: Seq<Seq<char>>, ps: Seq<Seq<char>>) -> Seq<(Seq<char>, Seq<char>)>
    decreases ts.len(),
{
    if ts.len() == 0 || ps.len() == 0 {
        Seq::empty()
    } else {
        let rest = param_entries(ts.drop_last(), ps.drop_last());
        if is_param_segment(ts.last()) {
            rest.push((param_name(ts.last()), ps.last()))
        } else {
            rest
        }
    }
}

/// The parameters that `path` binds in `template`, or `None` when it does
/// not fit the template.
pub open spec fn path_params(template: Seq<char>, path: Seq<char>) -> Option<Map<Seq<char>, Seq<char>>> {
    if segments_match(segments(template), segments(path)) {
        Some(entries_map(param_entries(segments(template), segments(path))))
    } else {
        None
    }
}

proof fn lemma_no_param_entries(ts: Seq<Seq<char>>, ps: Seq<Seq<char>>)
    requires
        forall|i: int| 0 <= i < ts.len() ==> !is_param_segment(#[trigger] ts[i]),
    ensures
        param_entries(ts, ps) == Seq::<(Seq<char>, Seq<char>)>::empty(),
    decreases ts.len(),
{
    if ts.len() > 0 && ps.len() > 0 {
        let t = ts.drop_last();
        assert forall|i: int| 0 <= i < t.len() implies !is_param_segment(#[trigger] t[i]) by {
            assert(t[i] == ts[i]);
        }
        lemma_no_param_entries(t, ps.drop_last());
        assert(!is_param_segment(ts[ts.len() - 1]));
    }
}

/// Law: a template without `{name}` segments is fitted by exactly the paths
/// with the same segments, and binds no parameter.
pub proof fn lemma_literal_template(template: Seq<char>, path: Seq<char>)
    requires
        forall|i: int|
            0 <= i < segments(template).len() ==> !is_param_segment(#[trigger] segments(template)[i]),
    ensures
        path_params(template, path) is Some <==> segments(template) == segments(path),
        path_params(template, path) matches Some(m) ==> m == Map::<Seq<char>, Seq<char>>::empty(),
{
    let ts = segments(template);
    let ps = segments(path);
    lemma_no_param_entries(ts, ps);
    if segments_match(ts, ps) {
        assert(ts =~= ps);
    }
    if ts == ps {
        assert(segments_match(ts, ps));
    }
    assert(entries_map(Seq::<(Seq<char>, Seq<char>)>::empty()) =~= Map::<Seq<char>, Seq<char>>::empty());
}

/// Law: a path fits a template only when both have as many segments.
pub proof fn lemma_fit_needs_same_length(template: Seq<char>, path: Seq<char>)
    ensures
        path_params(template, path) is Some ==> segments(template).len() == segments(path).len(),
{
}

/// No two `{name}` segments of `ts` share a name.
pub open spec fn param_names_distinct(ts: Seq<Seq<char>>) -> bool {
    forall|i: int, j: int|
        0 <= i < j < ts.len() && is_param_segment(#[trigger] ts[i]) && is_param_segment(
            #[trigger] ts[j],
        ) ==> param_name(ts[i]) != param_name(ts[j])
}

/// True when the pair `e` is a `{name}` segment of `ts` with the segment of
/// `ps` at the same place.
spec fn bound_by(ts: Seq<Seq<char>>, ps: Seq<Seq<char>>, e: (Seq<char>, Seq<char>)) -> bool {
    exists|i: int| 0 <= i < ts.len() && is_param_segment(#[trigger] ts[i]) && e == (param_name(ts[i]), ps[i])
}

proof fn lemma_param_entries_step(ts: Seq<Seq<char>>, ps: Seq<Seq<char>>)
    requires
        ts.len() == ps.len(),
        ts.len() > 0,
    ensures
        param_entries(ts, ps) == (if is_param_segment(ts.last()) {
            param_entries(ts.drop_last(), ps.drop_last()).push((param_name(ts.last()), ps.last()))
        } else {
            param_entries(ts.drop_last(), ps.drop_last())
        }),
{
}

proof fn lemma_param_entries_from(ts: Seq<Seq<char>>, ps: Seq<Seq<char>>)
    requires
        ts.len() == ps.len(),
    ensures
        forall|j: int|
            0 <= j < param_entries(ts, ps).len() ==> bound_by(ts, ps, #[trigger] param_entries(ts, ps)[j]),
    decreases ts.len(),
{
    if ts.len() > 0 {
        let t = ts.drop_last();
        let p = ps.drop_last();
        let n = ts.len() - 1;
        lemma_param_entries_from(t, p);
        lemma_param_entries_step(ts, ps);
        let rest = param_entries(t, p);
        let pe = param_entries(ts, ps);
        assert forall|j: int| 0 <= j < pe.len() implies bound_by(ts, ps, #[trigger] pe[j]) by {
            if j < rest.len() {
                assert(pe[j] == rest[j]);
                assert(bound_by(t, p, rest[j]));
                let i = choose|i: int|
                    0 <= i < t.len() && is_param_segment(#[trigger] t[i]) && rest[j] == (
                        param_name(t[i]),
                        p[i],
                    );
                assert(ts[i] == t[i] && ps[i] == p[i]);
                assert(is_param_segment(ts[i]) && pe[j] == (param_name(ts[i]), ps[i]));
            } else {
                assert(is_param_segment(ts[n]));
                assert(pe[j] == (param_name(ts[n]), ps[n]));
            }
        }
    } else {
        assert(param_entries(ts, ps).len() == 0);
    }
}

proof fn lemma_param_entries_cover(ts: Seq<Seq<char>>, ps: Seq<Seq<char>>)
    requires
        ts.len() == ps.len(),
    ensures
        forall|i: int|
            0 <= i < ts.len() && is_param_segment(#[trigger] ts[i]) ==> exists|j: int|
                0 <= j < param_entries(ts, ps).len() && #[trigger] param_entries(ts, ps)[j] == (
                    param_name(ts[i]),
                    ps[i],
                ),
    decreases ts.len(),
{
    if ts.len() > 0 {
        let t = ts.drop_last();
        let p = ps.drop_last();
        let n = ts.len() - 1;
        lemma_param_entries_cover(t, p);
        lemma_param_entries_step(ts, ps);
        let rest = param_entries(t, p);
        let pe = param_entries(ts, ps);
        assert forall|i: int| 0 <= i < ts.len() && is_param_segment(#[trigger] ts[i]) implies exists|j: int|
            0 <= j < pe.len() && #[trigger] pe[j] == (param_name(ts[i]), ps[i]) by {
            if i < n {
                assert(t[i] == ts[i] && p[i] == ps[i]);
                assert(is_param_segment(t[i]));
                let j = choose|j: int|
                    0 <= j < rest.len() && #[trigger] rest[j] == (param_name(t[i]), p[i]);
                assert(pe[j] == rest[j]);
            } else {
                assert(pe[rest.len() as int] == (param_name(ts[n]), ps[n]));
            }
        }
    }
}

proof fn lemma_param_entries_distinct(ts: Seq<Seq<char>>, ps: Seq<Seq<char>>)
    requires
        ts.len() == ps.len(),
        param_names_distinct(ts),
    ensures
        names_distinct(param_entries(ts, ps)),
    decreases ts.len(),
{
    if ts.len() > 0 {
        let t = ts.drop_last();
        let p = ps.drop_last();
        let n = ts.len() - 1;
        assert(param_names_distinct(t)) by {
            assert forall|a: int, b: int|
                0 <= a < b < t.len() && is_param_segment(#[trigger] t[a]) && is_param_segment(
                    #[trigger] t[b],
                ) implies param_name(t[a]) != param_name(t[b]) by {
                assert(ts[a] == t[a] && ts[b] == t[b]);
            }
        }
        lemma_param_entries_distinct(t, p);
        lemma_param_entries_from(t, p);
        lemma_param_entries_step(ts, ps);
        let rest = param_entries(t, p);
        let pe = param_entries(ts, ps);
        if is_param_segment(ts[n]) {
            assert forall|a: int, b: int| 0 <= a < b < pe.len() implies #[trigger] pe[a].0
                != #[trigger] pe[b].0 by {
                assert(pe[a] == rest[a]);
                if b < rest.len() {
                    assert(pe[b] == rest[b]);
                } else {
                    assert(bound_by(t, p, rest[a]));
                    let i = choose|i: int|
                        0 <= i < t.len() && is_param_segment(#[trigger] t[i]) && rest[a] == (
                            param_name(t[i]),
                            p[i],
                        );
                    assert(ts[i] == t[i]);
                    assert(pe[b] == (param_name(ts[n]), ps[n]));
                }
            }
        }
    }
}

/// Law: when a path fits a template, each literal segment of the template
/// equals the path's segment at the same place; the parameters bound are
/// exactly the names of the template's `{name}` segments; and, when those
/// names are distinct, each one is bound to the path's segment at its place.
pub proof fn lemma_path_params_bind(template: Seq<char>, path: Seq<char>)
    ensures
        path_params(template, path) matches Some(m) ==> {
            let ts = segments(template);
            let ps = segments(path);
            &&& forall|i: int|
                0 <= i < ts.len() && !is_param_segment(#[trigger] ts[i]) ==> ts[i] == ps[i]
            &&& forall|k: Seq<char>|
                m.contains_key(k) <==> exists|i: int|
                    0 <= i < ts.len() && is_param_segment(#[trigger] ts[i]) && param_name(ts[i])
                        == k
            &&& param_names_distinct(ts) ==> forall|i: int|
                0 <= i < ts.len() && is_param_segment(#[trigger] ts[i]) ==> m[param_name(ts[i])]
                    == ps[i]
        },
{
    let ts = segments(template);
    let ps = segments(path);
    if let Some(m) = path_params(template, path) {
        lemma_param_entries_from(ts, ps);
        lemma_param_entries_cover(ts, ps);
        let pe = param_entries(ts, ps);
        assert(m == entries_map(pe));
        assert forall|k: Seq<char>| m.contains_key(k) <==> exists|i: int|
            0 <= i < ts.len() && is_param_segment(#[trigger] ts[i]) && param_name(ts[i]) == k by {
            lemma_entries_map(pe, k);
            if m.contains_key(k) {
                let j = choose|j: int| 0 <= j < pe.len() && #[trigger] pe[j].0 == k;
                assert(bound_by(ts, ps, pe[j]));
                let i = choose|i: int|
                    0 <= i < ts.len() && is_param_segment(#[trigger] ts[i]) && pe[j] == (
                        param_name(ts[i]),
                        ps[i],
                    );
                assert(param_name(ts[i]) == k);
            }
            if exists|i: int|
                0 <= i < ts.len() && is_param_segment(#[trigger] ts[i]) && param_name(ts[i]) == k {
                let i = choose|i: int|
                    0 <= i < ts.len() && is_param_segment(#[trigger] ts[i]) && param_name(ts[i]) == k;
                let j = choose|j: int| 0 <= j < pe.len() && pe[j] == (param_name(ts[i]), ps[i]);
                assert(pe[j].0 == k);
            }
        }
        if param_names_distinct(ts) {
            lemma_param_entries_distinct(ts, ps);
            assert forall|i: int| 0 <= i < ts.len() && is_param_segment(#[trigger] ts[i]) implies m[param_name(
                ts[i],
            )] == ps[i] by {
                let j = choose|j: int| 0 <= j < pe.len() && pe[j] == (param_name(ts[i]), ps[i]);
                lemma_entries_map(pe, param_name(ts[i]));
                assert(pe[j].0 == param_name(ts[i]));
            }
        }
    }
}

/// A route: requests with this method whose path fits this template.
pub struct Route {
    pub method: String,
    pub path: String,
}

impl Clone for Route {
    fn clone(&self) -> (r: Self)
        ensures
            r.method == self.method,
            r.path == self.path,
    {
        Route { method: self.method.clone(), path: self.path.clone() }
    }
}

/// What the handlers of a router share.
pub struct Context {
    pub directory_path: String,
}

/// The first route, at index `i` or later, whose method is `method` and whose
/// template `path` fits.
pub open spec fn first_route_from(
    routes: Seq<(Seq<char>, Seq<char>)>,
    method: Seq<char>,
    path: Seq<char>,
    i: int,
) -> Option<int>
    decreases routes.len() - i,
{
    if i < 0 || i >= routes.len() {
        None
    } else if path_params(routes[i].1, path) is Some && routes[i].0 == method {
        Some(i)
    } else {
        first_route_from(routes, method, path, i + 1)
    }
}

/// Law: the route that the search from index `i` finds is the first one,
/// at `i` or later, whose method is the request's and whose template the
/// path fits; there is none exactly when no route from `i` on has both.
pub proof fn lemma_first_route(
    routes: Seq<(Seq<char>, Seq<char>)>,
    method: Seq<char>,
    path: Seq<char>,
    i: int,
)
    requires
        0 <= i,
    ensures
        first_route_from(routes, method, path, i) matches Some(k) ==> {
            &&& i <= k < routes.len()
            &&& routes[k].0 == method
            &&& path_params(routes[k].1, path) is Some
            &&& forall|j: int|
                i <= j < k ==> !(routes[j].0 == method && path_params(
                    #[trigger] routes[j].1,
                    path,
                ) is Some)
        },
        first_route_from(routes, method, path, i) is None ==> forall|j: int|
            i <= j < routes.len() ==> !(routes[j].0 == method && path_params(
                #[trigger] routes[j].1,
                path,
            ) is Some),
    decreases routes.len() - i,
{
    if i < routes.len() && !(path_params(routes[i].1, path) is Some && routes[i].0 == method) {
        lemma_first_route(routes, method, path, i + 1);
    }
}

/// What the router makes of a request.
pub enum Dispatch {
    /// The route at this index takes the request, with this fresh response
    /// to fill in.
    Route(usize, Response),
    /// No route takes the request: these are the bytes of the `404 Not Found`
    /// answer.
    NotFound(Vec<u8>),
}

/// The routes of a server, tried in order, and the context of their
/// handlers.
pub struct Router {
    handlers: Vec<Route>,
    context: Context,
}

/// The fresh response to a request with the given version and headers.
pub open spec fn fresh_response(version: Seq<char>, headers: Map<Seq<char>, Seq<char>>) -> ResponseView {
    ResponseView {
        status: 200,
        status_msg: status_message(200),
        text: Seq::empty(),
        protocol: version,
        headers: Seq::empty(),
        req_headers: headers,
    }
}

impl Router {
    /// The routes, as (method, template) pairs, in order.
    pub closed spec fn routes(&self) -> Seq<(Seq<char>, Seq<char>)> {
        self.handlers@.map_values(|r: Route| (r.method@, r.path@))
    }

    pub closed spec fn directory_path(&self) -> Seq<char> {
        self.context.directory_path@
    }

    pub fn new(handlers: Vec<Route>, directory_path: String) -> (r: Router)
        ensures
            r.routes() == handlers@.map_values(|r: Route| (r.method@, r.path@)),
            r.directory_path() == directory_path@,
    {
        Router { handlers, context: Context { directory_path } }
    }

    /// The context that the handlers share.
    pub fn context(&self) -> (c: &Context)
        ensures
            c.directory_path@ == self.directory_path(),
    {
        &self.context
    }

    /// The parameters that `path` binds in `template` (see `path_params`).
    pub fn extract_path_params(template: String, path: String) -> (r: Option<Headers>)
        ensures
            r is Some <==> path_params(template@, path@) is Some,
            r matches Some(h) ==> path_params(template@, path@) == Some(h@),
    {
        let tc = chars_of(template.as_str());
        let pc = chars_of(path.as_str());
        let tt = trim_char_exec(tc.as_slice(), '/');
        let pt = trim_char_exec(pc.as_slice(), '/');
        let template_parts = split_exec(tt.as_slice(), '/');
        let path_parts = split_exec(pt.as_slice(), '/');
        let ghost ts = segments(template@);
        let ghost ps = segments(path@);
        assert(template_parts@.map_values(|w: Vec<char>| w@) == ts);
        assert(path_parts@.map_values(|w: Vec<char>| w@) == ps);
        if template_parts.len() != path_parts.len() {
            return None;
        }
        let mut params = Headers::new();
        let mut i: usize = 0;
        assert(ts.take(0) =~= Seq::<Seq<char>>::empty());
        while i < template_parts.len()
            invariant
                i <= template_parts@.len(),
                template_parts@.len() == path_parts@.len(),
                ts == segments(template@),
                ps == segments(path@),
                template_parts@.map_values(|w: Vec<char>| w@) == ts,
                path_parts@.map_values(|w: Vec<char>| w@) == ps,
                forall|j: int| 0 <= j < i && !is_param_segment(#[trigger] ts[j]) ==> ts[j] == ps[j],
                params@ == entries_map(param_entries(ts.take(i as int), ps.take(i as int))),
            decreases template_parts@.len() - i,
        {
            let t = &template_parts[i];
            let p = &path_parts[i];
            assert(t@ == ts[i as int]);
            assert(p@ == ps[i as int]);
            let ghost before = param_entries(ts.take(i as int), ps.take(i as int));
            assert(ts.take(i + 1).drop_last() =~= ts.take(i as int));
            assert(ps.take(i + 1).drop_last() =~= ps.take(i as int));
            if t.len() > 0 && t[0] == '{' && t[t.len() - 1] == '}' {
                assert(is_param_segment(t@));
                let key = string_of(vstd::slice::slice_subrange(t.as_slice(), 1, t.len() - 1));
                let value = string_of(p.as_slice());
                assert(key@ == param_name(ts[i as int]));
                params.insert(key, value);
                let ghost x = (param_name(ts[i as int]), ps[i as int]);
                assert(param_entries(ts.take(i + 1), ps.take(i + 1)) == before.push(x));
                assert(before.push(x).drop_last() =~= before);
            } else {
                assert(!is_param_segment(t@));
                if !chars_eq(t.as_slice(), p.as_slice()) {
                    assert(!is_param_segment(ts[i as int]) && ts[i as int] != ps[i as int]);
                    assert(!segments_match(ts, ps));
                    return None;
                }
                assert(param_entries(ts.take(i + 1), ps.take(i + 1)) == before);
            }
            i = i + 1;
        }
        assert(ts.take(i as int) =~= ts);
        assert(ps.take(i as int) =~= ps);
        Some(params)
    }

    /// Finds the first route whose method is the request's and whose
    /// template fits the request's path. When there is one, its parameters
    /// become the request's `path_params` and the route's index is given
    /// with a fresh response; otherwise the request is answered with `404`.
    pub fn execute(&self, request: &mut Request) -> (r: Dispatch)
        ensures
            final(request).method == old(request).method,
            final(request).path == old(request).path,
            final(request).version == old(request).version,
            final(request).headers == old(request).headers,
            final(request).body == old(request).body,
            dispatches(
                self.routes(),
                old(request).method@,
                old(request).path@,
                old(request).version@,
                old(request).headers@,
                final(request).path_params@,
                r,
            ),
            first_route_from(self.routes(), old(request).method@, old(request).path@, 0) is None
                ==> final(request).path_params == old(request).path_params,
    {
        let ghost rs = self.routes();
        let mut i: usize = 0;
        while i < self.handlers.len()
            invariant
                i <= self.handlers@.len(),
                rs == self.routes(),
                first_route_from(rs, request.method@, request.path@, 0) == first_route_from(
                    rs,
                    request.method@,
                    request.path@,
                    i as int,
                ),
                request == old(request),
            decreases self.handlers@.len() - i,
        {
            let route = &self.handlers[i];
            assert((route.method@, route.path@) == rs[i as int]);
            match Router::extract_path_params(route.path.clone(), request.path.clone()) {
                Some(params) => {
                    if route.method == request.method {
                        assert(first_route_from(rs, request.method@, request.path@, i as int) == Some(
                            i as int,
                        ));
                        request.path_params = params;
                        let response = Response::new(
                            request.version.clone(),
                            request.headers.clone(),
                        );
                        return Dispatch::Route(i, response);
                    }
                },
                None => {},
            }
            i = i + 1;
        }
        assert(first_route_from(rs, request.method@, request.path@, i as int) is None);
        let mut response = Response::new(request.version.clone(), request.headers.clone());
        response.status(404);
        assert(response@ == not_found(request.version@, request.headers@));
        let bytes = response.send();
        assert(sends(not_found(request.version@, request.headers@), bytes@, response@));
        let ghost sent = bytes@;
        let r = Dispatch::NotFound(bytes);
        assert(r->NotFound_0@ == sent);
        r
    }
}

/// True when `r` is what the router with routes `routes` makes of a request
/// with this method, path, version and headers, leaving it with the path
/// parameters `params`: the index of the first route that takes it, with a
/// fresh response, and the parameters that its template binds; or, when no
/// route takes it, the bytes of the `404 Not Found` answer.
pub open spec fn dispatches(
    routes: Seq<(Seq<char>, Seq<char>)>,
    method: Seq<char>,
    path: Seq<char>,
    version: Seq<char>,
    headers: Map<Seq<char>, Seq<char>>,
    params: Map<Seq<char>, Seq<char>>,
    r: Dispatch,
) -> bool {
    match first_route_from(routes, method, path, 0) {
        Some(i) => {
            &&& r matches Dispatch::Route(k, resp) && k == i && resp@ == fresh_response(
                version,
                headers,
            )
            &&& Some(params) == path_params(routes[i].1, path)
        },
        None => r matches Dispatch::NotFound(bytes) && bytes@ == sent_bytes(
            not_found(version, headers),
            send_encoding(not_found(version, headers)),
        ),
    }
}

/// The `404 Not Found` response to a request with the given version and
/// headers, before it is sent.
pub open spec fn not_found(version: Seq<char>, headers: Map<Seq<char>, Seq<char>>) -> ResponseView {
    ResponseView { status: 404, status_msg: status_message(404), ..fresh_response(version, headers) }
}
} // verus!
