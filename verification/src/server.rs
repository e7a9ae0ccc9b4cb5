//! Connection-level decisions: which HTTP versions keep a connection open,
//! whether a request asks to close it, and what one read from a connection
//! leads to.

use crate::headers::{asks_close, close_requested};
use crate::parser::{request_well_formed, Parser, Request};
use crate::router::{dispatches, first_route_from, Dispatch, Router};
use crate::text::{
    chars_of, decimal, is_digit, lemma_decimal_digits, lemma_decimal_parses,
    lemma_split_two, parse_unsigned, parse_unsigned_exec, split, split_exec, sub_chars,
};
use vstd::prelude::*;

verus! {

/// `HTTP/`, the start of a protocol version.
pub open spec fn http_prefix() -> Seq<char> {
    seq!['H', 'T', 'T', 'P', '/']
}

/// The major and minor numbers of a version `HTTP/<major>.<minor>[...]`,
/// each read as a `u32`; `None` when the version has another form.
pub open spec fn version_numbers(version: Seq<char>) -> Option<(nat, nat)> {
    if version.len() >= 5 && version.take(5) == http_prefix() {
        let parts = split(version.skip(5), '.');
        if parts.len() >= 2 {
            match (parse_unsigned(parts[0], u32::MAX as nat), parse_unsigned(parts[1], u32::MAX as nat)) {
                (Some(a), Some(b)) => Some((a, b)),
                _ => None,
            }
        } else {
            None
        }
    } else {
        None
    }
}

/// True when `version` is at least `major.minor`.
pub open spec fn version_supported(version: Seq<char>, major: nat, minor: nat) -> bool {
    match version_numbers(version) {
        Some((a, b)) => a > major || (a == major && b >= minor),
        None => false,
    }
}

/// True when the connection stays open after answering a request with this
/// version and these headers: the version is at least HTTP/1.1 and the
/// request does not ask to close.
pub open spec fn stays_open(version: Seq<char>, h: Map<Seq<char>, Seq<char>>) -> bool {
    version_supported(version, 1, 1) && !close_requested(h)
}

/// Law: the version `HTTP/<a>.<b>`, with `a` and `b` written in decimal and
/// each fitting a `u32`, is at least `major.minor` exactly when `a` is
/// greater than `major`, or equal to it with `b` at least `minor`.
pub proof fn lemma_version_order(a: nat, b: nat, major: nat, minor: nat)
    requires
        a <= u32::MAX,
        b <= u32::MAX,
    ensures
        version_supported(
            seq!['H', 'T', 'T', 'P', '/'] + decimal(a) + seq!['.'] + decimal(b),
            major,
            minor,
        ) <==> (a > major || (a == major && b >= minor)),
{
    let da = decimal(a);
    let db = decimal(b);
    let v = seq!['H', 'T', 'T', 'P', '/'] + da + seq!['.'] + db;
    lemma_decimal_digits(a);
    lemma_decimal_digits(b);
    assert forall|i: int| 0 <= i < da.len() implies da[i] != '.' by {
        assert(is_digit(da[i]));
    }
    assert forall|i: int| 0 <= i < db.len() implies db[i] != '.' by {
        assert(is_digit(db[i]));
    }
    assert(v.take(5) =~= http_prefix());
    assert(v.skip(5) =~= da + seq!['.'] + db);
    lemma_split_two(da, db, '.');
    lemma_decimal_parses(a, u32::MAX as nat);
    lemma_decimal_parses(b, u32::MAX as nat);
    assert(version_numbers(v) == Some((a, b)));
}

/// Law: after answering a request of version `HTTP/<a>.<b>` (decimal
/// numbers that fit a `u32`), the connection stays open exactly when the
/// version is at least 1.1 and the request has no `Connection: close` field.
pub proof fn lemma_keep_alive(a: nat, b: nat, h: Map<Seq<char>, Seq<char>>)
    requires
        a <= u32::MAX,
        b <= u32::MAX,
    ensures
        stays_open(seq!['H', 'T', 'T', 'P', '/'] + decimal(a) + seq!['.'] + decimal(b), h) <==> (
        (a > 1 || (a == 1 && b >= 1)) && !(h.contains_key(
            seq!['C', 'o', 'n', 'n', 'e', 'c', 't', 'i', 'o', 'n'],
        ) && h[seq!['C', 'o', 'n', 'n', 'e', 'c', 't', 'i', 'o', 'n']] == seq![
            'c',
            'l',
            'o',
            's',
            'e',
        ])),
{
    lemma_version_order(a, b, 1, 1);
}

/// Whether `version` (`HTTP/<major>.<minor>`) is at least
/// `expected_major.expected_minior`.
pub fn is_http_version_supported(version: &str, expected_major: u32, expected_minior: u32) -> (r: bool)
    ensures
        r == version_supported(version@, expected_major as nat, expected_minior as nat),
{
    let cs = chars_of(version);
    if !(cs.len() >= 5 && cs[0] == 'H' && cs[1] == 'T' && cs[2] == 'T' && cs[3] == 'P' && cs[4]
        == '/') {
        proof {
            if version@.len() >= 5 && version@.take(5) == http_prefix() {
                assert(version@.take(5)[0] == 'H' && version@.take(5)[1] == 'T' && version@.take(
                    5,
                )[2] == 'T' && version@.take(5)[3] == 'P' && version@.take(5)[4] == '/');
            }
        }
        return false;
    }
    assert(version@.take(5) =~= http_prefix());
    let stripped = sub_chars(cs.as_slice(), 5, cs.len());
    assert(stripped@ =~= version@.skip(5));
    let parts = split_exec(stripped.as_slice(), '.');
    let ghost ps = split(version@.skip(5), '.');
    assert(parts@.map_values(|w: Vec<char>| w@) == ps);
    if parts.len() < 2 {
        return false;
    }
    assert(parts@[0]@ == ps[0]);
    assert(parts@[1]@ == ps[1]);
    match (
        parse_unsigned_exec(parts[0].as_slice(), u32::MAX as u64),
        parse_unsigned_exec(parts[1].as_slice(), u32::MAX as u64),
    ) {
        (Some(major), Some(minior)) => {
            (major > expected_major as u64) || (major == expected_major as u64 && minior
                >= expected_minior as u64)
        },
        _ => false,
    }
}

/// Whether the connection stays open after answering `request` (see
/// `stays_open`).
pub fn connection_persists(request: &Request) -> (r: bool)
    ensures
        r == stays_open(request.version@, request.headers@),
{
    let is_persistent_connection = is_http_version_supported(request.version.as_str(), 1, 1);
    let is_connection_close = asks_close(&request.headers);
    is_persistent_connection && !is_connection_close
}

/// What a read from a connection gave.
pub enum ReadOutcome {
    /// The bytes read.
    Bytes(Vec<u8>),
    /// The peer closed the connection: the read gave no byte.
    Closed,
    /// The read failed or timed out.
    Failed,
}

/// What serving a connection does after a read.
pub enum ConnectionStep {
    /// Stop serving the connection, writing nothing more.
    Stop,
    /// The bytes read are not a well-formed request.
    Malformed,
    /// Answer `request` as `dispatch` says (what the router made of it),
    /// then read the next request if `keep_open`, else stop.
    Serve { request: Request, dispatch: Dispatch, keep_open: bool },
}

/// One step of serving a connection: what to do with what a read gave. A
/// closed or failed read ends the connection; the bytes of a well-formed
/// request are parsed and dispatched by `router`, and the connection stays
/// open after the answer when the request's version and headers allow it
/// (see `stays_open`).
pub fn handle_read(router: &Router, read: ReadOutcome) -> (r: ConnectionStep)
    ensures
        match read {
            ReadOutcome::Bytes(bytes) => if request_well_formed(bytes@) {
                r matches ConnectionStep::Serve { request, dispatch, keep_open } && {
                    &&& request.read_from(bytes@)
                    &&& dispatches(
                        router.routes(),
                        request.method@,
                        request.path@,
                        request.version@,
                        request.headers@,
                        request.path_params@,
                        dispatch,
                    )
                    &&& first_route_from(router.routes(), request.method@, request.path@, 0) is None
                        ==> request.path_params@ == Map::<Seq<char>, Seq<char>>::empty()
                    &&& keep_open == stays_open(request.version@, request.headers@)
                }
            } else {
                r is Malformed
            },
            _ => r is Stop,
        },
{
    match read {
        ReadOutcome::Bytes(bytes) => match Parser::try_parse(bytes.as_slice()) {
            None => ConnectionStep::Malformed,
            Some(request) => {
                let mut request = request;
                let keep_open = connection_persists(&request);
                let dispatch = router.execute(&mut request);
                ConnectionStep::Serve { request, dispatch, keep_open }
            },
        },
        _ => ConnectionStep::Stop,
    }
}

} // verus!
