//! The server's routes and their answers: `/`, `/echo/{str}`, `/user-agent`
//! and `/files/{filename}`. Reading and writing the files is left to the
//! caller, which hands in the outcome.

use crate::headers::{content_type_key, content_type_name, entries_insert};
use crate::parser::Request;
use crate::router::{sends, status_message, Context, Response, ResponseView, Route};
use vstd::prelude::*;
use vstd::string::StringExecFns;

verus! {

/// `OK`, the text of the root page.
pub open spec fn ok_text() -> Seq<char> {
    seq!['O', 'K']
}

/// `str`, the parameter of `/echo/{str}`.
pub open spec fn echo_param() -> Seq<char> {
    seq!['s', 't', 'r']
}

/// `filename`, the parameter of `/files/{filename}`.
pub open spec fn filename_param() -> Seq<char> {
    seq!['f', 'i', 'l', 'e', 'n', 'a', 'm', 'e']
}

/// `User-Agent`, the header that names the client.
pub open spec fn user_agent_name() -> Seq<char> {
    seq!['U', 's', 'e', 'r', '-', 'A', 'g', 'e', 'n', 't']
}

/// `application/octet-stream`, the media type of served files.
pub open spec fn octet_stream() -> Seq<char> {
    seq![
        'a', 'p', 'p', 'l', 'i', 'c', 'a', 't', 'i', 'o', 'n', '/', 'o', 'c', 't', 'e', 't',
        '-', 's', 't', 'r', 'e', 'a', 'm'
    ]
}

/// `v` with status `status` and text `text`.
pub open spec fn with_status_text(v: ResponseView, status: int, text: Seq<char>) -> ResponseView {
    ResponseView { status, status_msg: status_message(status), text, ..v }
}

/// `v` with status `status`.
pub open spec fn with_status(v: ResponseView, status: int) -> ResponseView {
    ResponseView { status, status_msg: status_message(status), ..v }
}

/// Answers `/` with `200 OK` and the text `OK`.
pub fn root(response: &mut Response) -> (r: Vec<u8>)
    ensures
        sends(with_status_text(old(response)@, 200, ok_text()), r@, final(response)@),
{
    let text = String::from_str("OK");
    proof {
        reveal_strlit("OK");
    }
    assert(text@ =~= ok_text());
    response.status(200).text(text);
    response.send()
}

/// Answers `/echo/{str}` with `200 OK` and the `str` parameter as text;
/// sends nothing when the request has no such parameter.
pub fn echo(request: &Request, response: &mut Response) -> (r: Option<Vec<u8>>)
    ensures
        r is None <==> !request.path_params@.contains_key(echo_param()),
        r is None ==> *final(response) == *old(response),
        r matches Some(b) ==> sends(
            with_status_text(old(response)@, 200, request.path_params@[echo_param()]),
            b@,
            final(response)@,
        ),
{
    let key = String::from_str("str");
    proof {
        reveal_strlit("str");
    }
    assert(key@ =~= echo_param());
    match request.path_params.get(&key) {
        None => None,
        Some(s) => {
            response.status(200).text(s.clone());
            Some(response.send())
        },
    }
}

/// Answers `/user-agent` with `200 OK` and the `User-Agent` header as text;
/// sends nothing when the request has no such header.
pub fn user_agent(request: &Request, response: &mut Response) -> (r: Option<Vec<u8>>)
    ensures
        r is None <==> !request.headers@.contains_key(user_agent_name()),
        r is None ==> *final(response) == *old(response),
        r matches Some(b) ==> sends(
            with_status_text(old(response)@, 200, request.headers@[user_agent_name()]),
            b@,
            final(response)@,
        ),
{
    let key = String::from_str("User-Agent");
    proof {
        reveal_strlit("User-Agent");
    }
    assert(key@ =~= user_agent_name());
    match request.headers.get(&key) {
        None => None,
        Some(s) => {
            response.status(200).text(s.clone());
            Some(response.send())
        },
    }
}

/// The path of the file that `/files/{filename}` names: the server's
/// directory followed by the `filename` parameter; `None` without it.
pub fn file_path(request: &Request, context: &Context) -> (r: Option<String>)
    ensures
        r is None <==> !request.path_params@.contains_key(filename_param()),
        r matches Some(p) ==> p@ == context.directory_path@ + request.path_params@[filename_param()],
{
    let key = String::from_str("filename");
    proof {
        reveal_strlit("filename");
    }
    assert(key@ =~= filename_param());
    match request.path_params.get(&key) {
        None => None,
        Some(name) => {
            let mut full_path = context.directory_path.clone();
            full_path.append(name.as_str());
            Some(full_path)
        },
    }
}

/// What reading a requested file gave.
pub enum FileRead {
    /// The file's contents.
    Contents(String),
    /// There is no such file.
    NotFound,
    /// Reading failed otherwise.
    Failed,
}

/// Answers `GET /files/{filename}` once the file is read: `200 OK` with the
/// contents as an `application/octet-stream` text, or `404 Not Found`.
/// A failed read is left out: its answer, status 500, is not a status that
/// responses support.
pub fn serve_file(response: &mut Response, read: FileRead) -> (r: Vec<u8>)
    requires
        !(read is Failed),
    ensures
        match read {
            FileRead::Contents(data) => sends(
                ResponseView {
                    headers: entries_insert(
                        old(response)@.headers,
                        content_type_name(),
                        octet_stream(),
                    ),
                    ..with_status_text(old(response)@, 200, data@)
                },
                r@,
                final(response)@,
            ),
            _ => sends(with_status(old(response)@, 404), r@, final(response)@),
        },
{
    match read {
        FileRead::Contents(data) => {
            let ct = content_type_key();
            let value = String::from_str("application/octet-stream");
            proof {
                reveal_strlit("application/octet-stream");
            }
            assert(value@ =~= octet_stream());
            response.status(200).text(data).set_header(ct, value);
            response.send()
        },
        _ => {
            response.status(404);
            response.send()
        },
    }
}

/// `GET`.
pub open spec fn get_method() -> Seq<char> {
    seq!['G', 'E', 'T']
}

/// `POST`.
pub open spec fn post_method() -> Seq<char> {
    seq!['P', 'O', 'S', 'T']
}

/// `/echo/{str}`.
pub open spec fn echo_template() -> Seq<char> {
    seq!['/', 'e', 'c', 'h', 'o', '/', '{', 's', 't', 'r', '}']
}

/// `/user-agent`.
pub open spec fn user_agent_template() -> Seq<char> {
    seq!['/', 'u', 's', 'e', 'r', '-', 'a', 'g', 'e', 'n', 't']
}

/// `/files/{filename}`.
pub open spec fn files_template() -> Seq<char> {
    seq!['/', 'f', 'i', 'l', 'e', 's', '/', '{', 'f', 'i', 'l', 'e', 'n', 'a', 'm', 'e', '}']
}

/// The server's routes as (method, template) pairs, in the order in which
/// they are tried: `GET /` (answered by `root`), `GET /echo/{str}` (`echo`),
/// `GET /user-agent` (`user_agent`), `GET /files/{filename}` (`serve_file`)
/// and `POST /files/{filename}` (`file_created`).
pub open spec fn route_table() -> Seq<(Seq<char>, Seq<char>)> {
    seq![
        (get_method(), seq!['/']),
        (get_method(), echo_template()),
        (get_method(), user_agent_template()),
        (get_method(), files_template()),
        (post_method(), files_template()),
    ]
}

fn route(method: &str, path: &str) -> (r: Route)
    ensures
        r.method@ == method@,
        r.path@ == path@,
{
    Route { method: String::from_str(method), path: String::from_str(path) }
}

/// The routes of the server (see `route_table`), to build its router with.
pub fn server_routes() -> (r: Vec<Route>)
    ensures
        r@.map_values(|x: Route| (x.method@, x.path@)) == route_table(),
{
    proof {
        reveal_strlit("GET");
        reveal_strlit("POST");
        reveal_strlit("/");
        reveal_strlit("/echo/{str}");
        reveal_strlit("/user-agent");
        reveal_strlit("/files/{filename}");
    }
    let mut r: Vec<Route> = Vec::new();
    r.push(route("GET", "/"));
    r.push(route("GET", "/echo/{str}"));
    r.push(route("GET", "/user-agent"));
    r.push(route("GET", "/files/{filename}"));
    r.push(route("POST", "/files/{filename}"));
    assert(r@[0].method@ =~= get_method() && r@[0].path@ =~= seq!['/']);
    assert(r@[1].method@ =~= get_method() && r@[1].path@ =~= echo_template());
    assert(r@[2].method@ =~= get_method() && r@[2].path@ =~= user_agent_template());
    assert(r@[3].method@ =~= get_method() && r@[3].path@ =~= files_template());
    assert(r@[4].method@ =~= post_method() && r@[4].path@ =~= files_template());
    assert(r@.map_values(|x: Route| (x.method@, x.path@)) =~= route_table());
    r
}

/// Answers `POST /files/{filename}` once the body is written to the file:
/// `201 Created`.
pub fn file_created(response: &mut Response) -> (r: Vec<u8>)
    ensures
        sends(with_status(old(response)@, 201), r@, final(response)@),
{
    response.status(201);
    response.send()
}

} // verus!
