//! The HTTP-facing surface of the core: routing, the error taxonomy, and the
//! mapping from outcomes to statuses and bodies.

use vstd::prelude::*;
use vstd::string::StringExecFns;

verus! {

/// Every way a request can fail inside the serving core.
#[derive(Clone, Copy, PartialEq, Eq, Structural, Debug)]
pub enum ServeError {
    /// The request body was malformed or the prompt was empty.
    Validation,
    /// The model file was missing, corrupt, or of an unsupported architecture.
    ModelLoad,
    /// A non-blocking caller found the model's session occupied.
    SessionBusy,
    /// A per-request deadline elapsed before generation finished.
    Timeout,
    /// The delegated engine failed during token generation.
    Inference,
}

/// An HTTP method, as far as routing distinguishes them.
#[derive(Clone, Copy, PartialEq, Eq, Structural, Debug)]
pub enum HttpMethod {
    Get,
    Post,
    Put,
    Delete,
    Other,
}

/// Where a request is sent: the chat endpoint, or nowhere.
#[derive(Clone, Copy, PartialEq, Eq, Structural, Debug)]
pub enum Route {
    Chat,
    NotFound,
}

/// A status code together with the body the client will see.
pub struct HttpResponse {
    pub status: u16,
    pub body: String,
}

/// The one routable endpoint: `POST /api/chat`.  Everything else is 404.
pub open spec fn spec_route(path: Seq<char>, method: HttpMethod) -> Route {
    if path == "/api/chat"@ && method == HttpMethod::Post {
        Route::Chat
    } else {
        Route::NotFound
    }
}

/// The status each error is surfaced as: validation failures are the
/// client's fault (400), everything else is a server-side failure (500).
pub open spec fn spec_status_for(e: ServeError) -> u16 {
    match e {
        ServeError::Validation => 400,
        ServeError::ModelLoad => 500,
        ServeError::SessionBusy => 500,
        ServeError::Timeout => 500,
        ServeError::Inference => 500,
    }
}

/// The prefix every successful response body carries.
pub open spec fn success_prefix() -> Seq<char> {
    "Inference result: "@
}

/// Decide where a request goes from its path and method alone.
pub fn route(path: &String, method: HttpMethod) -> (r: Route)
    ensures
        r == spec_route(path@, method),
{
    let chat: String = "/api/chat".to_owned();
    if method == HttpMethod::Post && *path == chat {
        Route::Chat
    } else {
        Route::NotFound
    }
}

/// Map an error to the status it is surfaced as.
pub fn status_for(e: ServeError) -> (r: u16)
    ensures
        r == spec_status_for(e),
{
    match e {
        ServeError::Validation => 400,
        ServeError::ModelLoad => 500,
        ServeError::SessionBusy => 500,
        ServeError::Timeout => 500,
        ServeError::Inference => 500,
    }
}

/// A response with the given status and an empty body, as every error and
/// every miss of the route table is answered.
pub fn empty_response(status: u16) -> (r: HttpResponse)
    ensures
        r.status == status,
        r.body@ == Seq::<char>::empty(),
{
    HttpResponse { status, body: String::new() }
}

/// The 404 answer for any path or method outside the route table.
pub fn not_found() -> (r: HttpResponse)
    ensures
        r.status == 404,
        r.body@ == Seq::<char>::empty(),
{
    empty_response(404)
}

/// The 400 answer for a request body that did not parse.
pub fn bad_request() -> (r: HttpResponse)
    ensures
        r.status == spec_status_for(ServeError::Validation),
        r.body@ == Seq::<char>::empty(),
{
    empty_response(400)
}

/// The response for an error produced inside the core: its status from the
/// taxonomy, with an empty body so nothing internal leaks to the client.
pub fn error_response(e: ServeError) -> (r: HttpResponse)
    ensures
        r.status == spec_status_for(e),
        r.body@ == Seq::<char>::empty(),
{
    empty_response(status_for(e))
}

/// Prefix the generated text as the chat endpoint's success body shows it.
pub fn success_message(text: &String) -> (r: String)
    ensures
        r@ == success_prefix() + text@,
{
    let mut s: String = "Inference result: ".to_owned();
    s.append(text.as_str());
    s
}

} // verus!
