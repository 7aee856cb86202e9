//! HTTP messages and the route table of the small diagnostic server.
//!
//! A response renders as a status line, the headers in insertion order, a
//! blank line, and the body. Setting a body also sets its `Content-Length`
//! header. The server maps a fixed set of paths to actions; the actions
//! themselves need the outside world (a shell, the file system), so routing
//! hands them back to the caller, and only an unknown path is answered
//! directly, with the not-found response.

use crate::assoc::StringTable;
use crate::strutil::dec_rep;
use crate::strutil::str_eq;
use crate::strutil::u64_to_string;
use vstd::prelude::*;

verus! {

pub struct HttpRequest {
    pub method: String,
    pub path: String,
    pub headers: StringTable<String>,
    pub body: String,
}

impl HttpRequest {
    pub fn new(method: String, path: String, body: String) -> (r: Self)
        ensures
            r.method == method,
            r.path == path,
            r.body == body,
            r.headers.keys() == Seq::<Seq<char>>::empty(),
            r.headers.well_formed(),
    {
        HttpRequest { method, path, headers: StringTable::new(), body }
    }
}

pub struct HttpResponse {
    status_code: u16,
    status_text: String,
    headers: StringTable<String>,
    body: String,
}

/// The header block: one `name: value` line per header, in table order,
/// starting at position `i`.
pub open spec fn render_headers(keys: Seq<Seq<char>>, vals: Seq<String>, i: int) -> Seq<char>
    decreases keys.len() - i,
{
    if i < 0 || i >= keys.len() || keys.len() != vals.len() {
        Seq::empty()
    } else {
        keys[i] + (": ")@ + vals[i]@ + ("\r\n")@ + render_headers(keys, vals, i + 1)
    }
}

/// The whole response text: status line, header block, blank line, body.
pub open spec fn render_spec(
    code: u16,
    text: Seq<char>,
    keys: Seq<Seq<char>>,
    vals: Seq<String>,
    body: Seq<char>,
) -> Seq<char> {
    ("HTTP/1.1 ")@ + dec_rep(code as nat) + (" ")@ + text + ("\r\n")@ + render_headers(keys, vals, 0)
        + ("\r\n")@ + body
}

impl HttpResponse {
    pub closed spec fn spec_code(&self) -> u16 {
        self.status_code
    }

    pub closed spec fn spec_text(&self) -> Seq<char> {
        self.status_text@
    }

    pub closed spec fn spec_body(&self) -> Seq<char> {
        self.body@
    }

    pub closed spec fn header_keys(&self) -> Seq<Seq<char>> {
        self.headers.keys()
    }

    pub closed spec fn header_vals(&self) -> Seq<String> {
        self.headers.vals()
    }

    pub closed spec fn has_header(&self, k: Seq<char>) -> bool {
        self.headers.contains_key(k)
    }

    pub closed spec fn header_value(&self, k: Seq<char>) -> Seq<char> {
        self.headers.value_of(k)@
    }

    pub closed spec fn well_formed(&self) -> bool {
        self.headers.well_formed()
    }

    pub fn new(status_code: u16, status_text: &str) -> (r: HttpResponse)
        ensures
            r.well_formed(),
            r.spec_code() == status_code,
            r.spec_text() == status_text@,
            r.spec_body() == Seq::<char>::empty(),
            r.header_keys() == Seq::<Seq<char>>::empty(),
    {
        HttpResponse {
            status_code,
            status_text: String::from_str(status_text),
            headers: StringTable::new(),
            body: String::new(),
        }
    }

    /// Installs the body and records its byte length as `Content-Length`.
    pub fn set_body(&mut self, body: String)
        requires
            old(self).well_formed(),
        ensures
            final(self).well_formed(),
            final(self).spec_body() == body@,
            final(self).spec_code() == old(self).spec_code(),
            final(self).spec_text() == old(self).spec_text(),
            final(self).has_header(("Content-Length")@),
            final(self).header_value(("Content-Length")@) == dec_rep(
                vstd::utf8::encode_utf8(body@).len(),
            ),
            forall|k: Seq<char>|
                k != ("Content-Length")@ ==> final(self).has_header(k) == old(self).has_header(k)
                    && (old(self).has_header(k) ==> final(self).header_value(k) == old(
                    self,
                ).header_value(k)),
    {
        let len = body.as_str().as_bytes().len();
        self.body = body;
        self.headers.insert("Content-Length", u64_to_string(len as u64));
    }

    /// Adds or replaces one header.
    pub fn add_header(&mut self, key: &str, value: &str)
        requires
            old(self).well_formed(),
        ensures
            final(self).well_formed(),
            final(self).spec_body() == old(self).spec_body(),
            final(self).spec_code() == old(self).spec_code(),
            final(self).spec_text() == old(self).spec_text(),
            final(self).has_header(key@),
            final(self).header_value(key@) == value@,
            forall|k: Seq<char>|
                k != key@ ==> final(self).has_header(k) == old(self).has_header(k) && (old(
                    self,
                ).has_header(k) ==> final(self).header_value(k) == old(self).header_value(k)),
    {
        self.headers.insert(key, String::from_str(value));
    }

    /// Renders the response text.
    pub fn to_string(&self) -> (r: String)
        requires
            self.well_formed(),
        ensures
            r@ == render_spec(
                self.spec_code(),
                self.spec_text(),
                self.header_keys(),
                self.header_vals(),
                self.spec_body(),
            ),
    {
        let mut response = String::from_str("HTTP/1.1 ");
        response.append(u64_to_string(self.status_code as u64).as_str());
        response.append(" ");
        response.append(self.status_text.as_str());
        response.append("\r\n");
        let ghost prefix = response@;
        let n = self.headers.len();
        let mut i: usize = 0;
        proof {
            assert(prefix + render_headers(self.header_keys(), self.header_vals(), 0) =~= prefix
                + render_headers(self.header_keys(), self.header_vals(), 0));
        }
        while i < n
            invariant
                self.well_formed(),
                n == self.header_keys().len(),
                n == self.header_vals().len(),
                i <= n,
                prefix + render_headers(self.header_keys(), self.header_vals(), 0) == response@
                    + render_headers(self.header_keys(), self.header_vals(), i as int),
            decreases n - i,
        {
            response.append(self.headers.key_at(i).as_str());
            response.append(": ");
            response.append(self.headers.value_at(i).as_str());
            response.append("\r\n");
            proof {
                assert(render_headers(self.header_keys(), self.header_vals(), i as int)
                    =~= self.header_keys()[i as int] + (": ")@ + self.header_vals()[i as int]@ + (
                "\r\n")@ + render_headers(self.header_keys(), self.header_vals(), i + 1));
            }
            i = i + 1;
        }
        proof {
            assert(render_headers(self.header_keys(), self.header_vals(), n as int)
                =~= Seq::<char>::empty());
            assert(response@ =~= prefix + render_headers(
                self.header_keys(),
                self.header_vals(),
                0,
            ));
        }
        response.append("\r\n");
        response.append(self.body.as_str());
        response
    }
}

/// What a routed path asks of the surrounding process.
pub enum RouteAction {
    Execute,
    ReadFile,
    SystemInfo,
    NetworkPing,
    EchoEnv,
}

/// What handling a request yields: an action for the caller's I/O layer, or
/// a finished response.
pub enum RouteOutcome {
    Action(RouteAction),
    Response(HttpResponse),
}

pub struct WebServer {
    port: u16,
}

impl WebServer {
    pub closed spec fn spec_port(&self) -> u16 {
        self.port
    }

    pub fn new(port: u16) -> (s: WebServer)
        ensures
            s.spec_port() == port,
    {
        WebServer { port }
    }

    pub fn port(&self) -> (r: u16)
        ensures
            r == self.spec_port(),
    {
        self.port
    }

    /// The fixed route table.
    pub open spec fn route_spec(path: Seq<char>) -> Option<RouteAction> {
        if path == ("/execute")@ {
            Some(RouteAction::Execute)
        } else if path == ("/file")@ {
            Some(RouteAction::ReadFile)
        } else if path == ("/system")@ {
            Some(RouteAction::SystemInfo)
        } else if path == ("/network")@ {
            Some(RouteAction::NetworkPing)
        } else if path == ("/env")@ {
            Some(RouteAction::EchoEnv)
        } else {
            None
        }
    }

    /// Routes a request: a known path hands its action back for the I/O
    /// layer; an unknown path is answered with the not-found response.
    pub fn handle_request(&self, request: &HttpRequest) -> (r: RouteOutcome)
        ensures
            match r {
                RouteOutcome::Action(a) => Self::route_spec(request.path@) == Some(a),
                RouteOutcome::Response(resp) => {
                    &&& Self::route_spec(request.path@) is None
                    &&& resp.spec_code() == 404
                    &&& resp.spec_text() == ("Not Found")@
                    &&& resp.spec_body() == ("Endpoint not found")@
                },
            },
    {
        let path = request.path.as_str();
        if str_eq(path, "/execute") {
            RouteOutcome::Action(RouteAction::Execute)
        } else if str_eq(path, "/file") {
            RouteOutcome::Action(RouteAction::ReadFile)
        } else if str_eq(path, "/system") {
            RouteOutcome::Action(RouteAction::SystemInfo)
        } else if str_eq(path, "/network") {
            RouteOutcome::Action(RouteAction::NetworkPing)
        } else if str_eq(path, "/env") {
            RouteOutcome::Action(RouteAction::EchoEnv)
        } else {
            let mut response = HttpResponse::new(404, "Not Found");
            response.set_body(String::from_str("Endpoint not found"));
            RouteOutcome::Response(response)
        }
    }
}

} // verus!
