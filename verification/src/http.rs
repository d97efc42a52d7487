//! The localhost API: which requests are admitted, and how each is answered.
use vstd::prelude::*;
use vstd::string::*;
use vstd::utf8::*;

use crate::config::{LiveSettings, ServerConfig, DEFAULT_EXTENSION_ORIGIN};
use crate::json::pair_views;
use crate::text::{
    chars_of, decimal, decimal_digits, join2, join3, starts_with, str_eq, string_of,
    strip_prefix, views,
};

verus! {

/// A line of a request's or a reply's head.
pub struct Header {
    pub field: String,
    pub value: String,
}

impl View for Header {
    type V = (Seq<char>, Seq<char>);

    open spec fn view(&self) -> (Seq<char>, Seq<char>) {
        (self.field@, self.value@)
    }
}

/// The header lines as mathematical values.
pub open spec fn header_views(headers: Seq<Header>) -> Seq<(Seq<char>, Seq<char>)> {
    headers.map_values(|h: Header| h@)
}

/// `tiny_http::Header::from_bytes`, given the bytes of two strings: a header that holds
/// both unchanged where both are ASCII, none where one of them is not.
#[verifier::external_body]
fn header_of(field: &str, value: &str) -> (r: Option<Header>)
    ensures
        match r {
            Some(h) => is_ascii_chars(field@) && is_ascii_chars(value@) && h@ == (
                field@,
                value@,
            ),
            None => !(is_ascii_chars(field@) && is_ascii_chars(value@)),
        },
{
    match tiny_http::Header::from_bytes(field.as_bytes(), value.as_bytes()) {
        Ok(h) => Some(
            Header { field: h.field.as_str().to_string(), value: h.value.as_str().to_string() },
        ),
        Err(()) => None,
    }
}

/// The header line with the given field and value.
pub fn header(k: &str, v: &str) -> (r: Header)
    requires
        is_ascii_chars(k@),
        is_ascii_chars(v@),
    ensures
        r@ == (k@, v@),
{
    header_of(k, v).unwrap()
}

/// A character, an upper-case ASCII letter as the lower-case one.
pub open spec fn ascii_lower(c: char) -> char {
    if 'A' <= c <= 'Z' {
        (c as u32 + 32) as char
    } else {
        c
    }
}

/// Whether two field names are the same but for the case of ASCII letters.
pub open spec fn is_same_field(a: Seq<char>, b: Seq<char>) -> bool {
    &&& a.len() == b.len()
    &&& forall|i: int| 0 <= i < a.len() ==> ascii_lower(#[trigger] a[i]) == ascii_lower(b[i])
}

/// A character, an upper-case ASCII letter as the lower-case one.
fn to_ascii_lower(c: char) -> (r: char)
    ensures
        r == ascii_lower(c),
{
    if 'A' <= c && c <= 'Z' {
        (c as u8 + 32) as char
    } else {
        c
    }
}

/// Whether two field names are the same but for the case of ASCII letters.
pub fn same_field(a: &str, b: &str) -> (r: bool)
    ensures
        r == is_same_field(a@, b@),
{
    let x = chars_of(a);
    let y = chars_of(b);
    if x.len() != y.len() {
        return false;
    }
    let mut i: usize = 0;
    while i < x.len()
        invariant
            x@ == a@,
            y@ == b@,
            x@.len() == y@.len(),
            i <= x@.len(),
            forall|j: int| 0 <= j < i ==> ascii_lower(#[trigger] a@[j]) == ascii_lower(b@[j]),
        decreases x@.len() - i,
    {
        if to_ascii_lower(x[i]) != to_ascii_lower(y[i]) {
            assert(ascii_lower(a@[i as int]) != ascii_lower(b@[i as int]));
            return false;
        }
        i += 1;
    }
    true
}

/// The value of the first header line with the given field.
pub open spec fn first_value(
    headers: Seq<(Seq<char>, Seq<char>)>,
    field: Seq<char>,
) -> Option<Seq<char>>
    decreases headers.len(),
{
    if headers.len() == 0 {
        None
    } else if is_same_field(headers[0].0, field) {
        Some(headers[0].1)
    } else {
        first_value(headers.drop_first(), field)
    }
}

/// The value of the first header line with the given field.
pub fn find_header<'a>(headers: &'a Vec<Header>, field: &str) -> (r: Option<&'a str>)
    ensures
        match r {
            Some(v) => first_value(header_views(headers@), field@) == Some(v@),
            None => first_value(header_views(headers@), field@) is None,
        },
        r matches Some(v) ==> exists|i: int|
            0 <= i < headers@.len() && (#[trigger] headers@[i]).value@ == v@,
{
    let ghost lines = header_views(headers@);
    let mut i: usize = 0;
    assert(lines.skip(0) =~= lines);
    while i < headers.len()
        invariant
            lines == header_views(headers@),
            i <= headers@.len(),
            first_value(lines.skip(i as int), field@) == first_value(lines, field@),
        decreases headers@.len() - i,
    {
        assert(lines.skip(i as int)[0] == headers@[i as int]@);
        assert(lines.skip(i as int).drop_first() =~= lines.skip(i + 1));
        if same_field(headers[i].field.as_str(), field) {
            return Some(headers[i].value.as_str());
        }
        i += 1;
    }
    None
}

/// Whether an entry of the allow-list admits an origin: the same origin, or, where the
/// entry ends in an asterisk, any that begins with what stands before it.
pub open spec fn admits(entry: Seq<char>, origin: Seq<char>) -> bool {
    if entry.len() > 0 && entry.last() == '*' {
        entry.drop_last().is_prefix_of(origin)
    } else {
        entry == origin
    }
}

/// Whether some entry of the allow-list admits the origin.
pub open spec fn is_allowed(origin: Seq<char>, allowed: Seq<Seq<char>>) -> bool {
    exists|i: int| 0 <= i < allowed.len() && admits(#[trigger] allowed[i], origin)
}

/// Whether an entry of the allow-list admits an origin.
fn entry_admits(entry: &str, origin: &str) -> (r: bool)
    ensures
        r == admits(entry@, origin@),
{
    let cs = chars_of(entry);
    let n = cs.len();
    if n > 0 && cs[n - 1] == '*' {
        let prefix = string_of(&cs, 0, n - 1);
        assert(prefix@ =~= entry@.drop_last());
        starts_with(origin, prefix.as_str())
    } else {
        str_eq(entry, origin)
    }
}

/// The origin to echo: the request's own, where the allow-list admits it.
pub open spec fn echoed(origin: Option<Seq<char>>, allowed: Seq<Seq<char>>) -> Option<Seq<char>> {
    match origin {
        Some(o) => if is_allowed(o, allowed) {
            Some(o)
        } else {
            None
        },
        None => None,
    }
}

/// The text of an optional string.
pub open spec fn text_of(s: Option<&str>) -> Option<Seq<char>> {
    match s {
        Some(t) => Some(t@),
        None => None,
    }
}

/// The origin to echo: the request's own, where the allow-list admits it.
pub fn resolve_origin<'a>(origin: Option<&'a str>, allowed: &[String]) -> (r: Option<&'a str>)
    ensures
        text_of(r) == echoed(text_of(origin), views(allowed@)),
        r is Some ==> r == origin,
{
    let o = match origin {
        Some(o) => o,
        None => {
            return None;
        },
    };
    let mut i: usize = 0;
    while i < allowed.len()
        invariant
            i <= allowed@.len(),
            origin == Some(o),
            forall|j: int| 0 <= j < i ==> !admits(#[trigger] views(allowed@)[j], o@),
        decreases allowed@.len() - i,
    {
        if entry_admits(allowed[i].as_str(), o) {
            assert(admits(views(allowed@)[i as int], o@));
            return Some(o);
        }
        i += 1;
    }
    None
}

/// The header lines by which a browser learns who may use the API: the methods and
/// fields that are, and the echoed origin.
pub open spec fn cors_lines(allow_origin: Option<Seq<char>>) -> Seq<(Seq<char>, Seq<char>)> {
    let common = seq![
        ("Access-Control-Allow-Methods"@, "POST, OPTIONS"@),
        ("Access-Control-Allow-Headers"@, "authorization, content-type"@),
        ("Vary"@, "Origin"@),
    ];
    match allow_origin {
        Some(o) => common.push(("Access-Control-Allow-Origin"@, o)),
        None => common,
    }
}

/// The field names and values of the API's own header lines are ASCII.
proof fn lemma_lines_are_ascii()
    ensures
        is_ascii_chars("Access-Control-Allow-Methods"@),
        is_ascii_chars("POST, OPTIONS"@),
        is_ascii_chars("Access-Control-Allow-Headers"@),
        is_ascii_chars("authorization, content-type"@),
        is_ascii_chars("Vary"@),
        is_ascii_chars("Origin"@),
        is_ascii_chars("Access-Control-Allow-Origin"@),
        is_ascii_chars("Content-Type"@),
        is_ascii_chars("application/json"@),
{
    reveal_strlit("Access-Control-Allow-Methods");
    reveal_strlit("POST, OPTIONS");
    reveal_strlit("Access-Control-Allow-Headers");
    reveal_strlit("authorization, content-type");
    reveal_strlit("Vary");
    reveal_strlit("Origin");
    reveal_strlit("Access-Control-Allow-Origin");
    reveal_strlit("Content-Type");
    reveal_strlit("application/json");
}

/// The header lines by which a browser learns who may use the API.
pub fn cors_headers(allow_origin: Option<&str>) -> (r: Vec<Header>)
    requires
        allow_origin matches Some(o) ==> is_ascii_chars(o@),
    ensures
        header_views(r@) == cors_lines(text_of(allow_origin)),
{
    proof {
        lemma_lines_are_ascii();
    }
    let mut headers: Vec<Header> = Vec::new();
    headers.push(header("Access-Control-Allow-Methods", "POST, OPTIONS"));
    headers.push(header("Access-Control-Allow-Headers", "authorization, content-type"));
    headers.push(header("Vary", "Origin"));
    if let Some(origin) = allow_origin {
        headers.push(header("Access-Control-Allow-Origin", origin));
    }
    assert(header_views(headers@) =~= cors_lines(text_of(allow_origin)));
    headers
}

/// The method of a request, as far as the API tells them apart.
#[derive(Clone, Copy, PartialEq, Eq, Structural, Debug)]
pub enum Method {
    Get,
    Post,
    Options,
    Other,
}

/// The head of a request.
pub struct Request {
    pub method: Method,
    pub url: String,
    pub headers: Vec<Header>,
}

/// Whether both texts of a header line are ASCII.
pub open spec fn is_ascii_line(line: (Seq<char>, Seq<char>)) -> bool {
    is_ascii_chars(line.0) && is_ascii_chars(line.1)
}

/// Whether all header lines are ASCII.
pub open spec fn are_ascii_lines(lines: Seq<(Seq<char>, Seq<char>)>) -> bool {
    forall|i: int| 0 <= i < lines.len() ==> is_ascii_line(#[trigger] lines[i])
}

impl Request {
    /// A request's header lines are ASCII.
    pub open spec fn well_formed(self) -> bool {
        are_ascii_lines(header_views(self.headers@))
    }

    /// A request with the given header lines; none where one of them is not ASCII.
    pub fn new(method: Method, url: String, lines: &Vec<(String, String)>) -> (r: Option<Self>)
        ensures
            match r {
                Some(q) => {
                    &&& q.well_formed()
                    &&& q.method == method
                    &&& q.url == url
                    &&& header_views(q.headers@) == pair_views(lines@)
                },
                None => !are_ascii_lines(pair_views(lines@)),
            },
    {
        let ghost all = pair_views(lines@);
        let mut headers: Vec<Header> = Vec::new();
        let mut i: usize = 0;
        assert(header_views(headers@) =~= all.take(0));
        while i < lines.len()
            invariant
                all == pair_views(lines@),
                i <= lines@.len(),
                header_views(headers@) == all.take(i as int),
                are_ascii_lines(all.take(i as int)),
            decreases lines@.len() - i,
        {
            let ghost before = headers@;
            assert(all[i as int] == (lines@[i as int].0@, lines@[i as int].1@));
            match header_of(lines[i].0.as_str(), lines[i].1.as_str()) {
                Some(h) => {
                    headers.push(h);
                    assert(header_views(headers@) =~= header_views(before).push(h@));
                    assert(all.take(i + 1) =~= all.take(i as int).push(all[i as int]));
                },
                None => {
                    assert(!is_ascii_line(all[i as int]));
                    return None;
                },
            }
            i += 1;
        }
        assert(all.take(i as int) =~= all);
        Some(Request { method, url, headers })
    }
}

/// A reply: its status, the header lines that the API sets, and its body, if it has one.
pub struct Reply {
    pub status: u16,
    pub headers: Vec<Header>,
    pub body: Option<String>,
}

/// The header lines of a JSON reply.
pub open spec fn json_lines(allow_origin: Option<Seq<char>>) -> Seq<(Seq<char>, Seq<char>)> {
    seq![("Content-Type"@, "application/json"@)] + cors_lines(allow_origin)
}

impl Reply {
    /// Whether this is the JSON reply with the given status and body.
    pub open spec fn is_json(
        self,
        status: u16,
        body: Seq<char>,
        allow_origin: Option<Seq<char>>,
    ) -> bool {
        &&& self.status == status
        &&& header_views(self.headers@) == json_lines(allow_origin)
        &&& self.body matches Some(b) && b@ == body
    }

    /// Whether this is the reply without a body.
    pub open spec fn is_no_content(self, allow_origin: Option<Seq<char>>) -> bool {
        &&& self.status == 204
        &&& header_views(self.headers@) == cors_lines(allow_origin)
        &&& self.body is None
    }
}

/// The JSON reply with the given status and body.
pub fn json_response(status: u16, body: &str, allow_origin: Option<&str>) -> (r: Reply)
    requires
        allow_origin matches Some(o) ==> is_ascii_chars(o@),
    ensures
        r.is_json(status, body@, text_of(allow_origin)),
{
    proof {
        lemma_lines_are_ascii();
    }
    let mut headers: Vec<Header> = Vec::new();
    headers.push(header("Content-Type", "application/json"));
    let mut more = cors_headers(allow_origin);
    let ghost first = headers@;
    let ghost rest = more@;
    headers.append(&mut more);
    proof {
        assert(header_views(first) =~= seq![("Content-Type"@, "application/json"@)]);
        assert(header_views(headers@) =~= header_views(first) + header_views(rest));
    }
    Reply { status, headers, body: Some(body.to_owned()) }
}

/// A daemon: what it was started with, its settings, and whether it is to stop.
pub struct Server {
    pub config: ServerConfig,
    pub state: LiveSettings,
    pub shutdown: bool,
}

/// What is known of an admitted request: the origin to echo, and the settings as they
/// were when it was admitted.
pub struct Ticket {
    pub allow_origin: Option<String>,
    pub labels: Vec<String>,
    pub threshold: u32,
}

impl Ticket {
    /// The origin to echo is ASCII.
    pub open spec fn well_formed(self) -> bool {
        self.allow_origin matches Some(o) ==> is_ascii_chars(o@)
    }
}

/// What to do with a request.
pub enum Handling {
    /// Answer it.
    Answer(Reply),
    /// Read its body.
    Read(Ticket),
}

/// The characters of an optional string.
pub open spec fn string_view(s: Option<String>) -> Option<Seq<char>> {
    match s {
        Some(t) => Some(t@),
        None => None,
    }
}

/// Whether a request with these header lines may be served where the token is required:
/// the first `Authorization` line presents it as a bearer token.
pub open spec fn is_authorized(
    headers: Seq<(Seq<char>, Seq<char>)>,
    token: Option<Seq<char>>,
) -> bool {
    match token {
        Some(t) => first_value(headers, "Authorization"@) == Some("Bearer "@ + t),
        None => true,
    }
}

impl Server {
    /// A daemon that is to run.
    pub fn new(config: ServerConfig, state: LiveSettings) -> (r: Self)
        ensures
            r.config == config,
            r.state == state,
            !r.shutdown,
    {
        Server { config, state, shutdown: false }
    }

    /// Replaces the settings; the requests that come after see the new ones.
    pub fn retune(&mut self, state: LiveSettings)
        ensures
            final(self).state == state,
            final(self).config == old(self).config,
            final(self).shutdown == old(self).shutdown,
    {
        self.state = state;
    }

    /// Makes the daemon stop before it waits for another request.
    pub fn stop(&mut self)
        ensures
            final(self).shutdown,
            final(self).config == old(self).config,
            final(self).state == old(self).state,
    {
        self.shutdown = true;
    }

    /// How many milliseconds to wait for the next request before asking again; none
    /// where the daemon is to stop.
    pub fn poll_millis(&self) -> (r: Option<u64>)
        ensures
            r == if self.shutdown {
                None::<u64>
            } else {
                Some(250u64)
            },
    {
        if self.shutdown {
            None
        } else {
            Some(250)
        }
    }

    /// Where the daemon listens: on the loopback interface, at its port.
    pub fn address(&self) -> (r: (&'static str, u16))
        ensures
            r.0@ == "127.0.0.1"@,
            r.1 == self.config.port,
    {
        ("127.0.0.1", self.config.port)
    }

    /// What to say once the daemon listens.
    pub fn listening(&self) -> (r: String)
        ensures
            r@ == "Listening on http://127.0.0.1:"@ + decimal_digits(self.config.port as nat),
    {
        let port = decimal(self.config.port);
        join2("Listening on http://127.0.0.1:", port.as_str())
    }

    /// The error where the daemon cannot listen, for the given reason.
    pub fn bind_failed(&self, e: &str) -> (r: String)
        ensures
            r@ == "bind 127.0.0.1:"@ + decimal_digits(self.config.port as nat) + ": "@ + e@,
    {
        let port = decimal(self.config.port);
        let mut r = join3("bind 127.0.0.1:", port.as_str(), ": ");
        r.append(e);
        r
    }

    /// The origin that is echoed to a request.
    pub open spec fn echoed_to(self, request: Request) -> Option<Seq<char>> {
        echoed(
            first_value(header_views(request.headers@), "Origin"@),
            views(self.config.allowed_origins@),
        )
    }

    /// Whether this is how a request is handled. A preflight request is answered
    /// without a body, a health check without a token; what is neither and does not ask
    /// to classify is not found; and what asks to classify without the token is
    /// refused. The rest is read, with the settings as they are now.
    pub open spec fn is_handling(self, request: Request, h: Handling) -> bool {
        let allow = self.echoed_to(request);
        if request.method == Method::Options {
            h matches Handling::Answer(r) && r.is_no_content(allow)
        } else if request.method == Method::Get && request.url@ == "/health"@ {
            h matches Handling::Answer(r) && r.is_json(200, "{\"ok\":true}"@, allow)
        } else if !(request.method == Method::Post && request.url@ == "/classify"@) {
            h matches Handling::Answer(r) && r.is_json(
                404,
                "{\"error\":\"not found\"}"@,
                allow,
            )
        } else if !is_authorized(
            header_views(request.headers@),
            string_view(self.state.token),
        ) {
            h matches Handling::Answer(r) && r.is_json(
                401,
                "{\"error\":\"invalid token\"}"@,
                allow,
            )
        } else {
            &&& h matches Handling::Read(t)
            &&& t.well_formed()
            &&& string_view(t.allow_origin) == allow
            &&& views(t.labels@) == views(self.state.labels@)
            &&& t.threshold == self.state.threshold
        }
    }

    /// Whether a request presents the token, where one is required.
    fn authorizes(&self, request: &Request) -> (r: bool)
        ensures
            r == is_authorized(header_views(request.headers@), string_view(self.state.token)),
    {
        match &self.state.token {
            Some(expected) => {
                match find_header(&request.headers, "Authorization") {
                    Some(value) => {
                        let ghost wanted = "Bearer "@ + expected@;
                        match strip_prefix(value, "Bearer ") {
                            Some(presented) => {
                                assert(value@ =~= "Bearer "@ + presented@);
                                assert(wanted.skip("Bearer "@.len() as int) =~= expected@);
                                str_eq(presented.as_str(), expected.as_str())
                            },
                            None => {
                                assert("Bearer "@.is_prefix_of(wanted));
                                false
                            },
                        }
                    },
                    None => false,
                }
            },
            None => true,
        }
    }

    /// How to handle a request.
    pub fn handle(&self, request: &Request) -> (r: Handling)
        requires
            request.well_formed(),
        ensures
            self.is_handling(*request, r),
    {
        let origin = find_header(&request.headers, "Origin");
        let allow_origin = resolve_origin(origin, self.config.allowed_origins.as_slice());
        proof {
            if let Some(o) = allow_origin {
                let i = choose|i: int|
                    0 <= i < request.headers@.len() && (#[trigger] request.headers@[i]).value@
                        == o@;
                assert(is_ascii_line(header_views(request.headers@)[i]));
            }
        }
        if request.method == Method::Options {
            let headers = cors_headers(allow_origin);
            return Handling::Answer(Reply { status: 204, headers, body: None });
        }
        if request.method == Method::Get && str_eq(request.url.as_str(), "/health") {
            return Handling::Answer(json_response(200, "{\"ok\":true}", allow_origin));
        }
        if !(request.method == Method::Post && str_eq(request.url.as_str(), "/classify")) {
            return Handling::Answer(
                json_response(404, "{\"error\":\"not found\"}", allow_origin),
            );
        }
        if !self.authorizes(request) {
            return Handling::Answer(
                json_response(401, "{\"error\":\"invalid token\"}", allow_origin),
            );
        }
        let allow_origin = match allow_origin {
            Some(o) => Some(o.to_owned()),
            None => None,
        };
        let labels = self.state.labels.clone();
        assert(labels@ =~= self.state.labels@);
        Handling::Read(Ticket { allow_origin, labels, threshold: self.state.threshold })
    }
}

/// A header line of the common ones is not the one that echoes the origin.
proof fn lemma_echo_line(allow_origin: Option<Seq<char>>, v: Seq<char>)
    ensures
        cors_lines(allow_origin).contains(("Access-Control-Allow-Origin"@, v)) <==> allow_origin
            == Some(v),
        json_lines(allow_origin).contains(("Access-Control-Allow-Origin"@, v)) <==> allow_origin
            == Some(v),
{
    reveal_strlit("Access-Control-Allow-Methods");
    reveal_strlit("Access-Control-Allow-Headers");
    reveal_strlit("Vary");
    reveal_strlit("Access-Control-Allow-Origin");
    reveal_strlit("Content-Type");
    let echo = "Access-Control-Allow-Origin"@;
    assert("Access-Control-Allow-Methods"@.len() == 28);
    assert("Access-Control-Allow-Headers"@.len() == 28);
    assert("Vary"@.len() == 4);
    assert("Content-Type"@.len() == 12);
    assert(echo.len() == 27);
    let cors = cors_lines(allow_origin);
    let json = json_lines(allow_origin);
    if allow_origin == Some(v) {
        assert(cors[3] == (echo, v));
        assert(json[4] == (echo, v));
    }
    if cors.contains((echo, v)) {
        let i = choose|i: int| 0 <= i < cors.len() && cors[i] == (echo, v);
        assert(i == 3);
    }
    if json.contains((echo, v)) {
        let i = choose|i: int| 0 <= i < json.len() && json[i] == (echo, v);
        assert(i == 4);
    }
}

/// Every reply, whatever its status, carries the line that lets a browser hand it to a
/// page where, and only where, there is an origin to echo, and names that one.
pub proof fn law_replies_name_the_echoed_origin(
    reply: Reply,
    allow_origin: Option<Seq<char>>,
    origin: Seq<char>,
)
    requires
        header_views(reply.headers@) == cors_lines(allow_origin) || header_views(reply.headers@)
            == json_lines(allow_origin),
    ensures
        header_views(reply.headers@).contains(("Access-Control-Allow-Origin"@, origin))
            <==> allow_origin == Some(origin),
{
    lemma_echo_line(allow_origin, origin);
}

/// Also once a request has been read only an origin that the allow-list admits is echoed,
/// whatever the reply turns out to be.
pub proof fn law_only_allowed_origins_are_echoed_once_read(
    server: Server,
    request: Request,
    ticket: Ticket,
    reply: Reply,
    origin: Seq<char>,
)
    requires
        server.is_handling(request, Handling::Read(ticket)),
        header_views(reply.headers@) == json_lines(string_view(ticket.allow_origin)),
    ensures
        header_views(reply.headers@).contains(("Access-Control-Allow-Origin"@, origin)) <==> (
        first_value(header_views(request.headers@), "Origin"@) == Some(origin) && is_allowed(
            origin,
            views(server.config.allowed_origins@),
        )),
{
    law_replies_name_the_echoed_origin(reply, server.echoed_to(request), origin);
}

/// Only an origin that the allow-list admits is echoed: a reply to a request carries
/// the line that lets a browser hand it to a page where, and only where, the request
/// named that origin first and some entry of the allow-list admits it.
pub proof fn law_only_allowed_origins_are_echoed(
    server: Server,
    request: Request,
    reply: Reply,
    origin: Seq<char>,
)
    requires
        server.is_handling(request, Handling::Answer(reply)),
    ensures
        header_views(reply.headers@).contains(("Access-Control-Allow-Origin"@, origin)) <==> (
        first_value(header_views(request.headers@), "Origin"@) == Some(origin) && is_allowed(
            origin,
            views(server.config.allowed_origins@),
        )),
{
    law_replies_name_the_echoed_origin(reply, server.echoed_to(request), origin);
}

/// Nothing is read, and so nothing scanned, for a client that does not present the
/// token where there is one: it is refused, whatever else the request holds.
pub proof fn law_no_scan_without_token(server: Server, request: Request, h: Handling)
    requires
        server.is_handling(request, h),
        !is_authorized(header_views(request.headers@), string_view(server.state.token)),
    ensures
        h is Answer,
        request.method == Method::Post && request.url@ == "/classify"@ ==> h->Answer_0.status
            == 401,
{
}

/// Only a request that posts to the one path that classifies is read.
pub proof fn law_only_classify_is_read(server: Server, request: Request, t: Ticket)
    requires
        server.is_handling(request, Handling::Read(t)),
    ensures
        request.method == Method::Post,
        request.url@ == "/classify"@,
        is_authorized(header_views(request.headers@), string_view(server.state.token)),
{
}

/// The settings decide only how a request to classify is handled: every other request
/// is answered the same whatever they are, a health check with no token at all.
pub proof fn law_settings_only_matter_to_classify(
    server: Server,
    other: Server,
    request: Request,
    h: Handling,
)
    requires
        server.config == other.config,
        !(request.method == Method::Post && request.url@ == "/classify"@),
    ensures
        server.is_handling(request, h) <==> other.is_handling(request, h),
        request.method == Method::Get && request.url@ == "/health"@ && server.is_handling(
            request,
            h,
        ) ==> h is Answer && h->Answer_0.status == 200,
{
}

/// Every reply at this stage has one of four statuses, and all but the reply to a
/// preflight request are JSON.
pub proof fn law_answers_are_json(server: Server, request: Request, reply: Reply)
    requires
        server.is_handling(request, Handling::Answer(reply)),
    ensures
        reply.status == 204 || reply.status == 200 || reply.status == 404 || reply.status == 401,
        reply.status == 204 <==> request.method == Method::Options,
        reply.status != 204 ==> reply.body is Some && header_views(reply.headers@)
            == json_lines(server.echoed_to(request)),
{
}

/// A daemon whose allow-list is the default one echoes the pinned origin and no other.
pub proof fn law_default_allow_list_pins_the_origin(origin: Seq<char>)
    ensures
        is_allowed(origin, seq![DEFAULT_EXTENSION_ORIGIN@]) <==> origin
            == DEFAULT_EXTENSION_ORIGIN@,
{
    let allowed = seq![DEFAULT_EXTENSION_ORIGIN@];
    reveal_strlit("chrome-extension://ihjamhkkcgbifajnbikldcjfamggnbaj");
    assert(DEFAULT_EXTENSION_ORIGIN@.last() == 'j');
    assert(allowed[0] == DEFAULT_EXTENSION_ORIGIN@);
}

/// An entry that ends in an asterisk admits exactly the origins that begin with what
/// stands before it.
pub proof fn law_asterisk_admits_by_prefix(prefix: Seq<char>, origin: Seq<char>)
    ensures
        admits(prefix.push('*'), origin) <==> prefix.is_prefix_of(origin),
{
    assert(prefix.push('*').drop_last() =~= prefix);
}

/// Field names are compared without regard to the case of ASCII letters, and to nothing
/// else: two are the same where, character by character, they agree or are the upper and
/// the lower case of one letter.
pub proof fn law_field_names_ignore_case(a: Seq<char>, b: Seq<char>)
    ensures
        is_same_field(a, b) <==> a.len() == b.len() && forall|i: int|
            #![trigger a[i]]
            0 <= i < a.len() ==> {
                ||| a[i] == b[i]
                ||| 'A' <= a[i] <= 'Z' && b[i] as int == a[i] as int + 32
                ||| 'A' <= b[i] <= 'Z' && a[i] as int == b[i] as int + 32
            },
{
    if a.len() == b.len() {
        assert forall|i: int| #![trigger a[i]] 0 <= i < a.len() implies (ascii_lower(a[i])
            == ascii_lower(b[i])) == {
            ||| a[i] == b[i]
            ||| 'A' <= a[i] <= 'Z' && b[i] as int == a[i] as int + 32
            ||| 'A' <= b[i] <= 'Z' && a[i] as int == b[i] as int + 32
        } by {
            lemma_lower_agrees(a[i], b[i]);
        }
    }
}

/// Two characters have one lower case where they agree or are the two cases of a letter.
proof fn lemma_lower_agrees(c: char, d: char)
    ensures
        ascii_lower(c) == ascii_lower(d) <==> {
            ||| c == d
            ||| 'A' <= c <= 'Z' && d as int == c as int + 32
            ||| 'A' <= d <= 'Z' && c as int == d as int + 32
        },
{
}

/// Of several lines with a field the first one counts: its value is found, and none where
/// no line has the field.
pub proof fn law_first_line_counts(headers: Seq<(Seq<char>, Seq<char>)>, field: Seq<char>) -> (i:
    int)
    ensures
        first_value(headers, field) matches Some(v) ==> {
            &&& 0 <= i < headers.len()
            &&& is_same_field(headers[i].0, field)
            &&& headers[i].1 == v
            &&& forall|j: int| 0 <= j < i ==> !is_same_field((#[trigger] headers[j]).0, field)
        },
        first_value(headers, field) is None <==> forall|j: int|
            0 <= j < headers.len() ==> !is_same_field((#[trigger] headers[j]).0, field),
    decreases headers.len(),
{
    if headers.len() == 0 {
        0
    } else if is_same_field(headers[0].0, field) {
        0
    } else {
        let rest = headers.drop_first();
        let i = law_first_line_counts(rest, field);
        assert forall|j: int| 0 < j < headers.len() implies #[trigger] headers[j] == rest[j
            - 1] by {}
        if first_value(rest, field) is None {
            assert forall|j: int| 0 <= j < headers.len() implies !is_same_field(
                (#[trigger] headers[j]).0,
                field,
            ) by {
                if j > 0 {
                    assert(!is_same_field(rest[j - 1].0, field));
                }
            }
        } else {
            assert(headers[i + 1] == rest[i]);
            assert forall|j: int| 0 <= j < i + 1 implies !is_same_field(
                (#[trigger] headers[j]).0,
                field,
            ) by {
                if j > 0 {
                    assert(!is_same_field(rest[j - 1].0, field));
                }
            }
        }
        i + 1
    }
}

/// An entry that does not end in an asterisk admits itself and nothing else, and a list
/// admits what one of its entries does.
pub proof fn law_list_admits_what_an_entry_does(
    entry: Seq<char>,
    origin: Seq<char>,
    a: Seq<Seq<char>>,
    b: Seq<Seq<char>>,
)
    ensures
        entry.len() == 0 || entry[entry.len() - 1] != '*' ==> (admits(entry, origin) <==> entry
            == origin),
        is_allowed(origin, seq![entry]) <==> admits(entry, origin),
        is_allowed(origin, a + b) <==> is_allowed(origin, a) || is_allowed(origin, b),
        !is_allowed(origin, Seq::empty()),
{
    let one = seq![entry];
    assert(one[0] == entry);
    let all = a + b;
    if is_allowed(origin, a) {
        let i = choose|i: int| 0 <= i < a.len() && admits(#[trigger] a[i], origin);
        assert(all[i] == a[i]);
    }
    if is_allowed(origin, b) {
        let i = choose|i: int| 0 <= i < b.len() && admits(#[trigger] b[i], origin);
        assert(all[a.len() + i] == b[i]);
    }
    if is_allowed(origin, all) {
        let i = choose|i: int| 0 <= i < all.len() && admits(#[trigger] all[i], origin);
        if i < a.len() {
            assert(a[i] == all[i]);
        } else {
            assert(b[i - a.len()] == all[i]);
        }
    }
}

/// How each request is answered. A preflight request gets 204 and no body; a health check
/// gets 200 without a token; what does not post to the one path gets 404; what does, but
/// without the bearer token in its first line of authorization, where there is a token,
/// gets 401. Everything else, and nothing else, is read, with the labels and the threshold
/// of the settings.
pub proof fn law_every_request_gets_its_answer(server: Server, request: Request, h: Handling)
    requires
        server.is_handling(request, h),
    ensures
        ({
            let lines = header_views(request.headers@);
            let asks = request.method == Method::Post && request.url@ == "/classify"@;
            let may = match server.state.token {
                Some(t) => first_value(lines, "Authorization"@) == Some("Bearer "@ + t@),
                None => true,
            };
            &&& h is Read <==> asks && may
            &&& h matches Handling::Read(t) ==> {
                &&& t.threshold == server.state.threshold
                &&& views(t.labels@) == views(server.state.labels@)
            }
            &&& h matches Handling::Answer(r) ==> {
                &&& request.method == Method::Options ==> r.status == 204 && r.body is None
                &&& request.method == Method::Get && request.url@ == "/health"@ ==> {
                    &&& r.status == 200
                    &&& r.body matches Some(b) && b@ == "{\"ok\":true}"@
                }
                &&& request.method != Method::Options && !(request.method == Method::Get
                    && request.url@ == "/health"@) && !asks ==> {
                    &&& r.status == 404
                    &&& r.body matches Some(b) && b@ == "{\"error\":\"not found\"}"@
                }
                &&& asks ==> {
                    &&& r.status == 401
                    &&& r.body matches Some(b) && b@ == "{\"error\":\"invalid token\"}"@
                }
            }
        }),
{
}

/// Every reply tells a browser the methods and the fields that may be used, and that it
/// depends on the origin; one with a body is JSON; and there is no line but these and the
/// one that echoes the origin.
pub proof fn law_replies_carry_their_lines(allow_origin: Option<Seq<char>>)
    ensures
        ({
            let cors = cors_lines(allow_origin);
            let json = json_lines(allow_origin);
            &&& cors.contains(("Access-Control-Allow-Methods"@, "POST, OPTIONS"@))
            &&& cors.contains(("Access-Control-Allow-Headers"@, "authorization, content-type"@))
            &&& cors.contains(("Vary"@, "Origin"@))
            &&& cors.len() == if allow_origin is Some {
                4int
            } else {
                3int
            }
            &&& json.len() == cors.len() + 1
            &&& json[0] == ("Content-Type"@, "application/json"@)
            &&& json.skip(1) == cors
        }),
{
    let cors = cors_lines(allow_origin);
    assert(cors[0] == ("Access-Control-Allow-Methods"@, "POST, OPTIONS"@));
    assert(cors[1] == ("Access-Control-Allow-Headers"@, "authorization, content-type"@));
    assert(cors[2] == ("Vary"@, "Origin"@));
    assert(json_lines(allow_origin).skip(1) =~= cors);
}

/// Header lines are ASCII exactly where every character of every field and value is.
pub proof fn law_lines_are_ascii_throughout(lines: Seq<(Seq<char>, Seq<char>)>)
    ensures
        are_ascii_lines(lines) <==> forall|i: int|
            0 <= i < lines.len() ==> is_ascii_chars((#[trigger] lines[i]).0) && is_ascii_chars(
                lines[i].1,
            ),
{
    if are_ascii_lines(lines) {
        assert forall|i: int| 0 <= i < lines.len() implies is_ascii_chars((#[trigger] lines[i]).0)
            && is_ascii_chars(lines[i].1) by {
            assert(is_ascii_line(lines[i]));
        }
    }
}

/// The origin of a request is echoed exactly as it is, where the list admits it, and
/// nothing is echoed to a request without one.
pub proof fn law_origin_is_echoed_as_it_is(origin: Seq<char>, allowed: Seq<Seq<char>>)
    ensures
        is_allowed(origin, allowed) ==> echoed(Some(origin), allowed) == Some(origin),
        !is_allowed(origin, allowed) ==> echoed(Some(origin), allowed) is None,
        echoed(None, allowed) is None,
{
}

} // verus!
