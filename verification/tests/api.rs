use clipcloak::classify::{Body, ClassifyReq};
use clipcloak::config::{LiveSettings, ServerConfig, DEFAULT_EXTENSION_ORIGIN};
use clipcloak::entity::ExtractedEntity;
use clipcloak::http::{
    cors_headers, find_header, header, json_response, resolve_origin, same_field, Handling, Header,
    Method, Reply, Request, Server, Ticket,
};

fn strings(v: &[&str]) -> Vec<String> {
    v.iter().map(|s| s.to_string()).collect()
}

fn lines(headers: &[Header]) -> Vec<(&str, &str)> {
    headers.iter().map(|h| (h.field.as_str(), h.value.as_str())).collect()
}

fn request(method: Method, url: &str, headers: &[(&str, &str)]) -> Request {
    let headers: Vec<(String, String)> =
        headers.iter().map(|(f, v)| (f.to_string(), v.to_string())).collect();
    Request::new(method, url.to_string(), &headers).unwrap()
}

fn server(token: Option<&str>) -> Server {
    let state = LiveSettings { token: token.map(|t| t.to_string()), ..LiveSettings::default() };
    Server::new(ServerConfig::default(), state)
}

fn answer(server: &Server, request: &Request) -> Reply {
    match server.handle(request) {
        Handling::Answer(reply) => reply,
        Handling::Read(_) => panic!("read"),
    }
}

fn ticket(server: &Server, request: &Request) -> Ticket {
    match server.handle(request) {
        Handling::Answer(reply) => panic!("{}", reply.status),
        Handling::Read(ticket) => ticket,
    }
}

fn ent(label: &str, score: f32, start: usize, end: usize) -> ExtractedEntity {
    ExtractedEntity {
        text: label.to_string(),
        label: label.to_string(),
        score: score.to_bits(),
        start_tok: 0,
        end_tok: 1,
        start_char: start,
        end_char: end,
    }
}

fn open_ticket() -> Ticket {
    ticket(&server(None), &request(Method::Post, "/classify", &[]))
}

const COMMON: [(&str, &str); 3] = [
    ("Access-Control-Allow-Methods", "POST, OPTIONS"),
    ("Access-Control-Allow-Headers", "authorization, content-type"),
    ("Vary", "Origin"),
];

#[test]
fn an_exact_origin_is_echoed() {
    let allowed = strings(&[DEFAULT_EXTENSION_ORIGIN]);
    assert_eq!(
        resolve_origin(Some(DEFAULT_EXTENSION_ORIGIN), &allowed),
        Some("chrome-extension://ihjamhkkcgbifajnbikldcjfamggnbaj")
    );
    assert_eq!(resolve_origin(Some("https://example.org"), &allowed), None);
    assert_eq!(resolve_origin(None, &allowed), None);
    assert_eq!(resolve_origin(Some("x"), &[]), None);
}

#[test]
fn an_asterisk_admits_every_origin_with_the_prefix() {
    let allowed = strings(&["moz-extension://*"]);
    assert!(resolve_origin(Some("moz-extension://0a1b"), &allowed).is_some());
    assert!(resolve_origin(Some("moz-extension://"), &allowed).is_some());
    assert!(resolve_origin(Some("moz-extension:/"), &allowed).is_none());
    assert!(resolve_origin(Some("anything"), &strings(&["*"])).is_some());
    assert!(resolve_origin(Some("a*b"), &strings(&["a**"])).is_some());
    assert!(resolve_origin(Some("ab"), &strings(&["a**"])).is_none());
}

#[test]
fn field_names_ignore_the_case_of_ascii_letters() {
    assert!(same_field("Origin", "oRIGIN"));
    assert!(!same_field("Origin", "Origins"));
    assert!(!same_field("@", "`"));
    assert!(!same_field("[", "{"));
}

#[test]
fn the_first_header_with_the_field_counts() {
    let q = request(Method::Get, "/", &[("A", "1"), ("ORIGIN", "2"), ("origin", "3")]);
    assert_eq!(find_header(&q.headers, "Origin"), Some("2"));
    assert_eq!(find_header(&q.headers, "Vary"), None);
}

#[test]
fn headers_that_are_not_ascii_are_refused() {
    let bad = vec![("A".to_string(), "b".to_string()), ("Origin".to_string(), "caf\u{e9}".to_string())];
    assert!(Request::new(Method::Get, "/".to_string(), &bad).is_none());
    let bad = vec![("\u{e9}".to_string(), "b".to_string())];
    assert!(Request::new(Method::Get, "/".to_string(), &bad).is_none());
    let good = vec![("A".to_string(), "b".to_string())];
    let q = Request::new(Method::Get, "/".to_string(), &good).unwrap();
    assert_eq!(lines(&q.headers), vec![("A", "b")]);
}

#[test]
fn a_header_holds_its_field_and_value() {
    let h = header("Content-Type", "application/json");
    assert_eq!((h.field.as_str(), h.value.as_str()), ("Content-Type", "application/json"));
}

#[test]
fn cors_lines_end_with_the_echoed_origin() {
    assert_eq!(lines(&cors_headers(None)), COMMON.to_vec());
    let mut all = COMMON.to_vec();
    all.push(("Access-Control-Allow-Origin", "o"));
    assert_eq!(lines(&cors_headers(Some("o"))), all);
}

#[test]
fn json_replies_say_so() {
    let r = json_response(413, "{}", Some("o"));
    assert_eq!(r.status, 413);
    assert_eq!(r.body.as_deref(), Some("{}"));
    assert_eq!(lines(&r.headers)[0], ("Content-Type", "application/json"));
    assert_eq!(lines(&r.headers)[4], ("Access-Control-Allow-Origin", "o"));
    assert_eq!(r.headers.len(), 5);
}

#[test]
fn a_preflight_request_is_answered_without_a_body() {
    let r = answer(&server(Some("t")), &request(Method::Options, "/anything", &[]));
    assert_eq!(r.status, 204);
    assert!(r.body.is_none());
    assert_eq!(lines(&r.headers), COMMON.to_vec());
}

#[test]
fn a_health_check_needs_no_token() {
    let q = request(Method::Get, "/health", &[("Origin", DEFAULT_EXTENSION_ORIGIN)]);
    let r = answer(&server(Some("t")), &q);
    assert_eq!(r.status, 200);
    assert_eq!(r.body.as_deref(), Some("{\"ok\":true}"));
    assert!(lines(&r.headers).contains(&("Access-Control-Allow-Origin", DEFAULT_EXTENSION_ORIGIN)));
}

#[test]
fn other_requests_are_not_found() {
    let s = server(None);
    for q in [
        request(Method::Get, "/classify", &[]),
        request(Method::Post, "/health", &[]),
        request(Method::Post, "/classify/", &[]),
        request(Method::Other, "/classify", &[]),
        request(Method::Get, "/", &[]),
    ] {
        let r = answer(&s, &q);
        assert_eq!(r.status, 404);
        assert_eq!(r.body.as_deref(), Some("{\"error\":\"not found\"}"));
    }
}

#[test]
fn a_wrong_token_is_refused() {
    let s = server(Some("secret"));
    for headers in [
        vec![],
        vec![("Authorization", "Bearer other")],
        vec![("Authorization", "bearer secret")],
        vec![("Authorization", "secret")],
        vec![("Authorization", "Bearer secret ")],
        vec![("Authorization", "Bearer x"), ("Authorization", "Bearer secret")],
    ] {
        let r = answer(&s, &request(Method::Post, "/classify", &headers));
        assert_eq!(r.status, 401);
        assert_eq!(r.body.as_deref(), Some("{\"error\":\"invalid token\"}"));
    }
}

#[test]
fn the_right_token_is_admitted() {
    let s = server(Some("secret"));
    let q = request(
        Method::Post,
        "/classify",
        &[("authorization", "Bearer secret"), ("Origin", DEFAULT_EXTENSION_ORIGIN)],
    );
    let t = ticket(&s, &q);
    assert_eq!(t.allow_origin.as_deref(), Some(DEFAULT_EXTENSION_ORIGIN));
    assert_eq!(t.labels, LiveSettings::default().labels);
    assert_eq!(f32::from_bits(t.threshold), 0.55);
}

#[test]
fn an_origin_that_is_not_allowed_is_served_but_not_echoed() {
    let q = request(Method::Get, "/health", &[("Origin", "https://example.org")]);
    let r = answer(&server(None), &q);
    assert_eq!(r.status, 200);
    assert!(lines(&r.headers).iter().all(|l| l.0 != "Access-Control-Allow-Origin"));
}

#[test]
fn settings_change_while_the_daemon_runs() {
    let mut s = server(None);
    let q = request(Method::Post, "/classify", &[]);
    ticket(&s, &q);
    s.retune(LiveSettings { token: Some("t".to_string()), ..LiveSettings::default() });
    assert_eq!(answer(&s, &q).status, 401);
    assert_eq!(s.config.port, 8731);
}

#[test]
fn a_daemon_polls_until_it_is_stopped() {
    let mut s = server(None);
    assert_eq!(s.poll_millis(), Some(250));
    s.stop();
    assert_eq!(s.poll_millis(), None);
}

#[test]
fn a_daemon_says_where_it_listens() {
    let s = server(None);
    assert_eq!(s.address(), ("127.0.0.1", 8731));
    assert_eq!(s.listening(), "Listening on http://127.0.0.1:8731");
    assert_eq!(s.bind_failed("in use"), "bind 127.0.0.1:8731: in use");
}

#[test]
fn bodies_that_are_no_requests_are_answered() {
    let t = open_ticket();
    let r = t.open(&Body::Unreadable).err().unwrap();
    assert_eq!((r.status, r.body.as_deref()), (400, Some("{\"error\":\"bad body\"}")));
    let r = t.open(&Body::NotJson("EOF".to_string())).err().unwrap();
    assert_eq!((r.status, r.body.as_deref()), (400, Some("{\"error\":\"bad json: EOF\"}")));
}

#[test]
fn texts_are_refused_above_the_limit() {
    let t = open_ticket();
    let large = Body::Asked(ClassifyReq { text: "x".repeat(40_001), threshold: None });
    let r = t.open(&large).err().unwrap();
    assert_eq!((r.status, r.body.as_deref()), (413, Some("{\"error\":\"text too large\"}")));
    let wide = Body::Asked(ClassifyReq { text: "\u{e9}".repeat(20_001), threshold: None });
    assert_eq!(t.open(&wide).err().unwrap().status, 413);
    let fits = Body::Asked(ClassifyReq { text: "x".repeat(40_000), threshold: None });
    assert!(t.open(&fits).is_ok());
}

#[test]
fn the_threshold_of_the_request_goes_first() {
    let t = open_ticket();
    let own = Body::Asked(ClassifyReq { text: "x".to_string(), threshold: Some(0.3f32.to_bits()) });
    assert_eq!(f32::from_bits(t.open(&own).ok().unwrap().params.threshold), 0.3);
    let none = Body::Asked(ClassifyReq { text: "x".to_string(), threshold: None });
    let sweep = t.open(&none).ok().unwrap();
    assert_eq!(f32::from_bits(sweep.params.threshold), 0.55);
    assert!(sweep.params.flat_ner);
}

#[test]
fn a_model_failure_is_answered_and_ends_the_scan() {
    let t = open_ticket();
    let body = Body::Asked(ClassifyReq { text: "x".repeat(4000), threshold: None });
    let mut sweep = t.open(&body).ok().unwrap();
    assert_eq!(sweep.windows.len(), 4);
    assert!(sweep.take(Ok(vec![ent("name", 0.9, 0, 3)])).is_none());
    assert!(sweep.next().is_some());
    let r = sweep.take(Err("no memory".to_string())).unwrap();
    assert_eq!((r.status, r.body.as_deref()), (500, Some("{\"error\":\"infer: no memory\"}")));
    assert!(sweep.failed);
    assert!(sweep.next().is_none());
}

#[test]
fn an_answer_carries_its_body() {
    let r = open_ticket().answer("{\"parts\":1}");
    assert_eq!((r.status, r.body.as_deref()), (200, Some("{\"parts\":1}")));
}

#[test]
fn a_short_text_is_redacted_in_one_part() {
    let t = open_ticket();
    let body = Body::Asked(ClassifyReq { text: "I am Ann.".to_string(), threshold: None });
    let mut sweep = t.open(&body).ok().unwrap();
    assert_eq!(sweep.next(), Some("I am Ann."));
    let found = vec![ent("name", 0.9, 5, 8), ent("username", 0.6, 5, 8)];
    assert!(sweep.countable(&found));
    assert!(sweep.take(Ok(found)).is_none());
    assert_eq!(sweep.next(), None);
    assert!(sweep.redactable());
    let r = sweep.finish();
    assert_eq!(r.redacted, "I am [NAME].");
    assert_eq!(r.parts, 1);
    assert_eq!(r.entities.len(), 1);
    let e = &r.entities[0];
    assert_eq!((e.label.as_str(), e.text.as_str(), e.start, e.end), ("name", "name", 5, 8));
    assert_eq!(f32::from_bits(e.score), 0.9);
}

#[test]
fn nothing_found_leaves_the_text_as_it_is() {
    let t = open_ticket();
    let body = Body::Asked(ClassifyReq { text: "plain".to_string(), threshold: None });
    let mut sweep = t.open(&body).ok().unwrap();
    assert!(sweep.take(Ok(vec![])).is_none());
    let r = sweep.finish();
    assert_eq!(r.redacted, "plain");
    assert!(r.entities.is_empty());
}

#[test]
fn what_two_windows_find_is_pooled_once() {
    let t = open_ticket();
    let text = format!("{}Ann{}", "x".repeat(1300), "y".repeat(500));
    let body = Body::Asked(ClassifyReq { text: text.clone(), threshold: None });
    let mut sweep = t.open(&body).ok().unwrap();
    let mut offset = 0;
    let mut parts = 0;
    while let Some(window) = sweep.next() {
        let at = window.find("Ann").unwrap();
        assert_eq!(&text[offset + at..offset + at + 3], "Ann");
        let found = vec![ent("name", 0.9, at, at + 3)];
        assert!(sweep.countable(&found));
        assert!(sweep.take(Ok(found)).is_none());
        offset += 1200;
        parts += 1;
    }
    assert_eq!(parts, 2);
    assert_eq!(sweep.pooled.len(), 2);
    assert!(sweep.redactable());
    let r = sweep.finish();
    assert_eq!(r.parts, 2);
    assert_eq!(r.entities.len(), 1);
    assert_eq!((r.entities[0].start, r.entities[0].end), (1300, 1303));
    assert_eq!(r.redacted, format!("{}[NAME]{}", "x".repeat(1300), "y".repeat(500)));
}

#[test]
fn spans_that_cannot_be_counted_or_redacted_are_told() {
    let t = open_ticket();
    let body = Body::Asked(ClassifyReq { text: "\u{e9}".repeat(800), threshold: None });
    let mut sweep = t.open(&body).ok().unwrap();
    assert!(sweep.countable(&vec![ent("a", 0.9, usize::MAX, usize::MAX)]));
    assert!(sweep.take(Ok(vec![])).is_none());
    assert!(!sweep.countable(&vec![ent("a", 0.9, 0, usize::MAX)]));
    assert!(sweep.take(Ok(vec![ent("a", 0.9, 1, 3)])).is_none());
    assert!(!sweep.redactable());
    let mut sweep = t.open(&body).ok().unwrap();
    assert!(sweep.take(Ok(vec![ent("a", 0.9, 4, 2), ent("b", 0.9, 4, 6)])).is_none());
    assert!(!sweep.redactable());
}

#[test]
fn scores_that_are_no_numbers_are_redacted_where_spans_lie_well() {
    let t = open_ticket();
    let body = Body::Asked(ClassifyReq { text: "\u{e9}abc".to_string(), threshold: None });
    let mut sweep = t.open(&body).ok().unwrap();
    assert!(sweep.take(Ok(vec![ent("a", f32::NAN, 2, 4), ent("b", 0.9, 0, 2)])).is_none());
    assert!(sweep.redactable());
    assert_eq!(sweep.finish().redacted, "[B][A]c");
    let mut sweep = t.open(&body).ok().unwrap();
    assert!(sweep.take(Ok(vec![ent("a", f32::NAN, 1, 4)])).is_none());
    assert!(!sweep.redactable());
}

#[test]
fn by_default_only_the_pinned_origin_is_echoed() {
    let allowed = ServerConfig::default().allowed_origins;
    assert!(resolve_origin(Some(DEFAULT_EXTENSION_ORIGIN), &allowed).is_some());
    for other in ["", "chrome-extension://", "chrome-extension://ihjamhkkcgbifajnbikldcjfamggnbajx", "null"] {
        assert!(resolve_origin(Some(other), &allowed).is_none());
    }
}

#[test]
fn every_reply_to_a_request_that_was_read_echoes_its_origin() {
    let q = request(Method::Post, "/classify", &[("Origin", DEFAULT_EXTENSION_ORIGIN)]);
    let t = ticket(&server(None), &q);
    let large = Body::Asked(ClassifyReq { text: "x".repeat(40_001), threshold: None });
    let small = Body::Asked(ClassifyReq { text: "x".to_string(), threshold: None });
    let replies = vec![
        t.open(&Body::Unreadable).err().unwrap(),
        t.open(&Body::NotJson("e".to_string())).err().unwrap(),
        t.open(&large).err().unwrap(),
        t.open(&small).ok().unwrap().take(Err("e".to_string())).unwrap(),
        t.answer("{}"),
    ];
    assert_eq!(replies.iter().map(|r| r.status).collect::<Vec<_>>(), vec![400, 400, 413, 500, 200]);
    for r in &replies {
        assert!(lines(&r.headers).contains(&("Access-Control-Allow-Origin", DEFAULT_EXTENSION_ORIGIN)));
    }
    for r in [open_ticket().answer("{}"), open_ticket().open(&large).err().unwrap()] {
        assert!(lines(&r.headers).iter().all(|l| l.0 != "Access-Control-Allow-Origin"));
    }
}
