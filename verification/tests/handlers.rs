use flamer::annotations::{
    auth_check, cors_is_allowed, path_filter_matches, path_filter_param, path_filter_user_id, query_get,
    ActiveAnnotationState,
};
use flamer::request::{response_create, Request, Response};
use flamer::server::{
    classify_body, content_type_is_text_plain, fallback_body, fallback_wants_json, init, BodyRewrite,
    ContentKind, FALLBACK_HTML_HEAD, FALLBACK_HTML_TAIL,
};

fn s(x: &str) -> String {
    x.to_string()
}

#[test]
fn request_accessors() {
    let r = Request::new(s("payload"), s("POST"), s("/api/echo"), s("a=1&b=two"));
    assert_eq!(r.body(), "payload");
    assert_eq!(r.method(), "POST");
    assert_eq!(r.path(), "/api/echo");
    assert_eq!(r.query(), "a=1&b=two");
    assert_eq!(r.query_param(s("b")), "two");
    assert_eq!(r.query_param(s("c")), "");
    assert!(r.has_query(s("a")));
    assert!(!r.has_query(s("c")));
    let empty = Request::new(s(""), s("GET"), s("/"), s("flag"));
    assert!(empty.has_query(s("flag")));
    assert!(!empty.has_query(s("fla")));
    let blank = Request::new(s(""), s("GET"), s("/"), s("?a=&b=1"));
    assert!(blank.has_query(s("a")));
    assert_eq!(blank.query_param(s("a")), "");
}

#[test]
fn response_constructors() {
    let r = Response::new(s("hi"));
    assert_eq!((r.status(), r.content_type(), r.body()), (200, s("text/plain"), s("hi")));
    assert_eq!(Response::json(s("{}")).content_type(), "application/json");
    assert_eq!(Response::html(s("<p/>")).content_type(), "text/html");
    assert_eq!(Response::text(s("t")).content_type(), "text/plain");
    let mut m = Response::text(s("t"));
    m.set_status(404);
    m.set_content_type(s("application/xml"));
    assert_eq!((m.status(), m.content_type(), m.body()), (404, s("application/xml"), s("t")));
    let c = response_create(s("b"), 201, s("text/csv"));
    assert_eq!((c.body, c.status, c.content_type), (s("b"), 201, s("text/csv")));
}

#[test]
fn annotation_registration() {
    let mut st = ActiveAnnotationState::empty();
    st.register_query(s("page"), s("1"));
    st.register_path_filter(s("/users/:userId"));
    st.register_auth(s("admin"));
    st.register_cors(s("*"), s("GET"), s("X-Token"));
    st.register_middleware(s("logger"));
    assert_eq!(st.query_key, "page");
    assert_eq!(st.query_default, "1");
    assert_eq!(st.path_filter_pattern, "/users/:userId");
    assert_eq!(st.auth_role, "admin");
    assert_eq!((st.cors_origin.as_str(), st.cors_methods.as_str(), st.cors_headers.as_str()), ("*", "GET", "X-Token"));
    assert_eq!(st.middleware_name, "logger");
}

#[test]
fn query_get_cases() {
    let mut st = ActiveAnnotationState::empty();
    st.register_query(s("name"), s("anon"));
    assert_eq!(query_get(&st, s(""), s("")), "anon");
    assert_eq!(query_get(&st, s("other=1"), s("name=zed")), "anon");
    assert_eq!(query_get(&st, s(""), s("name=zed")), "zed");
    assert_eq!(query_get(&st, s("name=%22quoted%22"), s("")), "quoted");
    assert_eq!(query_get(&st, s("name=+%22x%22+"), s("")), "x");
    assert_eq!(query_get(&st, s("name=%22"), s("")), "\"");
    assert_eq!(query_get(&st, s("name=John+Doe"), s("")), "John Doe");
    assert_eq!(query_get(&st, s("name=John%2BDoe"), s("")), "John Doe");
    assert_eq!(query_get(&st, s("name=a%3Db"), s("")), "a=b");
}

#[test]
fn path_filter_annotation_cases() {
    let mut st = ActiveAnnotationState::empty();
    st.register_path_filter(s("/users/:userId"));
    assert!(path_filter_matches(&st, s("/users/7"), s("/other")));
    assert!(!path_filter_matches(&st, s(""), s("/other")));
    assert!(path_filter_matches(&st, s(""), s("")));
    assert_eq!(path_filter_user_id(&st, s("/users/7"), s("")), "7");
    assert_eq!(path_filter_user_id(&st, s(""), s("/users/9")), "9");
    assert_eq!(path_filter_user_id(&st, s(""), s("")), "1");
    assert_eq!(path_filter_param(&st, s("userId"), s("/users/3")), "3");
    assert_eq!(path_filter_param(&st, s("x"), s("/users/3")), "");
}

#[test]
fn auth_cases() {
    let mut st = ActiveAnnotationState::empty();
    st.register_auth(s("user"));
    assert!(auth_check(Some(&st), s(""), s("")));
    assert!(auth_check(Some(&st), s("user"), s("role=admin")));
    assert!(!auth_check(Some(&st), s(""), s("role=admin")));
    assert!(!auth_check(Some(&st), s("admin"), s("")));
    assert!(auth_check(None, s("admin"), s("")));
    assert!(auth_check(None, s(""), s("role=admin")));
    assert!(!auth_check(None, s(""), s("")));
    assert!(cors_is_allowed(s("https://example.com")));
}

#[test]
fn server_configuration() {
    let mut srv = init();
    assert_eq!((srv.port(), srv.host()), (3000, s("127.0.0.1")));
    assert!(srv.uses_default_fallback());
    srv.set_port(8080);
    srv.set_host(s("0.0.0.0"));
    srv.fallback();
    assert_eq!((srv.port(), srv.host()), (8080, s("0.0.0.0")));
    assert!(!srv.uses_default_fallback());
    srv.set_port(65536 + 81);
    assert_eq!(srv.port(), 81);
    srv.set_port(-1);
    assert_eq!(srv.port(), 65535);
    assert_eq!(srv.json(s("[1, 2]")), "<!--flamer:json-->[1,2]");
    assert_eq!(srv.html(s("x")), "<!--flamer:html-->x");
    assert_eq!(srv.text(s("x")), "x");
}

fn kind_is_html(k: &ContentKind) -> bool {
    matches!(k, ContentKind::Html)
}

#[test]
fn body_classification() {
    match classify_body("<!--flamer:html--><p>x</p>", false) {
        BodyRewrite::Strip(k, rest) => assert!(kind_is_html(&k) && rest == "<p>x</p>"),
        _ => panic!("expected html marker"),
    }
    match classify_body("<!--flamer:json-->{\"a\":1}", false) {
        BodyRewrite::Strip(k, rest) => assert!(!kind_is_html(&k) && rest == "{\"a\":1}"),
        _ => panic!("expected json marker"),
    }
    assert!(matches!(classify_body("  <!DOCTYPE html><p>", true), BodyRewrite::Label(ContentKind::Html)));
    assert!(matches!(classify_body("<b>bold</b>", true), BodyRewrite::Label(ContentKind::Html)));
    assert!(matches!(classify_body("<br>", true), BodyRewrite::Label(ContentKind::Html)));
    assert!(matches!(classify_body("<br", true), BodyRewrite::Keep));
    assert!(matches!(classify_body(" {\"a\": [1]} ", true), BodyRewrite::Label(ContentKind::Json)));
    assert!(matches!(classify_body("[1,2]", true), BodyRewrite::Label(ContentKind::Json)));
    assert!(matches!(classify_body("{not json}", true), BodyRewrite::Keep));
    assert!(matches!(classify_body("<html>", false), BodyRewrite::Keep));
    assert!(matches!(classify_body("plain words", true), BodyRewrite::Keep));
}

#[test]
fn text_plain_header() {
    assert!(content_type_is_text_plain(Some(b"text/plain; charset=utf-8")));
    assert!(content_type_is_text_plain(Some(b"text/plain")));
    assert!(!content_type_is_text_plain(Some(b"text/html")));
    assert!(!content_type_is_text_plain(Some(b"text/plai")));
    assert!(!content_type_is_text_plain(None));
}

#[test]
fn fallback_cases() {
    assert!(fallback_wants_json(Some(s("text/html, application/json")), s("/x")));
    assert!(fallback_wants_json(None, s("/api/users")));
    assert!(!fallback_wants_json(None, s("/apis")));
    assert!(!fallback_wants_json(None, s("/apidocs")));
    assert!(fallback_wants_json(None, s("/api")));
    assert!(fallback_wants_json(None, s("/api/")));
    assert!(!fallback_wants_json(Some(s("text/html")), s("/home")));
    assert_eq!(
        fallback_body(s("GET"), s("/nope"), true),
        r#"{"error":"No route found","method":"GET","path":"/nope","status":404}"#
    );
    let page = fallback_body(s("POST"), s("/x"), false);
    assert!(page.starts_with("<!DOCTYPE html>"));
    assert!(page.contains("<p>POST \"/x\"</p>"));
    assert!(page.contains("🔥 FLAMER SERVER"));
    assert_eq!(page, format!("{}POST \"/x\"{}", FALLBACK_HTML_HEAD, FALLBACK_HTML_TAIL));
}

#[test]
fn markers_round_trip_through_classification() {
    for content in ["", "<p>hi</p>", "plain", "<!--flamer:json-->x"] {
        match classify_body(&flamer::json::html_response(s(content)), true) {
            BodyRewrite::Strip(k, rest) => assert!(kind_is_html(&k) && rest == content),
            _ => panic!("html marker not recognised"),
        }
    }
    for content in ["{a: 1}", "", "text"] {
        let body = flamer::json::json_response(s(content));
        match classify_body(&body, false) {
            BodyRewrite::Strip(k, rest) => {
                assert!(!kind_is_html(&k));
                assert_eq!(rest, flamer::json::convert_to_json(content));
            }
            _ => panic!("json marker not recognised"),
        }
    }
}
