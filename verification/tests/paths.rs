use flamer::route::{extract_path_params_json, get_path_param, match_path, path_filter};
use flamer::server::{normalize_path, route_paths};

fn s(x: &str) -> String {
    x.to_string()
}

fn params(json: &str) -> serde_json::Map<String, serde_json::Value> {
    match serde_json::from_str::<serde_json::Value>(json).unwrap() {
        serde_json::Value::Object(m) => m,
        other => panic!("not an object: {}", other),
    }
}

#[test]
fn match_path_readme_examples() {
    assert!(match_path(s("/users/:id"), s("/users/42")));
    assert!(match_path(s("/static/*"), s("/static/css/app.css")));
    assert!(!match_path(s("/api/v1"), s("/dashboard")));
}

#[test]
fn match_path_edges() {
    assert!(match_path(s("/anything"), s("/")));
    assert!(match_path(s("/anything"), s("")));
    assert!(!match_path(s("/a/b"), s("/a")));
    assert!(!match_path(s("/a"), s("/a/b")));
    assert!(match_path(s("/a/*"), s("/a")));
    assert!(match_path(s("*"), s("/x/y/z")));
    assert!(match_path(s("/a/:x/c"), s("a/b/c/")));
    assert!(!match_path(s("/a/:x/c"), s("/a/b/d")));
    assert!(match_path(s(""), s("")));
    assert!(!match_path(s(""), s("/a")));
}

#[test]
fn match_path_is_reflexive_on_examples() {
    for p in ["/users/42", "/", "a//b", "/x/:y/*", "static/css/app.css"] {
        assert!(match_path(s(p), s(p)), "{}", p);
    }
}

#[test]
fn get_path_param_examples() {
    let pat = "/teams/:teamId/members/:memberId";
    let path = "/teams/alpha/members/42";
    assert_eq!(get_path_param(s(pat), s(path), s("teamId")), "alpha");
    assert_eq!(get_path_param(s(pat), s(path), s("memberId")), "42");
    assert_eq!(get_path_param(s(pat), s(path), s("other")), "");
    assert_eq!(get_path_param(s("/users/:id"), s("/users"), s("id")), "1");
    assert_eq!(get_path_param(s("/users/:id"), s("/users//"), s("id")), "1");
    assert_eq!(get_path_param(s("/static/*"), s("/static/css/app.css"), s("wildcard")), "css/app.css");
    assert_eq!(get_path_param(s("/static/*"), s("/static"), s("wildcard")), "");
    assert_eq!(get_path_param(s("/:a/:a"), s("/x/y"), s("a")), "x");
}

#[test]
fn extract_path_params_readme_example() {
    let json = extract_path_params_json(s("/teams/:teamId/members/:memberId"), s("/teams/alpha/members/42"));
    let m = params(&json);
    assert_eq!(m.len(), 2);
    assert_eq!(m["teamId"], "alpha");
    assert_eq!(m["memberId"], "42");
}

#[test]
fn extract_path_params_exact_text() {
    assert_eq!(extract_path_params_json(s("/users/:id"), s("/users/7")), r#"{"id":"7"}"#);
    assert_eq!(extract_path_params_json(s("/users/:id"), s("/users")), r#"{"id":"1"}"#);
    assert_eq!(extract_path_params_json(s("/plain"), s("/plain")), "{}");
    assert_eq!(extract_path_params_json(s("/:a/:a"), s("/x/y")), r#"{"a":"y"}"#);
    assert_eq!(
        extract_path_params_json(s("/f/:id/*"), s("/f/9/a/b")),
        r#"{"id":"9","wildcard":"a/b"}"#
    );
    assert_eq!(extract_path_params_json(s("/:q"), s("/a\"b")), r#"{"q":"a\"b"}"#);
}

#[test]
fn path_filter_examples() {
    assert!(path_filter(s("/api"), s("/api/v1/checkout")));
    assert!(path_filter(s("/api"), s("/api")));
    assert!(path_filter(s("/api/"), s("/api/")));
    assert!(!path_filter(s("/api"), s("/apis")));
    assert!(!path_filter(s("/api"), s("/dashboard")));
    assert!(path_filter(s("/api"), s("")));
    assert!(path_filter(s("/api"), s("///")));
}

#[test]
fn normalize_path_examples() {
    assert_eq!(normalize_path("/users/:id"), "/users/{id}");
    assert_eq!(normalize_path("api/*"), "/api/{*wildcard}");
    assert_eq!(normalize_path("/"), "/");
    assert_eq!(normalize_path(""), "/");
    assert_eq!(normalize_path("/a/:x/:y/"), "/a/{x}/{y}/");
}

#[test]
fn route_paths_examples() {
    assert_eq!(route_paths("/users"), vec![s("/users"), s("/users/")]);
    assert_eq!(route_paths("/users/"), vec![s("/users/"), s("/users")]);
    assert_eq!(route_paths("/"), vec![s("/")]);
    assert_eq!(route_paths("/users/:id"), vec![s("/users/{id}")]);
    assert_eq!(route_paths("/files/*"), vec![s("/files/{*wildcard}")]);
    assert_eq!(route_paths("hello"), vec![s("/hello"), s("/hello/")]);
}

#[test]
fn normalize_path_is_rooted_and_idempotent() {
    for p in ["", "/", "users/:id", "/a/*", "//x//", ":a/:b", "/{x}/{*wildcard}"] {
        let n = normalize_path(p);
        assert!(n.starts_with('/'), "{:?}", n);
        assert_eq!(normalize_path(&n), n, "{:?}", p);
    }
}

#[test]
fn extracted_params_agree_with_single_lookup() {
    let cases = [
        ("/teams/:teamId/members/:memberId", "/teams/alpha/members/42"),
        ("/users/:id", "/users"),
        ("/f/:id/*", "/f/9/a/b"),
        ("/*/:id", "/a/b"),
    ];
    for (pat, path) in cases {
        let m = params(&extract_path_params_json(s(pat), s(path)));
        for (k, v) in m.iter() {
            assert_eq!(v.as_str().unwrap(), get_path_param(s(pat), s(path), k.clone()), "{} {} {}", pat, path, k);
        }
    }
}
