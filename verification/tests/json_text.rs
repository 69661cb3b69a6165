use flamer::json::{convert_to_json, html_response, json_response, text_response, to_json};

fn s(x: &str) -> String {
    x.to_string()
}

fn is_json(t: &str) -> bool {
    serde_json::from_str::<serde_json::Value>(t).is_ok()
}

#[test]
fn convert_empty_is_empty_object() {
    assert_eq!(convert_to_json(""), "{}");
    assert_eq!(convert_to_json(" \n\t "), "{}");
}

#[test]
fn convert_valid_json_is_reserialized() {
    assert_eq!(convert_to_json("{\"a\": 1}"), "{\"a\":1}");
    assert_eq!(convert_to_json("  [1, 2, 3]  "), "[1,2,3]");
    assert_eq!(convert_to_json("\"x\""), "\"x\"");
    assert_eq!(convert_to_json("42"), "42");
    assert_eq!(convert_to_json("{\"b\":1,\"a\":2}"), "{\"a\":2,\"b\":1}");
}

#[test]
fn convert_relaxed_formulas() {
    assert_eq!(convert_to_json("{ok: true}"), "{\"ok\":true}");
    assert_eq!(convert_to_json("{ id: 101 }"), "{\"id\":101}");
    assert_eq!(convert_to_json("{name: 'Bob', age: nil}"), "{\"age\":null,\"name\":\"Bob\"}");
    assert_eq!(convert_to_json("{x: undefined}"), "{\"x\":null}");
    assert_eq!(convert_to_json("['Alice', 'Bob']"), "[\"Alice\",\"Bob\"]");
    assert_eq!(convert_to_json("{msg: 'say \"hi\"'}"), "{\"msg\":\"say \\\"hi\\\"\"}");
    assert_eq!(convert_to_json("{a: hello}"), "{\"a\":\"hello\"}");
    assert_eq!(convert_to_json("{snake_case-key : 1}"), "{\"snake_case-key\":1}");
}

#[test]
fn convert_unparseable_becomes_string() {
    assert_eq!(convert_to_json("hello world"), "\"hello world\"");
    assert_eq!(convert_to_json("  a \"b\"  "), "\"a \\\"b\\\"\"");
    assert_eq!(convert_to_json("{"), "\"{\"");
}

#[test]
fn convert_output_is_json() {
    for x in ["", "{a:1}", "['x']", "nil", "oops {", "\u{1}", "tab\there", "{ k : v }"] {
        let out = convert_to_json(x);
        assert!(is_json(&out), "{:?} -> {:?}", x, out);
    }
}

#[test]
fn response_helpers() {
    assert_eq!(json_response(s("{ok: true}")), "<!--flamer:json-->{\"ok\":true}");
    assert_eq!(html_response(s("<h1>Welcome to Flamer!</h1>")), "<!--flamer:html--><h1>Welcome to Flamer!</h1>");
    assert_eq!(text_response(s("OK")), "OK");
    assert_eq!(to_json(s("['Alice', 'Bob', 'Charlie']")), "[\"Alice\",\"Bob\",\"Charlie\"]");
}
