use flamer::form::{get_query_param, parse_query_json, url_decode, url_encode};

fn s(x: &str) -> String {
    x.to_string()
}

#[test]
fn parse_query_readme_example() {
    let json = parse_query_json(s("search=flame&page=2&sort=asc"));
    let v: serde_json::Value = serde_json::from_str(&json).unwrap();
    let m = v.as_object().unwrap();
    assert_eq!(m.len(), 3);
    assert_eq!(m["search"], "flame");
    assert_eq!(m["page"], "2");
    assert_eq!(m["sort"], "asc");
}

#[test]
fn parse_query_exact_text() {
    assert_eq!(parse_query_json(s("")), "{}");
    assert_eq!(parse_query_json(s("?a=1&b=2")), r#"{"a":"1","b":"2"}"#);
    assert_eq!(parse_query_json(s("a=1&a=2")), r#"{"a":"2"}"#);
    assert_eq!(parse_query_json(s("a=1&b=2&a=3")), r#"{"a":"3","b":"2"}"#);
    assert_eq!(parse_query_json(s("??x")), r#"{"x":""}"#);
    assert_eq!(parse_query_json(s("q=a%22b+c")), r#"{"q":"a\"b c"}"#);
    assert_eq!(parse_query_json(s("&&k=v&&")), r#"{"k":"v"}"#);
}

#[test]
fn get_query_param_examples() {
    assert_eq!(get_query_param(s("search=flame"), s("search")), "flame");
    assert_eq!(get_query_param(s("search=flame"), s("limit")), "");
    assert_eq!(get_query_param(s("?a=1&a=2"), s("a")), "1");
    assert_eq!(get_query_param(s("name=John%20Doe"), s("name")), "John Doe");
    assert_eq!(get_query_param(s("x=a=b"), s("x")), "a=b");
    assert_eq!(get_query_param(s("flag"), s("flag")), "");
    assert_eq!(get_query_param(s("k%20y=1"), s("k y")), "1");
}

#[test]
fn url_encode_readme_example() {
    let encoded = url_encode(s("hello world & more"));
    assert_eq!(encoded, "hello+world+%26+more");
    assert_eq!(url_decode(encoded), "hello world & more");
}

#[test]
fn url_encode_bytes() {
    assert_eq!(url_encode(s("")), "");
    assert_eq!(url_encode(s("a-b_c.d*e")), "a-b_c.d*e");
    assert_eq!(url_encode(s("a+b=c/d?")), "a%2Bb%3Dc%2Fd%3F");
    assert_eq!(url_encode(s("é")), "%C3%A9");
    assert_eq!(url_encode(s("~!")), "%7E%21");
}

#[test]
fn url_decode_cases() {
    assert_eq!(url_decode(s("")), "");
    assert_eq!(url_decode(s("a=b")), "a=b");
    assert_eq!(url_decode(s("x&y")), "x&y");
    assert_eq!(url_decode(s("a+b%2B%3D")), "a b+=");
    assert_eq!(url_decode(s("plain-text")), "plain-text");
    assert_eq!(url_decode(s("a b")), "a b");
    assert_eq!(url_decode(s("é=ü&x")), "é=ü&x");
    assert_eq!(url_decode(s("%C3%A9t%C3%A9")), "été");
    assert_eq!(url_decode(s("100%")), "100%");
    assert_eq!(url_decode(s("a+b")), "a b");
    assert_eq!(url_decode(s("&")), "&");
    assert_eq!(url_decode(s("%FF")), "\u{FFFD}");
}

#[test]
fn url_roundtrip_examples() {
    for x in ["", "plain", "with space", "a&b=c", "100% sure", "naïve café", "tab\tnewline\n", "+%+"] {
        assert_eq!(url_decode(url_encode(s(x))), x, "{:?}", x);
    }
}

#[test]
fn encoded_value_reads_back_from_query() {
    for v in ["", "a b&c=d", "100%+", "naïve", "x=y&z"] {
        let q = format!("name={}", url_encode(s(v)));
        assert_eq!(get_query_param(q, s("name")), v, "{:?}", v);
    }
    let q = format!("key_1.x={}", url_encode(s("?&=")));
    assert_eq!(get_query_param(q, s("key_1.x")), "?&=");
}

#[test]
fn query_json_last_occurrence_wins() {
    let json = parse_query_json(s("k=1&j=0&k=2&k=3"));
    assert_eq!(json, r#"{"k":"3","j":"0"}"#);
}
