//! The server's own decisions: its configuration, the route shapes it
//! registers, how it labels response bodies, and what it answers for a route
//! that does not exist.
use vstd::prelude::*;
use crate::text::{
    chars_eq, chars_to_string, contains, lemma_join_leading_sep, lemma_split_join,
    lemma_split_leading_sep, lemma_split_pieces_free, ends_with, has_infix, has_prefix, has_suffix, join_with,
    push_all, split_chars, split_on, starts_with, str_chars, sub_chars, trim_end, trim_end_chars,
    trim_whitespace, trim_ws, views,
};
use crate::route::{is_param_seg, star_seg};
use crate::json::{converted_json, html_marker, json_marker, json_reformatted};

verus! {

// ---------------------------------------------------------------------------
// Configuration
// ---------------------------------------------------------------------------

/// The configuration of a Flamer server: where it listens and whether a
/// custom fallback handler was registered.
pub struct FlamerServer {
    pub port: u16,
    pub host: String,
    pub has_custom_fallback: bool,
}

/// The host a new server listens on.
pub open spec fn default_host() -> Seq<char> {
    "127.0.0.1"@
}

/// Create a new Flamer server configuration: port 3000 on 127.0.0.1, default
/// fallback.
pub fn init() -> (r: FlamerServer)
    ensures
        r.port == 3000,
        r.host@ == default_host(),
        !r.has_custom_fallback,
{
    FlamerServer { port: 3000, host: "127.0.0.1".to_owned(), has_custom_fallback: false }
}

impl FlamerServer {
    /// Set the port number on which the server will listen (taken modulo 65536).
    pub fn set_port(&mut self, port: i64)
        ensures
            final(self).port == port as u16,
            final(self).host == old(self).host,
            final(self).has_custom_fallback == old(self).has_custom_fallback,
    {
        self.port = port as u16;
    }

    /// Retrieve the configured port number.
    pub fn port(&self) -> (r: i64)
        ensures
            r == self.port as i64,
    {
        self.port as i64
    }

    /// Set the host IP/interface address (defaults to "127.0.0.1").
    pub fn set_host(&mut self, host: String)
        ensures
            final(self).host@ == host@,
            final(self).port == old(self).port,
            final(self).has_custom_fallback == old(self).has_custom_fallback,
    {
        self.host = host;
    }

    /// Retrieve the configured host address.
    pub fn host(&self) -> (r: String)
        ensures
            r@ == self.host@,
    {
        self.host.clone()
    }

    /// Records that a custom fallback handler was registered.
    pub fn fallback(&mut self)
        ensures
            final(self).has_custom_fallback,
            final(self).port == old(self).port,
            final(self).host == old(self).host,
    {
        self.has_custom_fallback = true;
    }

    /// Whether the server installs its own fallback for unmatched routes.
    pub fn uses_default_fallback(&self) -> (r: bool)
        ensures
            r == !self.has_custom_fallback,
    {
        !self.has_custom_fallback
    }

    /// Returns a JSON response string with explicit Flamer marker.
    pub fn json(&self, content: String) -> (r: String)
        ensures
            r@ == json_marker() + converted_json(content@),
    {
        crate::json::json_response(content)
    }

    /// Returns an HTML response string with explicit Flamer marker.
    pub fn html(&self, content: String) -> (r: String)
        ensures
            r@ == html_marker() + content@,
    {
        crate::json::html_response(content)
    }

    /// Returns a plain text response string.
    pub fn text(&self, content: String) -> (r: String)
        ensures
            r@ == content@,
    {
        content
    }
}

// ---------------------------------------------------------------------------
// Route shapes
// ---------------------------------------------------------------------------

/// The router's spelling of the wildcard segment.
pub open spec fn router_wildcard() -> Seq<char> {
    "{*wildcard}"@
}

/// One segment in the router's syntax: `:id` becomes `{id}`, `*` becomes
/// `{*wildcard}`, any other segment stays.
pub open spec fn router_segment(seg: Seq<char>) -> Seq<char> {
    if is_param_seg(seg) {
        seq!['{'] + seg.drop_first() + seq!['}']
    } else if seg == star_seg() {
        router_wildcard()
    } else {
        seg
    }
}

/// `path` with a leading slash: itself when it has one, else `/` and `path`.
pub open spec fn rooted(path: Seq<char>) -> Seq<char> {
    if has_prefix(path, seq!['/']) {
        path
    } else {
        seq!['/'] + path
    }
}

/// An Express-style route pattern in the router's syntax.
pub open spec fn normalized_path(path: Seq<char>) -> Seq<char> {
    join_with(split_on(rooted(path), '/').map_values(|seg: Seq<char>| router_segment(seg)), '/')
}

/// The paths a route is registered under: the normalized path and, unless it
/// is the root or ends in a capture, the same path with its trailing slash
/// added or its trailing slashes removed.
pub open spec fn route_shapes(path: Seq<char>) -> Seq<Seq<char>> {
    let p = normalized_path(path);
    if p == seq!['/'] || has_suffix(p, seq!['}']) {
        seq![p]
    } else if has_suffix(p, seq!['/']) {
        seq![p, trim_end(p, '/')]
    } else {
        seq![p, p.push('/')]
    }
}

/// A route is registered under its normalized path first. The root and a
/// path that ends in a capture (`}`) get that one shape; any other path gets
/// exactly one more, the same path with its trailing slashes removed when it
/// ends in `/`, or with a `/` added when it does not. Captures earlier in the
/// path make no difference.
pub proof fn law_route_shapes(path: Seq<char>)
    ensures
        ({
            let n = normalized_path(path);
            let shapes = route_shapes(path);
            let single = n == seq!['/'] || (n.len() > 0 && n[n.len() - 1] == '}');
            &&& shapes.len() >= 1
            &&& shapes[0] == n
            &&& single ==> shapes.len() == 1
            &&& !single ==> shapes.len() == 2 && shapes[1] == (if n.len() > 0 && n[n.len() - 1] == '/' {
                trim_end(n, '/')
            } else {
                n.push('/')
            })
        }),
{
    let n = normalized_path(path);
    if n.len() > 0 {
        assert(has_suffix(n, seq!['}']) <==> n[n.len() - 1] == '}') by {
            assert(n.subrange(n.len() - 1, n.len() as int)[0] == n[n.len() - 1]);
            if n[n.len() - 1] == '}' {
                assert(n.subrange(n.len() - 1, n.len() as int) =~= seq!['}']);
            }
        }
        assert(has_suffix(n, seq!['/']) <==> n[n.len() - 1] == '/') by {
            assert(n.subrange(n.len() - 1, n.len() as int)[0] == n[n.len() - 1]);
            if n[n.len() - 1] == '/' {
                assert(n.subrange(n.len() - 1, n.len() as int) =~= seq!['/']);
            }
        }
    }
}

proof fn lemma_router_segment(seg: Seq<char>)
    ensures
        router_segment(router_segment(seg)) == router_segment(seg),
        (forall|j: int| 0 <= j < seg.len() ==> seg[j] != '/') ==> forall|j: int|
            0 <= j < router_segment(seg).len() ==> #[trigger] router_segment(seg)[j] != '/',
{
    reveal_strlit("{*wildcard}");
    let y = router_segment(seg);
    if is_param_seg(seg) {
        assert(y[0] == '{');
        assert(y.len() >= 2);
        assert(y != star_seg());
        if forall|j: int| 0 <= j < seg.len() ==> seg[j] != '/' {
            assert forall|j: int| 0 <= j < y.len() implies #[trigger] y[j] != '/' by {
                if 0 < j < y.len() - 1 {
                    assert(y[j] == seg[j]);
                }
            }
        }
    } else if seg == star_seg() {
        assert(y[0] == '{');
        assert(y.len() == 11);
        assert(y != star_seg());
    }
}

/// A normalized route pattern starts with `/`, and normalizing it again
/// changes nothing.
pub proof fn law_normalize_path_rooted_and_idempotent(path: Seq<char>)
    ensures
        has_prefix(normalized_path(path), seq!['/']),
        normalized_path(normalized_path(path)) == normalized_path(path),
{
    let r = rooted(path);
    if has_prefix(path, seq!['/']) {
        assert(path.subrange(0, 1)[0] == path[0]);
    }
    assert(r.len() > 0 && r[0] == '/');
    let parts = split_on(r, '/');
    lemma_split_leading_sep(r, '/');
    lemma_split_pieces_free(r, '/');
    let ms = parts.map_values(|seg: Seq<char>| router_segment(seg));
    assert(ms[0] == router_segment(parts[0]));
    assert(ms[0].len() == 0);
    let n = normalized_path(path);
    assert(n == join_with(ms, '/'));
    lemma_join_leading_sep(ms, '/');
    assert(n.subrange(0, 1) =~= seq!['/']);
    assert(rooted(n) == n);
    assert forall|i: int, j: int| 0 <= i < ms.len() && 0 <= j < ms[i].len() implies #[trigger] ms[i][j]
        != '/' by {
        assert(ms[i] == router_segment(parts[i]));
        assert forall|k: int| 0 <= k < parts[i].len() implies parts[i][k] != '/' by {
            assert(parts[i][k] != '/');
        }
        lemma_router_segment(parts[i]);
    }
    lemma_split_join(ms, '/');
    let ms2 = split_on(n, '/').map_values(|seg: Seq<char>| router_segment(seg));
    assert forall|i: int| 0 <= i < ms.len() implies #[trigger] ms2[i] == ms[i] by {
        lemma_router_segment(parts[i]);
    }
    assert(ms2 =~= ms);
}

/// The views of a list of strings.
pub open spec fn string_views(v: Seq<String>) -> Seq<Seq<char>> {
    v.map_values(|s: String| s@)
}

/// Normalizes an Express-style route pattern (e.g. `/users/:id` or `/api/*`)
/// into the router's pattern syntax (e.g. `/users/{id}` or `/api/{*wildcard}`).
pub fn normalize_path(path: &str) -> (r: String)
    ensures
        r@ == normalized_path(path@),
{
    let raw = str_chars(path);
    let p = if raw.len() > 0 && raw[0] == '/' {
        raw
    } else {
        let mut q: Vec<char> = vec!['/'];
        push_all(&mut q, &raw);
        q
    };
    assert(has_prefix(path@, seq!['/']) <==> (path@.len() > 0 && path@[0] == '/')) by {
        if path@.len() > 0 {
            assert(path@.subrange(0, 1)[0] == path@[0]);
            if path@[0] == '/' {
                assert(path@.subrange(0, 1) =~= seq!['/']);
            }
        }
    }
    assert(p@ =~= rooted(path@));
    let parts = split_chars(&p, '/');
    let ghost ms = views(parts@).map_values(|seg: Seq<char>| router_segment(seg));
    let star: Vec<char> = vec!['*'];
    assert(star@ =~= star_seg());
    let wild = str_chars("{*wildcard}");
    let mut out: Vec<char> = Vec::new();
    let mut i: usize = 0;
    assert(ms.take(0) =~= Seq::<Seq<char>>::empty());
    while i < parts.len()
        invariant
            ms == views(parts@).map_values(|seg: Seq<char>| router_segment(seg)),
            star@ == star_seg(),
            wild@ == router_wildcard(),
            i <= parts.len(),
            out@ == join_with(ms.take(i as int), '/'),
        decreases parts.len() - i,
    {
        let ghost prefix = ms.take(i + 1);
        assert(prefix.drop_last() =~= ms.take(i as int));
        assert(prefix.last() == router_segment(parts@[i as int]@));
        let ghost before = out@;
        if i > 0 {
            out.push('/');
        } else {
            assert(prefix =~= seq![router_segment(parts@[0]@)]);
        }
        let ghost mid = out@;
        let part = &parts[i];
        if part.len() > 0 && part[0] == ':' {
            out.push('{');
            let name = sub_chars(part, 1, part.len());
            assert(name@ =~= part@.drop_first());
            push_all(&mut out, &name);
            out.push('}');
            assert(out@ =~= mid + router_segment(part@));
        } else if chars_eq(part, &star) {
            push_all(&mut out, &wild);
        } else {
            push_all(&mut out, part);
        }
        i = i + 1;
    }
    assert(ms.take(i as int) =~= ms);
    chars_to_string(&out)
}

/// The paths under which a route pattern is registered (see `route_shapes`).
pub fn route_paths(path: &str) -> (r: Vec<String>)
    ensures
        string_views(r@) == route_shapes(path@),
{
    let ps = normalize_path(path);
    let p = str_chars(ps.as_str());
    let root: Vec<char> = vec!['/'];
    let close: Vec<char> = vec!['}'];
    assert(root@ =~= seq!['/']);
    assert(close@ =~= seq!['}']);
    let mut r: Vec<String> = Vec::new();
    let ghost pv = p@;
    if chars_eq(&p, &root) || ends_with(&p, &close) {
        r.push(ps);
        assert(string_views(r@) =~= seq![pv]);
        return r;
    }
    let alt = if ends_with(&p, &root) {
        trim_end_chars(&p, '/')
    } else {
        let mut a = sub_chars(&p, 0, p.len());
        a.push('/');
        assert(a@ =~= pv.push('/'));
        a
    };
    r.push(ps);
    r.push(chars_to_string(&alt));
    assert(string_views(r@) =~= route_shapes(path@));
    r
}

// ---------------------------------------------------------------------------
// Response bodies
// ---------------------------------------------------------------------------

/// The two content types that a body can be labelled with.
pub enum ContentKind {
    Html,
    Json,
}

/// What happens to a response body on its way out.
pub enum BodyRewrite {
    /// A marker was found and removed: the body becomes the rest, labelled
    /// with the kind.
    Strip(ContentKind, String),
    /// The body stays as it is and is labelled with the kind.
    Label(ContentKind),
    /// Nothing changes.
    Keep,
}

/// Whether a trimmed plain-text body looks like HTML.
pub open spec fn looks_like_html(t: Seq<char>) -> bool {
    ||| has_prefix(t, "<!DOCTYPE"@)
    ||| has_prefix(t, "<!doctype"@)
    ||| has_prefix(t, "<html"@)
    ||| has_prefix(t, "<head"@)
    ||| has_prefix(t, "<body"@)
    ||| (has_prefix(t, seq!['<']) && (has_infix(t, seq!['<', '/']) || has_suffix(t, seq!['>'])))
}

/// Whether a trimmed plain-text body is bracketed like a JSON object or array.
pub open spec fn json_bracketed(t: Seq<char>) -> bool {
    ||| (has_prefix(t, seq!['{']) && has_suffix(t, seq!['}']))
    ||| (has_prefix(t, seq!['[']) && has_suffix(t, seq![']']))
}

/// Whether a header value begins with `text/plain`.
pub open spec fn is_text_plain_value(v: Seq<u8>) -> bool {
    v.len() >= 10 && v.subrange(0, 10) == text_plain_bytes()
}

/// The bytes of `text/plain`.
pub open spec fn text_plain_bytes() -> Seq<u8> {
    seq![0x74u8, 0x65u8, 0x78u8, 0x74u8, 0x2fu8, 0x70u8, 0x6cu8, 0x61u8, 0x69u8, 0x6eu8]
}

/// Whether a response's Content-Type header (if it has one) says plain text.
pub fn content_type_is_text_plain(header: Option<&[u8]>) -> (r: bool)
    ensures
        r == (header matches Some(v) && is_text_plain_value(v@)),
{
    match header {
        None => false,
        Some(v) => {
            let tp: [u8; 10] = [0x74, 0x65, 0x78, 0x74, 0x2f, 0x70, 0x6c, 0x61, 0x69, 0x6e];
            let ghost tps = text_plain_bytes();
            assert(tp@ =~= tps);
            if v.len() < 10 {
                return false;
            }
            let mut i: usize = 0;
            while i < 10
                invariant
                    v@.len() >= 10,
                    tp@ == tps,
                    tps == text_plain_bytes(),
                    header == Some(v),
                    i <= 10,
                    forall|j: int| 0 <= j < i ==> v@[j] == tps[j],
                decreases 10 - i,
            {
                if v[i] != tp[i] {
                    assert(v@.subrange(0, 10)[i as int] == v@[i as int]);
                    assert(v@.subrange(0, 10)[i as int] != tps[i as int]);
                    return false;
                }
                i = i + 1;
            }
            assert(v@.subrange(0, 10) =~= tps);
            true
        },
    }
}

/// Decides how a response body that is valid UTF-8 text is labelled: an
/// explicit marker is removed and decides; otherwise a plain-text body that
/// looks like HTML, or is bracketed like JSON and parses as JSON, is
/// relabelled; otherwise nothing changes.
pub fn classify_body(text: &str, is_text_plain: bool) -> (r: BodyRewrite)
    ensures
        has_prefix(text@, html_marker()) ==> (r matches BodyRewrite::Strip(ContentKind::Html, rest)
            && rest@ == text@.skip(html_marker().len() as int)),
        !has_prefix(text@, html_marker()) && has_prefix(text@, json_marker()) ==> (r matches BodyRewrite::Strip(ContentKind::Json, rest)
            && rest@ == text@.skip(json_marker().len() as int)),
        !has_prefix(text@, html_marker()) && !has_prefix(text@, json_marker()) ==> {
            let t = trim_ws(text@);
            if !is_text_plain {
                r is Keep
            } else if looks_like_html(t) {
                r matches BodyRewrite::Label(ContentKind::Html)
            } else if json_bracketed(t) && json_reformatted(t) is Some {
                r matches BodyRewrite::Label(ContentKind::Json)
            } else {
                r is Keep
            }
        },
{
    let c = str_chars(text);
    let hm = str_chars("<!--flamer:html-->");
    if starts_with(&c, &hm) {
        let rest = sub_chars(&c, hm.len(), c.len());
        return BodyRewrite::Strip(ContentKind::Html, chars_to_string(&rest));
    }
    let jm = str_chars("<!--flamer:json-->");
    if starts_with(&c, &jm) {
        let rest = sub_chars(&c, jm.len(), c.len());
        return BodyRewrite::Strip(ContentKind::Json, chars_to_string(&rest));
    }
    if !is_text_plain {
        return BodyRewrite::Keep;
    }
    let t = trim_whitespace(&c);
    let lt: Vec<char> = vec!['<'];
    let close_tag: Vec<char> = vec!['<', '/'];
    let gt: Vec<char> = vec!['>'];
    assert(lt@ =~= seq!['<']);
    assert(close_tag@ =~= seq!['<', '/']);
    assert(gt@ =~= seq!['>']);
    let is_html = starts_with(&t, &str_chars("<!DOCTYPE")) || starts_with(&t, &str_chars("<!doctype"))
        || starts_with(&t, &str_chars("<html")) || starts_with(&t, &str_chars("<head"))
        || starts_with(&t, &str_chars("<body")) || (starts_with(&t, &lt) && (contains(&t, &close_tag)
        || ends_with(&t, &gt)));
    if is_html {
        return BodyRewrite::Label(ContentKind::Html);
    }
    let ob: Vec<char> = vec!['{'];
    let cb: Vec<char> = vec!['}'];
    let os: Vec<char> = vec!['['];
    let cs: Vec<char> = vec![']'];
    assert(ob@ =~= seq!['{']);
    assert(cb@ =~= seq!['}']);
    assert(os@ =~= seq!['[']);
    assert(cs@ =~= seq![']']);
    if (starts_with(&t, &ob) && ends_with(&t, &cb)) || (starts_with(&t, &os) && ends_with(&t, &cs)) {
        let ts = chars_to_string(&t);
        if crate::json::parses_as_json(ts.as_str()) {
            return BodyRewrite::Label(ContentKind::Json);
        }
    }
    BodyRewrite::Keep
}

/// A body written by `html_response` (or `FlamerServer::html`) is recognised
/// by its marker, and what is handed on is the content it was given.
pub proof fn law_html_marker_roundtrip(content: Seq<char>)
    ensures
        has_prefix(html_marker() + content, html_marker()),
        (html_marker() + content).skip(html_marker().len() as int) == content,
{
    let b = html_marker() + content;
    assert(b.subrange(0, html_marker().len() as int) =~= html_marker());
    assert(b.skip(html_marker().len() as int) =~= content);
}

/// A body written by `json_response` (or `FlamerServer::json`) is not taken
/// for HTML, is recognised as JSON by its marker, and what is handed on is the
/// JSON text after the marker.
pub proof fn law_json_marker_roundtrip(json: Seq<char>)
    ensures
        !has_prefix(json_marker() + json, html_marker()),
        has_prefix(json_marker() + json, json_marker()),
        (json_marker() + json).skip(json_marker().len() as int) == json,
{
    reveal_strlit("<!--flamer:json-->");
    reveal_strlit("<!--flamer:html-->");
    let b = json_marker() + json;
    assert(b.subrange(0, json_marker().len() as int) =~= json_marker());
    assert(b.skip(json_marker().len() as int) =~= json);
    assert(b[11] == 'j');
    assert(html_marker()[11] == 'h');
    assert(b.subrange(0, html_marker().len() as int)[11] == 'j');
}

// ---------------------------------------------------------------------------
// Unmatched routes
// ---------------------------------------------------------------------------

/// The page served for an unmatched route, up to the method.
pub const FALLBACK_HTML_HEAD: &'static str = "<!DOCTYPE html>\n<html lang=\"en\">\n<head>\n  <meta charset=\"utf-8\">\n  <meta name=\"viewport\" content=\"width=device-width, initial-scale=1.0\">\n  <title>404 Not Found - Flamer</title>\n  <style>\n    * { box-sizing: border-box; margin: 0; padding: 0; }\n    body {\n      font-family: -apple-system, BlinkMacSystemFont, \"Segoe UI\", Roboto, \"Helvetica Neue\", Arial, sans-serif;\n      background: #000000ff;\n      color: #f1f5f9;\n      display: flex;\n      align-items: center;\n      justify-content: center;\n      min-height: 100vh;\n      padding: 1.5rem;\n    }\n    .badge {\n      display: inline-block;\n      background: rgba(249, 115, 22, 0.15);\n      color: #f97316;\n      border: 1px solid rgba(249, 115, 22, 0.3);\n      padding: 0.35rem 0.85rem;\n      border-radius: 9999px;\n      font-size: 0.85rem;\n      font-weight: 600;\n      letter-spacing: 0.05em;\n      margin-bottom: 1.25rem;\n    }\n    h1 {\n      font-size: 2.75rem;\n      font-weight: 800;\n      color: #f8fafc;\n      margin-bottom: 0.5rem;\n      letter-spacing: -0.025em;\n    }\n    h2 {\n      font-size: 1.35rem;\n      font-weight: 600;\n      color: #94a3b8;\n      margin-bottom: 1.25rem;\n    }\n    p {\n      color: #64748b;\n      font-size: 0.95rem;\n      line-height: 1.6;\n      margin-bottom: 1.5rem;\n    }\n  </style>\n</head>\n<body>\n  <div>\n    <div class=\"badge\">\u{1f525} FLAMER SERVER</div>\n    <h1>404</h1>\n    <h2>No Route Found</h2>\n    <p>The requested route could not be found on this server.</p>\n    <p>";

/// The page served for an unmatched route, after the quoted path.
pub const FALLBACK_HTML_TAIL: &'static str = "</p>\n  </div>\n</body>\n</html>";

/// Whether an unmatched request is answered in JSON: it accepts
/// `application/json`, or it is an API route (the path `/api` or one under
/// `/api/`).
pub open spec fn wants_json(accept: Option<Seq<char>>, path: Seq<char>) -> bool {
    ||| (accept matches Some(a) && has_infix(a, "application/json"@))
    ||| path == "/api"@
    ||| has_prefix(path, "/api/"@)
}

/// Decides whether an unmatched request is answered in JSON.
pub fn fallback_wants_json(accept: Option<String>, path: String) -> (r: bool)
    ensures
        r == wants_json(
            match accept {
                Some(a) => Some(a@),
                None => None,
            },
            path@,
        ),
{
    let accepts_json = match &accept {
        Some(a) => contains(&str_chars(a.as_str()), &str_chars("application/json")),
        None => false,
    };
    let p = str_chars(path.as_str());
    accepts_json || chars_eq(&p, &str_chars("/api")) || starts_with(&p, &str_chars("/api/"))
}

/// The JSON body answering an unmatched request.
pub open spec fn fallback_json_body(method: Seq<char>, path: Seq<char>) -> Seq<char> {
    "{\"error\":\"No route found\",\"method\":\""@ + method + "\",\"path\":\""@ + path
        + "\",\"status\":404}"@
}

/// The HTML page answering an unmatched request.
pub open spec fn fallback_html_body(method: Seq<char>, path: Seq<char>) -> Seq<char> {
    FALLBACK_HTML_HEAD@ + method + seq![' ', '"'] + path + seq!['"'] + FALLBACK_HTML_TAIL@
}

/// The body answering an unmatched request (always with status 404).
pub fn fallback_body(method: String, path: String, as_json: bool) -> (r: String)
    ensures
        as_json ==> r@ == fallback_json_body(method@, path@),
        !as_json ==> r@ == fallback_html_body(method@, path@),
{
    let m = str_chars(method.as_str());
    let p = str_chars(path.as_str());
    let mut out: Vec<char>;
    if as_json {
        out = str_chars("{\"error\":\"No route found\",\"method\":\"");
        push_all(&mut out, &m);
        push_all(&mut out, &str_chars("\",\"path\":\""));
        push_all(&mut out, &p);
        push_all(&mut out, &str_chars("\",\"status\":404}"));
    } else {
        out = str_chars(FALLBACK_HTML_HEAD);
        push_all(&mut out, &m);
        out.push(' ');
        out.push('"');
        push_all(&mut out, &p);
        out.push('"');
        push_all(&mut out, &str_chars(FALLBACK_HTML_TAIL));
    }
    chars_to_string(&out)
}

} // verus!
