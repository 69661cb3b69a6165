//! Handler annotations (`@Query`, `@PathFilter`, `@Auth`, `@Cors`,
//! `@Middleware`): the registered settings, and the decisions made from them
//! and from the request being served.
use vstd::prelude::*;
use crate::text::{chars_to_string, str_chars, sub_chars, trim_whitespace, trim_ws};
use crate::form::{get_query_param, query_value, url_decode, url_decoded};
use crate::route::{get_path_param, match_path, path_matches, path_param};

verus! {

/// The path, query and method of the request being served.
#[derive(Clone, Debug, Default)]
pub struct CurrentRequestContext {
    pub path: String,
    pub query: String,
    pub method: String,
}

/// The settings that the annotations of the active handler registered.
#[derive(Clone, Debug, Default)]
pub struct ActiveAnnotationState {
    pub query_key: String,
    pub query_default: String,
    pub path_filter_pattern: String,
    pub auth_role: String,
    pub cors_origin: String,
    pub cors_methods: String,
    pub cors_headers: String,
    pub middleware_name: String,
}

impl ActiveAnnotationState {
    /// The state before any annotation registered anything: every setting empty.
    pub fn empty() -> (r: ActiveAnnotationState)
        ensures
            r.query_key@.len() == 0,
            r.query_default@.len() == 0,
            r.path_filter_pattern@.len() == 0,
            r.auth_role@.len() == 0,
            r.cors_origin@.len() == 0,
            r.cors_methods@.len() == 0,
            r.cors_headers@.len() == 0,
            r.middleware_name@.len() == 0,
    {
        ActiveAnnotationState {
            query_key: String::new(),
            query_default: String::new(),
            path_filter_pattern: String::new(),
            auth_role: String::new(),
            cors_origin: String::new(),
            cors_methods: String::new(),
            cors_headers: String::new(),
            middleware_name: String::new(),
        }
    }

    /// Registers the query key and default value for the decorated handler.
    pub fn register_query(&mut self, key: String, default_val: String)
        ensures
            final(self).query_key@ == key@,
            final(self).query_default@ == default_val@,
            final(self).path_filter_pattern == old(self).path_filter_pattern,
            final(self).auth_role == old(self).auth_role,
            final(self).cors_origin == old(self).cors_origin,
            final(self).cors_methods == old(self).cors_methods,
            final(self).cors_headers == old(self).cors_headers,
            final(self).middleware_name == old(self).middleware_name,
    {
        self.query_key = key;
        self.query_default = default_val;
    }

    /// Registers the route pattern for PathFilter annotation.
    pub fn register_path_filter(&mut self, pattern: String)
        ensures
            final(self).path_filter_pattern@ == pattern@,
            final(self).query_key == old(self).query_key,
            final(self).query_default == old(self).query_default,
            final(self).auth_role == old(self).auth_role,
            final(self).cors_origin == old(self).cors_origin,
            final(self).cors_methods == old(self).cors_methods,
            final(self).cors_headers == old(self).cors_headers,
            final(self).middleware_name == old(self).middleware_name,
    {
        self.path_filter_pattern = pattern;
    }

    /// Registers required role for Auth annotation.
    pub fn register_auth(&mut self, role: String)
        ensures
            final(self).auth_role@ == role@,
            final(self).query_key == old(self).query_key,
            final(self).query_default == old(self).query_default,
            final(self).path_filter_pattern == old(self).path_filter_pattern,
            final(self).cors_origin == old(self).cors_origin,
            final(self).cors_methods == old(self).cors_methods,
            final(self).cors_headers == old(self).cors_headers,
            final(self).middleware_name == old(self).middleware_name,
    {
        self.auth_role = role;
    }

    /// Registers origin, methods, and headers for Cors annotation.
    pub fn register_cors(&mut self, origin: String, methods: String, headers: String)
        ensures
            final(self).cors_origin@ == origin@,
            final(self).cors_methods@ == methods@,
            final(self).cors_headers@ == headers@,
            final(self).query_key == old(self).query_key,
            final(self).query_default == old(self).query_default,
            final(self).path_filter_pattern == old(self).path_filter_pattern,
            final(self).auth_role == old(self).auth_role,
            final(self).middleware_name == old(self).middleware_name,
    {
        self.cors_origin = origin;
        self.cors_methods = methods;
        self.cors_headers = headers;
    }

    /// Registers named middleware.
    pub fn register_middleware(&mut self, name: String)
        ensures
            final(self).middleware_name@ == name@,
            final(self).query_key == old(self).query_key,
            final(self).query_default == old(self).query_default,
            final(self).path_filter_pattern == old(self).path_filter_pattern,
            final(self).auth_role == old(self).auth_role,
            final(self).cors_origin == old(self).cors_origin,
            final(self).cors_methods == old(self).cors_methods,
            final(self).cors_headers == old(self).cors_headers,
    {
        self.middleware_name = name;
    }
}

/// The query string to read: the one given, or else the current request's.
pub open spec fn chosen(given: Seq<char>, current: Seq<char>) -> Seq<char> {
    if given.len() > 0 {
        given
    } else {
        current
    }
}

/// A decoded value with one pair of surrounding double quotes (after trimming
/// white space) removed; a value without them is kept untrimmed.
pub open spec fn unquoted(dec: Seq<char>) -> Seq<char> {
    let t = trim_ws(dec);
    if t.len() >= 2 && t[0] == '"' && t.last() == '"' {
        t.subrange(1, t.len() - 1)
    } else {
        dec
    }
}

/// What the `@Query` lookup yields for the registered `key` and `default`,
/// the query `src` given by the handler and the current request's query.
pub open spec fn query_get_value(
    key: Seq<char>,
    default: Seq<char>,
    src: Seq<char>,
    current_query: Seq<char>,
) -> Seq<char> {
    let q = chosen(src, current_query);
    if q.len() == 0 {
        default
    } else {
        let val = query_value(q, key);
        if val.len() == 0 {
            default
        } else {
            unquoted(url_decoded(val))
        }
    }
}

/// Retrieves the registered query parameter from `src` (or, when `src` is
/// empty, from the current request's query), falling back to the registered
/// default.
pub fn query_get(state: &ActiveAnnotationState, src: String, current_query: String) -> (r: String)
    ensures
        r@ == query_get_value(state.query_key@, state.query_default@, src@, current_query@),
{
    let q = if !src.as_str().is_empty() {
        src
    } else {
        current_query
    };
    if q.as_str().is_empty() {
        return state.query_default.clone();
    }
    let val = get_query_param(q, state.query_key.clone());
    if val.as_str().is_empty() {
        return state.query_default.clone();
    }
    let dec = url_decode(val);
    let dc = str_chars(dec.as_str());
    let t = trim_whitespace(&dc);
    if t.len() >= 2 && t[0] == '"' && t[t.len() - 1] == '"' {
        let inner = sub_chars(&t, 1, t.len() - 1);
        chars_to_string(&inner)
    } else {
        dec
    }
}

/// Whether the path given (or else the current request's) matches the
/// registered `@PathFilter` pattern; an empty path passes.
pub open spec fn path_filter_passes(pattern: Seq<char>, given: Seq<char>, current: Seq<char>) -> bool {
    let p = chosen(given, current);
    p.len() == 0 || path_matches(pattern, p)
}

/// Matches the registered PathFilter pattern against the given path, or the
/// current request path when none is given.
pub fn path_filter_matches(state: &ActiveAnnotationState, given_path: String, current_path: String) -> (r: bool)
    ensures
        r == path_filter_passes(state.path_filter_pattern@, given_path@, current_path@),
{
    let p = if !given_path.as_str().is_empty() {
        given_path
    } else {
        current_path
    };
    if p.as_str().is_empty() {
        return true;
    }
    match_path(state.path_filter_pattern.clone(), p)
}

/// The key `userId`.
pub open spec fn user_id_key() -> Seq<char> {
    "userId"@
}

/// The `userId` of the given path (or else the current one, or else `"1"`)
/// under the registered pattern, `"1"` when it has none.
pub open spec fn user_id_value(pattern: Seq<char>, given: Seq<char>, current: Seq<char>) -> Seq<char> {
    let p = if given.len() > 0 {
        given
    } else if current.len() > 0 {
        current
    } else {
        seq!['1']
    };
    let id = path_param(pattern, p, user_id_key());
    if id.len() == 0 {
        seq!['1']
    } else {
        id
    }
}

/// Extracts the userId parameter from the registered pattern and the given
/// (or current) path.
pub fn path_filter_user_id(state: &ActiveAnnotationState, given_path: String, current_path: String) -> (r: String)
    ensures
        r@ == user_id_value(state.path_filter_pattern@, given_path@, current_path@),
{
    let one: Vec<char> = vec!['1'];
    assert(one@ =~= seq!['1']);
    let p = if !given_path.as_str().is_empty() {
        given_path
    } else if !current_path.as_str().is_empty() {
        current_path
    } else {
        chars_to_string(&one)
    };
    let id = get_path_param(state.path_filter_pattern.clone(), p, "userId".to_owned());
    if id.as_str().is_empty() {
        chars_to_string(&one)
    } else {
        id
    }
}

/// Extracts a named parameter from the registered pattern and the current path.
pub fn path_filter_param(state: &ActiveAnnotationState, key: String, current_path: String) -> (r: String)
    ensures
        r@ == path_param(state.path_filter_pattern@, current_path@, key@),
{
    get_path_param(state.path_filter_pattern.clone(), current_path, key)
}

/// The role required when the annotation state cannot be read.
pub open spec fn fallback_role() -> Seq<char> {
    "admin"@
}

/// The role assumed when the request names none.
pub open spec fn default_role() -> Seq<char> {
    "user"@
}

/// The key under which a request names its role.
pub open spec fn role_key() -> Seq<char> {
    "role"@
}

/// Whether access is granted: the given role, or else the request's `role`
/// query parameter (`user` when absent), must equal the required role, which
/// is the registered one, or `admin` when the state could not be read.
pub open spec fn auth_granted(
    state: Option<Seq<char>>,
    given: Seq<char>,
    current_query: Seq<char>,
) -> bool {
    let required = match state {
        Some(role) => role,
        None => fallback_role(),
    };
    if given.len() > 0 {
        given == required
    } else {
        let current = query_value(current_query, role_key());
        let role = if current.len() == 0 {
            default_role()
        } else {
            current
        };
        role == required
    }
}

/// Validates whether the active request has the required role.
pub fn auth_check(state: Option<&ActiveAnnotationState>, given_role: String, current_query: String) -> (r: bool)
    ensures
        r == auth_granted(
            match state {
                Some(s) => Some(s.auth_role@),
                None => None,
            },
            given_role@,
            current_query@,
        ),
{
    let required_role = match state {
        Some(s) => s.auth_role.clone(),
        None => "admin".to_owned(),
    };
    if !given_role.as_str().is_empty() {
        return given_role == required_role;
    }
    let current_role = get_query_param(current_query, "role".to_owned());
    let role = if current_role.as_str().is_empty() {
        "user".to_owned()
    } else {
        current_role
    };
    role == required_role
}

/// Returns whether the origin is allowed: every origin is.
pub fn cors_is_allowed(client_origin: String) -> (r: bool)
    ensures
        r,
{
    let _ = client_origin;
    true
}

} // verus!
