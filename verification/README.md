# flamer

Helpers behind the Flamer web framework: route patterns with `:param` and
`*` segments, query strings and URL form encoding, relaxed-formula to JSON
conversion, response labelling by marker, and the handler annotations
(`@Query`, `@PathFilter`, `@Auth`, `@Cors`, `@Middleware`).

Layout:

- `src/` is the library, written in Verus. Every function has a contract over
  character sequences; `text` holds the string model, `route` path patterns,
  `form` query strings and form encoding, `json` JSON text, `request` the
  request/response values, `annotations` the annotation decisions and
  `server` the server's configuration, route shapes, body labelling and the
  answer for unmatched routes.
- `app/` is the HTTP side on axum and tokio: the router, the middleware, the
  process-wide request and annotation state, and serde-enabled copies of the
  request and response values. It takes no decision of its own.
- `tests/` exercises the library on concrete values.

Laws proved in `src/` include: text written by `url_encode` decodes back with
`url_decode` and reads back from a query with `get_query_param`; the JSON
objects of queries and path parameters bind each key once, to its last
value; every path matches itself and the pattern `*`; marked HTML and JSON
bodies are recognised and unwrapped to what was marked.
