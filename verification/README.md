# astor

Routing and middleware-chain logic for an HTTP service behind a reverse
proxy, verified with Verus.

- `src/method.rs` — the HTTP methods; one route tree per method.
- `src/middleware.rs` — the walk along a middleware chain (`Next`, `Step`)
  and the ordering of a route's extra middleware (`IntoMiddlewares`).
- `src/router.rs` — the route table: registration (`on`), global middleware,
  merging of sub-routers and lookup, with their contracts and laws.
- `src/radix.rs` — the trusted boundary to the `matchit` radix tree.
- `app/lib.rs` — the async side: boxed handlers and middleware, awaited
  along the chains that the library builds and walks.
