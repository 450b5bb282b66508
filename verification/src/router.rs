//! The application router: one radix tree per HTTP method, each route with
//! its handler and a middleware chain fixed when the route is registered.
//!
//! Routes are registered with [`Router::on`]. A route's chain is the
//! router's global middleware at that moment, then the route's extra
//! middleware. [`Router::middleware`] only affects routes registered after
//! it, and [`Router::merge`] moves routes over with their chains unchanged.

use vstd::prelude::*;

use matchit::InsertError;
use matchit::Router as RadixTree;

use crate::method::{Method, METHOD_COUNT};
use crate::middleware::{lemma_global_before_own, trace, IntoMiddlewares, Visit};
use crate::radix::{
    first_open, first_open_from, grow, insert_accepted, is_static, path_slots, tree_at, tree_insert,
    tree_inserts, tree_intact, tree_match, tree_new, tree_routes, MAX_PARAMS,
};

verus! {

/// The most routes a router holds for one method: each method's tree counts
/// insertions in `u32`.
pub const MAX_ROUTES: usize = 0xffff_fff0;

/// A route as the contracts see it.
pub struct RouteSpec<H, M> {
    pub method: Method,
    pub path: Seq<char>,
    pub handler: H,
    pub chain: Seq<M>,
}

/// A router as the contracts see it: the global middleware, in order of
/// registration, and the routes, in order of registration.
pub struct RouterSpec<H, M> {
    pub global: Seq<M>,
    pub routes: Seq<RouteSpec<H, M>>,
}

/// Some route of `rs` is registered for `method` under the pattern `path`.
pub open spec fn has_in<H, M>(rs: Seq<RouteSpec<H, M>>, method: Method, path: Seq<char>) -> bool {
    exists|i: int| 0 <= i < rs.len() && #[trigger] rs[i].method == method && rs[i].path == path
}

/// The number of routes of `rs` registered for `method`.
pub open spec fn count_in<H, M>(rs: Seq<RouteSpec<H, M>>, method: Method) -> nat
    decreases rs.len(),
{
    if rs.len() == 0 {
        0
    } else {
        count_in(rs.drop_last(), method) + if rs.last().method == method {
            1nat
        } else {
            0nat
        }
    }
}

/// The routes that the tree of `method` holds once the routes of `rs` have
/// been inserted in order, each pattern with the position of its route.
pub open spec fn table_in<H, M>(rs: Seq<RouteSpec<H, M>>, method: Method) -> Map<Seq<char>, usize>
    decreases rs.len(),
{
    if rs.len() == 0 {
        Map::empty()
    } else if rs.last().method == method {
        grow(table_in(rs.drop_last(), method), rs.last().path, (rs.len() - 1) as usize)
    } else {
        table_in(rs.drop_last(), method)
    }
}

/// Whether the tree of its method, holding the routes before it, accepts
/// route `j` of `rs`.
pub open spec fn accepted_at<H, M>(rs: Seq<RouteSpec<H, M>>, j: int) -> bool {
    insert_accepted(table_in(rs.take(j), rs[j].method).dom(), rs[j].path)
}

/// Each route of `rs` was accepted by the tree of its method holding the
/// routes registered before it.
pub open spec fn accepted_in_order<H, M>(rs: Seq<RouteSpec<H, M>>) -> bool {
    forall|j: int| 0 <= j < rs.len() ==> #[trigger] accepted_at(rs, j)
}

/// No two routes of `rs` share a method and a non-empty pattern.
pub open spec fn distinct_in<H, M>(rs: Seq<RouteSpec<H, M>>) -> bool {
    forall|i: int, j: int|
        0 <= i < j < rs.len() && #[trigger] rs[i].method == #[trigger] rs[j].method
            && rs[i].path == rs[j].path ==> rs[i].path.len() == 0
}

proof fn lemma_table_push<H, M>(rs: Seq<RouteSpec<H, M>>, x: RouteSpec<H, M>, method: Method)
    ensures
        table_in(rs.push(x), method) == if x.method == method {
            grow(table_in(rs, method), x.path, rs.len() as usize)
        } else {
            table_in(rs, method)
        },
{
    assert(rs.push(x).drop_last() =~= rs);
}

/// What [`grow`] keeps: the new pattern holds the new value; any other
/// pattern after the insertion held its value before it, or, when the tree
/// held only the empty pattern, holds the empty pattern's value; and a tree
/// holding more than the empty pattern keeps all it held.
proof fn lemma_grow(t: Map<Seq<char>, usize>, route: Seq<char>, v: usize)
    ensures
        grow(t, route, v).dom().contains(route),
        grow(t, route, v)[route] == v,
        forall|q: Seq<char>|
            q != route && #[trigger] grow(t, route, v).dom().contains(q) ==> if t.dom()
                == Set::<Seq<char>>::empty().insert(Seq::empty()) {
                t.dom().contains(Seq::empty()) && grow(t, route, v)[q] == t[Seq::empty()]
            } else {
                t.dom().contains(q) && grow(t, route, v)[q] == t[q]
            },
        t.dom() != Set::<Seq<char>>::empty().insert(Seq::empty()) ==> grow(t, route, v) == t.insert(
            route,
            v,
        ),
{
    if t.dom() == Set::<Seq<char>>::empty().insert(Seq::empty()) {
        assert(t.dom().contains(Seq::empty()));
        match first_open(route) {
            Some(i) => {},
            None => {},
        }
    }
}

/// Every position a tree holds names a route of its method.
proof fn lemma_table_values<H, M>(rs: Seq<RouteSpec<H, M>>, method: Method)
    requires
        rs.len() <= usize::MAX,
    ensures
        forall|p: Seq<char>| #[trigger]
            table_in(rs, method).dom().contains(p) ==> table_in(rs, method)[p] < rs.len()
                && rs[table_in(rs, method)[p] as int].method == method,
    decreases rs.len(),
{
    if rs.len() > 0 {
        let prev = rs.drop_last();
        let x = rs.last();
        lemma_table_values(prev, method);
        lemma_table_push(prev, x, method);
        assert(prev.push(x) =~= rs);
        let t = table_in(prev, method);
        lemma_grow(t, x.path, prev.len() as usize);
        assert(rs[rs.len() - 1] == x);
        assert forall|p: Seq<char>| #[trigger] table_in(rs, method).dom().contains(p) implies table_in(
            rs,
            method,
        )[p] < rs.len() && rs[table_in(rs, method)[p] as int].method == method by {
            if x.method == method {
                if p == x.path {
                } else if t.dom() == Set::<Seq<char>>::empty().insert(Seq::empty()) {
                    assert(t.dom().contains(Seq::<char>::empty()));
                    assert(rs[t[Seq::<char>::empty()] as int] == prev[t[Seq::<char>::empty()] as int]);
                } else {
                    assert(t.dom().contains(p));
                    assert(rs[t[p] as int] == prev[t[p] as int]);
                }
            } else {
                assert(rs[t[p] as int] == prev[t[p] as int]);
            }
        }
    }
}

/// A non-empty pattern registered for a method stays in its tree, under the
/// position of a route registered with it.
proof fn lemma_table_registered<H, M>(rs: Seq<RouteSpec<H, M>>, method: Method, p: Seq<char>)
    requires
        has_in(rs, method, p),
        p.len() > 0,
        rs.len() <= usize::MAX,
    ensures
        table_in(rs, method).dom().contains(p),
        table_in(rs, method)[p] < rs.len(),
        rs[table_in(rs, method)[p] as int].method == method,
        rs[table_in(rs, method)[p] as int].path == p,
    decreases rs.len(),
{
    let prev = rs.drop_last();
    let x = rs.last();
    lemma_table_push(prev, x, method);
    assert(prev.push(x) =~= rs);
    let t = table_in(prev, method);
    lemma_grow(t, x.path, prev.len() as usize);
    assert(rs[rs.len() - 1] == x);
    if x.method == method && x.path == p {
    } else {
        let i = choose|i: int| 0 <= i < rs.len() && #[trigger] rs[i].method == method && rs[i].path == p;
        assert(i < prev.len());
        assert(prev[i].method == method);
        lemma_table_registered(prev, method, p);
        assert(t.dom().contains(p));
        assert(t.dom() != Set::<Seq<char>>::empty().insert(Seq::empty()));
        assert(rs[t[p] as int] == prev[t[p] as int]);
    }
}

/// When every pattern registered for a method is free of parameters, its
/// tree holds only registered patterns.
proof fn lemma_table_static<H, M>(rs: Seq<RouteSpec<H, M>>, method: Method)
    requires
        forall|i: int| 0 <= i < rs.len() && #[trigger] rs[i].method == method ==> is_static(rs[i].path),
    ensures
        forall|q: Seq<char>| #[trigger] table_in(rs, method).dom().contains(q) ==> has_in(rs, method, q),
    decreases rs.len(),
{
    if rs.len() > 0 {
        let prev = rs.drop_last();
        let x = rs.last();
        assert forall|i: int| 0 <= i < prev.len() && #[trigger] prev[i].method == method implies is_static(
            prev[i].path,
        ) by {
            assert(rs[i].method == method);
        }
        lemma_table_static(prev, method);
        lemma_table_push(prev, x, method);
        assert(prev.push(x) =~= rs);
        assert forall|q: Seq<char>| #[trigger] table_in(rs, method).dom().contains(q) implies has_in(
            rs,
            method,
            q,
        ) by {
            lemma_has_in_push(prev, x, method, q);
            if x.method == method {
                assert(rs[rs.len() - 1].method == method);
                assert(is_static(x.path));
                lemma_first_open_static(x.path, 0);
            }
        }
    }
}

/// A pattern without braces opens no parameter.
proof fn lemma_first_open_static(r: Seq<char>, k: nat)
    requires
        is_static(r),
    ensures
        first_open_from(r, k) is None,
    decreases r.len() - k,
{
    if k < r.len() {
        lemma_first_open_static(r, k + 1);
    }
}

proof fn lemma_count_push<H, M>(rs: Seq<RouteSpec<H, M>>, x: RouteSpec<H, M>, method: Method)
    ensures
        count_in(rs.push(x), method) == count_in(rs, method) + if x.method == method {
            1nat
        } else {
            0nat
        },
{
    assert(rs.push(x).drop_last() =~= rs);
}

proof fn lemma_count_concat<H, M>(a: Seq<RouteSpec<H, M>>, b: Seq<RouteSpec<H, M>>, method: Method)
    ensures
        count_in(a + b, method) == count_in(a, method) + count_in(b, method),
    decreases b.len(),
{
    if b.len() == 0 {
        assert(a + b =~= a);
    } else {
        lemma_count_concat(a, b.drop_last(), method);
        assert((a + b).drop_last() =~= a + b.drop_last());
    }
}

proof fn lemma_count_take<H, M>(b: Seq<RouteSpec<H, M>>, j: int, method: Method)
    requires
        0 <= j <= b.len(),
    ensures
        count_in(b.take(j), method) <= count_in(b, method),
        j < b.len() ==> count_in(b.take(j + 1), method) == count_in(b.take(j), method) + if b[j].method
            == method {
            1nat
        } else {
            0nat
        },
{
    lemma_count_concat(b.take(j), b.skip(j), method);
    assert(b.take(j) + b.skip(j) =~= b);
    if j < b.len() {
        assert(b.take(j + 1) =~= b.take(j).push(b[j]));
        lemma_count_push(b.take(j), b[j], method);
    }
}

proof fn lemma_has_in_push<H, M>(rs: Seq<RouteSpec<H, M>>, x: RouteSpec<H, M>, method: Method, path: Seq<char>)
    ensures
        has_in(rs.push(x), method, path) == (has_in(rs, method, path) || (x.method == method
            && x.path == path)),
{
    let ps = rs.push(x);
    if has_in(ps, method, path) {
        let i = choose|i: int| 0 <= i < ps.len() && #[trigger] ps[i].method == method && ps[i].path == path;
        if i < rs.len() {
            assert(rs[i].method == method);
        }
    }
    if has_in(rs, method, path) {
        let i = choose|i: int| 0 <= i < rs.len() && #[trigger] rs[i].method == method && rs[i].path == path;
        assert(ps[i].method == method);
    }
    if x.method == method && x.path == path {
        assert(ps[rs.len() as int].method == method);
    }
}

proof fn lemma_has_in_concat<H, M>(a: Seq<RouteSpec<H, M>>, b: Seq<RouteSpec<H, M>>, method: Method, path: Seq<char>)
    ensures
        has_in(a + b, method, path) == (has_in(a, method, path) || has_in(b, method, path)),
{
    let c = a + b;
    if has_in(c, method, path) {
        let i = choose|i: int| 0 <= i < c.len() && #[trigger] c[i].method == method && c[i].path == path;
        if i < a.len() {
            assert(a[i].method == method);
        } else {
            assert(b[i - a.len()].method == method);
        }
    }
    if has_in(a, method, path) {
        let i = choose|i: int| 0 <= i < a.len() && #[trigger] a[i].method == method && a[i].path == path;
        assert(c[i].method == method);
    }
    if has_in(b, method, path) {
        let i = choose|i: int| 0 <= i < b.len() && #[trigger] b[i].method == method && b[i].path == path;
        assert(c[a.len() + i].method == method);
    }
}

proof fn lemma_accepted_push<H, M>(rs: Seq<RouteSpec<H, M>>, x: RouteSpec<H, M>)
    requires
        accepted_in_order(rs),
        insert_accepted(table_in(rs, x.method).dom(), x.path),
    ensures
        accepted_in_order(rs.push(x)),
{
    let ps = rs.push(x);
    assert forall|j: int| 0 <= j < ps.len() implies #[trigger] accepted_at(ps, j) by {
        if j < rs.len() {
            assert(ps.take(j) =~= rs.take(j));
            assert(accepted_at(rs, j));
        } else {
            assert(ps.take(j) =~= rs);
        }
    }
}

impl<H, M> RouterSpec<H, M> {
    /// Some route is registered for `method` under the pattern `path`.
    pub open spec fn has_route(self, method: Method, path: Seq<char>) -> bool {
        has_in(self.routes, method, path)
    }

    /// The number of routes registered for `method`.
    pub open spec fn count(self, method: Method) -> nat {
        count_in(self.routes, method)
    }

    /// The routes that the tree of `method` holds: each pattern with the
    /// position of its route.
    pub open spec fn table(self, method: Method) -> Map<Seq<char>, usize> {
        table_in(self.routes, method)
    }

    /// Every route's pattern is free of parameters.
    pub open spec fn static_only(self) -> bool {
        forall|i: int| 0 <= i < self.routes.len() ==> is_static(#[trigger] self.routes[i].path)
    }

    /// Every pattern registered for `method` is free of parameters.
    pub open spec fn all_static(self, method: Method) -> bool {
        forall|i: int|
            0 <= i < self.routes.len() && #[trigger] self.routes[i].method == method ==> is_static(
                self.routes[i].path,
            )
    }

    /// The router with one more route at the end.
    pub open spec fn with_route(self, route: RouteSpec<H, M>) -> RouterSpec<H, M> {
        RouterSpec { global: self.global, routes: self.routes.push(route) }
    }

    /// The router after a global middleware is appended.
    pub open spec fn with_middleware(self, mw: M) -> RouterSpec<H, M> {
        RouterSpec { global: self.global.push(mw), routes: self.routes }
    }

    /// The router after a route is registered with the global middleware
    /// so far followed by `extra` as its chain.
    pub open spec fn registered(self, method: Method, path: Seq<char>, handler: H, extra: Seq<M>) -> RouterSpec<H, M> {
        self.with_route(RouteSpec { method, path, handler, chain: self.global + extra })
    }

    /// The router after the routes of `other` are appended, chains as they are.
    pub open spec fn merged(self, other: RouterSpec<H, M>) -> RouterSpec<H, M> {
        RouterSpec { global: self.global, routes: self.routes + other.routes }
    }

    /// What a tree match stands for: the route at the matched position, with
    /// the matched parameters.
    pub open spec fn resolve(self, found: Option<(usize, Seq<(Seq<char>, Seq<char>)>)>) -> Option<
        (H, Seq<M>, Seq<(Seq<char>, Seq<char>)>),
    > {
        match found {
            Some((i, params)) => if i < self.routes.len() {
                Some((self.routes[i as int].handler, self.routes[i as int].chain, params))
            } else {
                None
            },
            None => None,
        }
    }

    /// Whether route `j` of `added` is accepted after this router's routes and
    /// the routes of `added` before it.
    pub open spec fn accepts_at(self, added: Seq<RouteSpec<H, M>>, j: int) -> bool {
        insert_accepted(table_in(self.routes + added.take(j), added[j].method).dom(), added[j].path)
    }

    /// Each route of `added`, in turn, is accepted by the tree of its method
    /// holding the routes registered before it.
    pub open spec fn accepts_in_order(self, added: Seq<RouteSpec<H, M>>) -> bool {
        forall|j: int| 0 <= j < added.len() ==> #[trigger] self.accepts_at(added, j)
    }
}

/// Registering a route changes no route already there and not the global
/// middleware; the new route comes last, and a request to it meets the
/// global middleware in the order it was registered, then the route's extra
/// middleware from left to right, then the handler.
pub proof fn lemma_registered_route_order<H, M>(
    r: RouterSpec<H, M>,
    method: Method,
    path: Seq<char>,
    handler: H,
    extra: Seq<M>,
)
    ensures
        ({
            let after = r.registered(method, path, handler, extra);
            &&& after.global == r.global
            &&& after.routes.len() == r.routes.len() + 1
            &&& forall|i: int| 0 <= i < r.routes.len() ==> #[trigger] after.routes[i] == r.routes[i]
            &&& after.routes[r.routes.len() as int].method == method
            &&& after.routes[r.routes.len() as int].path == path
            &&& after.routes[r.routes.len() as int].handler == handler
            &&& trace(after.routes[r.routes.len() as int].chain, 0, handler) == r.global.map_values(
                |m: M| Visit::<M, H>::Middleware(m),
            ) + extra.map_values(|m: M| Visit::<M, H>::Middleware(m)) + seq![
                Visit::Handler(handler),
            ]
        }),
{
    lemma_global_before_own::<M, H>(r.global, extra, handler);
}

/// A global middleware reaches only the routes registered after it: the
/// routes already there keep their chains, and the next route's chain is
/// the earlier global middleware, then this one, then the route's extras.
pub proof fn lemma_middleware_reaches_later_routes<H, M>(
    r: RouterSpec<H, M>,
    mw: M,
    method: Method,
    path: Seq<char>,
    handler: H,
    extra: Seq<M>,
)
    ensures
        ({
            let after = r.with_middleware(mw).registered(method, path, handler, extra);
            &&& after.routes.len() == r.routes.len() + 1
            &&& forall|i: int| 0 <= i < r.routes.len() ==> #[trigger] after.routes[i] == r.routes[i]
            &&& after.routes[r.routes.len() as int].chain == r.global.push(mw) + extra
        }),
{
}

/// Merging keeps this router's global middleware and routes, and appends
/// the other router's routes in their order, each with the chain it was
/// registered with: this router's global middleware is not added to them.
pub proof fn lemma_merge_keeps_chains<H, M>(a: RouterSpec<H, M>, b: RouterSpec<H, M>)
    ensures
        a.merged(b).global == a.global,
        a.merged(b).routes.len() == a.routes.len() + b.routes.len(),
        forall|i: int| 0 <= i < a.routes.len() ==> #[trigger] a.merged(b).routes[i] == a.routes[i],
        forall|j: int|
            0 <= j < b.routes.len() ==> #[trigger] a.merged(b).routes[a.routes.len() + j]
                == b.routes[j],
{
}

/// After a merge, a route registered on the result gets this router's
/// global middleware followed by its own extras: the other router's global
/// middleware reaches no route.
pub proof fn lemma_merge_keeps_own_global<H, M>(
    a: RouterSpec<H, M>,
    b: RouterSpec<H, M>,
    method: Method,
    path: Seq<char>,
    handler: H,
    extra: Seq<M>,
)
    ensures
        ({
            let after = a.merged(b).registered(method, path, handler, extra);
            &&& after.global == a.global
            &&& after.routes.len() == a.routes.len() + b.routes.len() + 1
            &&& after.routes[(a.routes.len() + b.routes.len()) as int].chain == a.global + extra
        }),
{
}

/// Merging is associative on what the contracts see: merging `b` and then
/// `c` into `a` gives the same global middleware and the same routes, with
/// the same chains, as merging into `a` the result of merging `c` into `b`.
pub proof fn lemma_merge_associative<H, M>(a: RouterSpec<H, M>, b: RouterSpec<H, M>, c: RouterSpec<H, M>)
    ensures
        a.merged(b).merged(c) == a.merged(b.merged(c)),
{
    assert(a.routes + b.routes + c.routes =~= a.routes + (b.routes + c.routes));
}

/// Merging `b` and then `c` into `a` succeeds exactly when merging into `a`
/// the result of merging `c` into `b` does: either way each route meets the
/// same routes before it. Together with [`lemma_merge_associative`], the two
/// orders of merging, where `c` can be merged into `b`, agree on success and
/// on every router they give.
pub proof fn lemma_merge_accepts_split<H, M>(a: RouterSpec<H, M>, b: RouterSpec<H, M>, c: RouterSpec<H, M>)
    ensures
        a.accepts_in_order(b.merged(c).routes) == (a.accepts_in_order(b.routes) && a.merged(
            b,
        ).accepts_in_order(c.routes)),
{
    let bc = b.merged(c).routes;
    assert(bc == b.routes + c.routes);
    assert forall|j: int| 0 <= j < b.routes.len() implies #[trigger] a.accepts_at(bc, j)
        == a.accepts_at(b.routes, j) by {
        assert(bc.take(j) =~= b.routes.take(j));
        assert(bc[j] == b.routes[j]);
    }
    assert forall|j: int| 0 <= j < c.routes.len() implies #[trigger] a.merged(b).accepts_at(
        c.routes,
        j,
    ) == a.accepts_at(bc, b.routes.len() + j) by {
        assert(a.routes + bc.take(b.routes.len() + j) =~= (a.routes + b.routes) + c.routes.take(j));
        assert(bc[b.routes.len() + j] == c.routes[j]);
    }
    if a.accepts_in_order(bc) {
        assert forall|j: int| 0 <= j < b.routes.len() implies #[trigger] a.accepts_at(b.routes, j) by {
            assert(a.accepts_at(bc, j));
        }
        assert forall|j: int| 0 <= j < c.routes.len() implies #[trigger] a.merged(b).accepts_at(
            c.routes,
            j,
        ) by {
            assert(a.accepts_at(bc, b.routes.len() + j));
        }
    }
    if a.accepts_in_order(b.routes) && a.merged(b).accepts_in_order(c.routes) {
        assert forall|j: int| 0 <= j < bc.len() implies #[trigger] a.accepts_at(bc, j) by {
            if j < b.routes.len() {
                assert(a.accepts_at(b.routes, j));
            } else {
                assert(a.merged(b).accepts_at(c.routes, j - b.routes.len()));
            }
        }
    }
}

/// What a lookup answers depends on the routes alone: two routers with the
/// same routes, whatever their global middleware, answer every lookup alike.
/// So adding global middleware changes no lookup, and a merge into a router
/// without routes answers as the merged router did.
pub proof fn lemma_lookup_by_routes<H, M>(
    a: RouterSpec<H, M>,
    b: RouterSpec<H, M>,
    method: Method,
    path: Seq<char>,
)
    requires
        a.routes == b.routes,
    ensures
        a.resolve(tree_match(a.table(method), path)) == b.resolve(tree_match(b.table(method), path)),
{
}

/// A tree match of position `i` with parameters `ps` stands for route `i`
/// itself: its handler and its chain, with every matched parameter, in the
/// order matched. A position that names no route, or no match, stands for
/// nothing.
pub proof fn lemma_resolve_gives_matched_route<H, M>(
    r: RouterSpec<H, M>,
    i: usize,
    ps: Seq<(Seq<char>, Seq<char>)>,
)
    ensures
        i < r.routes.len() ==> r.resolve(Some((i, ps))) == Some(
            (r.routes[i as int].handler, r.routes[i as int].chain, ps),
        ),
        i < r.routes.len() ==> r.resolve(Some((i, ps))).unwrap().2 == ps,
        i >= r.routes.len() ==> r.resolve(Some((i, ps))) is None,
        r.resolve(None) is None,
{
}

/// A lookup finds the route registered under the pattern that matched: if
/// the tree of `method` matches `path` at position `i` with parameters `ps`,
/// the answer is route `i`, one of `method`'s, with exactly `ps`; and a path
/// that the tree does not match finds nothing.
pub proof fn lemma_lookup_finds_matched_route<H, M>(r: RouterSpec<H, M>, method: Method, path: Seq<char>)
    ensures
        r.resolve(tree_match(r.table(method), path)) is Some <==> tree_match(
            r.table(method),
            path,
        ) is Some && tree_match(r.table(method), path).unwrap().0 < r.routes.len(),
        tree_match(r.table(method), path) matches Some((i, ps)) ==> (i < r.routes.len() ==> r.resolve(
            tree_match(r.table(method), path),
        ) == Some((r.routes[i as int].handler, r.routes[i as int].chain, ps))),
{
}

/// A refused registration: the pattern and what `matchit` objected to.
#[derive(Debug)]
pub struct RouteError {
    pub path: String,
    pub cause: InsertError,
}

/// A matched route: its handler, its middleware chain and the path
/// parameters, names and values, in order.
pub struct RouteMatch<'a, H, M> {
    pub handler: &'a H,
    pub chain: Vec<&'a M>,
    pub params: Vec<(String, String)>,
}

/// What a lookup gives back, as the contracts see it.
pub open spec fn outcome<H, M>(r: Option<RouteMatch<'_, H, M>>) -> Option<
    (H, Seq<M>, Seq<(Seq<char>, Seq<char>)>),
> {
    match r {
        Some(m) => Some((*m.handler, m.chain@.map_values(|x: &M| *x), m.params.deep_view())),
        None => None,
    }
}

struct RouteEntry<H> {
    method: Method,
    path: String,
    handler: H,
    /// Positions in the router's middleware pool.
    chain: Vec<usize>,
}

/// The application router.
///
/// Routes are stored in registration order; each method's tree maps a
/// pattern to the position of its route. Middleware lives once in a pool and
/// chains refer to it by position, so a global middleware shared by many
/// routes is stored once.
pub struct Router<H, M> {
    trees: Vec<RadixTree<usize>>,
    routes: Vec<RouteEntry<H>>,
    pool: Vec<M>,
    middleware: Vec<usize>,
}

impl<H, M> View for Router<H, M> {
    type V = RouterSpec<H, M>;

    closed spec fn view(&self) -> RouterSpec<H, M> {
        RouterSpec {
            global: self.middleware@.map_values(|j: usize| self.pool@[j as int]),
            routes: self.routes@.map_values(
                |e: RouteEntry<H>|
                    RouteSpec {
                        method: e.method,
                        path: e.path@,
                        handler: e.handler,
                        chain: e.chain@.map_values(|j: usize| self.pool@[j as int]),
                    },
            ),
        }
    }
}

impl<H, M> Router<H, M> {
    /// The routes that the tree of `method` holds.
    spec fn tree(&self, method: Method) -> Map<Seq<char>, usize> {
        tree_routes(self.trees@[method.ordinal() as int])
    }

    /// The router's internal consistency: every position refers to something
    /// that exists; each tree is intact, holds what inserting its method's
    /// routes in order gives ([`table_in`]), and counts no more insertions than
    /// its method has routes; each route was accepted after the ones before
    /// it; and no non-empty pattern is registered twice for a method.
    pub closed spec fn wf(&self) -> bool {
        &&& self.trees@.len() == METHOD_COUNT
        &&& forall|j: int|
            0 <= j < self.middleware@.len() ==> #[trigger] self.middleware@[j] < self.pool@.len()
        &&& forall|i: int, j: int|
            0 <= i < self.routes@.len() && 0 <= j < self.routes@[i].chain@.len()
                ==> #[trigger] self.routes@[i].chain@[j] < self.pool@.len()
        &&& forall|i: int|
            0 <= i < self.routes@.len() ==> path_slots(#[trigger] self.routes@[i].path@)
                <= MAX_PARAMS
        &&& forall|m: Method| #[trigger]
            tree_inserts(self.trees@[m.ordinal() as int]) <= count_in(self@.routes, m)
        &&& forall|m: Method| #[trigger] tree_intact(self.trees@[m.ordinal() as int])
        &&& forall|m: Method| #[trigger] self.tree(m) == table_in(self@.routes, m)
        &&& accepted_in_order(self@.routes)
        &&& distinct_in(self@.routes)
    }

    /// Creates an empty router with no registered routes or middleware.
    pub fn new() -> (r: Self)
        ensures
            r.wf(),
            r@.global == Seq::<M>::empty(),
            r@.routes == Seq::<RouteSpec<H, M>>::empty(),
    {
        let mut trees: Vec<RadixTree<usize>> = Vec::new();
        let mut k: usize = 0;
        while k < METHOD_COUNT
            invariant
                k <= METHOD_COUNT,
                trees@.len() == k,
                forall|j: int|
                    #![trigger trees@[j]]
                    0 <= j < k ==> tree_routes(trees@[j]).dom() == Set::<Seq<char>>::empty()
                        && tree_inserts(trees@[j]) == 0 && tree_intact(trees@[j]),
            decreases METHOD_COUNT - k,
        {
            trees.push(tree_new());
            k = k + 1;
        }
        let r = Router { trees, routes: Vec::new(), pool: Vec::new(), middleware: Vec::new() };
        assert(r@.global =~= Seq::<M>::empty());
        assert(r@.routes =~= Seq::<RouteSpec<H, M>>::empty());
        assert forall|m: Method| #[trigger] r.tree(m) == table_in(r@.routes, m) by {
            Method::lemma_ordinal_injective(m, m);
            assert(r.tree(m) =~= Map::<Seq<char>, usize>::empty());
        }
        assert forall|m: Method| #[trigger]
            tree_inserts(r.trees@[m.ordinal() as int]) <= count_in(r@.routes, m) by {
            Method::lemma_ordinal_injective(m, m);
        }
        assert forall|m: Method| #[trigger] tree_intact(r.trees@[m.ordinal() as int]) by {
            Method::lemma_ordinal_injective(m, m);
        }
        r
    }

    /// Inserts `path` into the tree of `method` and, when the tree accepts
    /// it, appends the route with the given chain of pool positions.
    fn add_route(self, method: Method, path: &str, handler: H, chain: Vec<usize>) -> (r: Result<
        Self,
        RouteError,
    >)
        requires
            self.wf(),
            path_slots(path@) <= MAX_PARAMS,
            self@.count(method) < MAX_ROUTES,
            forall|j: int| 0 <= j < chain@.len() ==> #[trigger] chain@[j] < self.pool@.len(),
        ensures
            r is Ok == insert_accepted(self@.table(method).dom(), path@),
            r matches Ok(n) ==> {
                &&& n.wf()
                &&& n.pool@ == self.pool@
                &&& n.middleware@ == self.middleware@
                &&& n@ == self@.with_route(
                    RouteSpec {
                        method,
                        path: path@,
                        handler,
                        chain: chain@.map_values(|j: usize| self.pool@[j as int]),
                    },
                )
            },
            path@.len() > 0 && self@.has_route(method, path@) ==> r is Err,
            is_static(path@) && self@.all_static(method) && !self@.has_route(method, path@)
                ==> r is Ok,
            r matches Err(e) ==> e.path@ == path@,
    {
        let ghost old_self = self;
        let ghost rs = self@.routes;
        let mut this = self;
        let idx = method.index();
        let pos = this.routes.len();
        proof {
            Method::lemma_ordinal_injective(method, method);
            assert(tree_inserts(self.trees@[method.ordinal() as int]) <= count_in(rs, method));
            assert(tree_intact(self.trees@[method.ordinal() as int]));
            assert(self.tree(method) == table_in(rs, method));
            if path@.len() > 0 && has_in(rs, method, path@) {
                lemma_table_registered(rs, method, path@);
                if table_in(rs, method).dom() == Set::<Seq<char>>::empty().insert(Seq::empty()) {
                    assert(path@ == Seq::<char>::empty());
                }
            }
            if is_static(path@) && self@.all_static(method) && !has_in(rs, method, path@) {
                lemma_table_static(rs, method);
                assert forall|q: Seq<char>| #[trigger]
                    table_in(rs, method).dom().contains(q) implies is_static(q) by {
                    let i = choose|i: int|
                        0 <= i < rs.len() && #[trigger] rs[i].method == method && rs[i].path == q;
                }
            }
        }
        let res = tree_insert(&mut this.trees[idx], path, pos);
        match res {
            Ok(()) => {
                let entry = RouteEntry { method, path: path.to_owned(), handler, chain };
                this.routes.push(entry);
                proof {
                    let x = RouteSpec {
                        method,
                        path: path@,
                        handler: this.routes@[pos as int].handler,
                        chain: this.routes@[pos as int].chain@.map_values(
                            |j: usize| old_self.pool@[j as int],
                        ),
                    };
                    assert(this@.global =~= old_self@.global);
                    assert(this@.routes =~= rs.push(x));
                    this.lemma_after_insert(old_self, method, pos, x);
                }
                Ok(this)
            },
            Err(cause) => Err(RouteError { path: path.to_owned(), cause }),
        }
    }

    proof fn lemma_after_insert(self, old: Self, method: Method, pos: usize, x: RouteSpec<H, M>)
        requires
            old.wf(),
            pos == old.routes@.len(),
            self.routes@.len() == pos + 1,
            forall|i: int| 0 <= i < pos ==> self.routes@[i] == old.routes@[i],
            x.method == method,
            path_slots(x.path) <= MAX_PARAMS,
            self.routes@[pos as int].path@ == x.path,
            self@.routes == old@.routes.push(x),
            forall|j: int|
                0 <= j < self.routes@[pos as int].chain@.len()
                    ==> #[trigger] self.routes@[pos as int].chain@[j] < old.pool@.len(),
            self.pool == old.pool,
            self.middleware == old.middleware,
            self.trees@ == old.trees@.update(
                method.ordinal() as int,
                self.trees@[method.ordinal() as int],
            ),
            tree_inserts(self.trees@[method.ordinal() as int]) <= tree_inserts(
                old.trees@[method.ordinal() as int],
            ) + 1,
            tree_intact(self.trees@[method.ordinal() as int]),
            tree_routes(self.trees@[method.ordinal() as int]) == grow(
                old.tree(method),
                x.path,
                pos,
            ),
            insert_accepted(old@.table(method).dom(), x.path),
            !(x.path.len() > 0 && has_in(old@.routes, method, x.path)),
        ensures
            self.wf(),
    {
        let rs = old@.routes;
        Method::lemma_ordinal_injective(method, method);
        assert forall|m: Method| #[trigger] self.tree(m) == table_in(self@.routes, m) by {
            Method::lemma_ordinal_injective(m, method);
            lemma_table_push(rs, x, m);
            assert(old.tree(m) == table_in(rs, m));
            assert(rs.len() == pos);
            if m != method {
                assert(self.trees@[m.ordinal() as int] == old.trees@[m.ordinal() as int]);
            }
        }
        assert forall|m: Method| #[trigger]
            tree_inserts(self.trees@[m.ordinal() as int]) <= count_in(self@.routes, m) by {
            Method::lemma_ordinal_injective(m, method);
            lemma_count_push(rs, x, m);
            assert(tree_inserts(old.trees@[m.ordinal() as int]) <= count_in(rs, m));
        }
        assert forall|m: Method| #[trigger] tree_intact(self.trees@[m.ordinal() as int]) by {
            Method::lemma_ordinal_injective(m, method);
            assert(tree_intact(old.trees@[m.ordinal() as int]));
        }
        lemma_accepted_push(rs, x);
        assert forall|i: int, j: int|
            0 <= i < j < self@.routes.len() && #[trigger] self@.routes[i].method
                == #[trigger] self@.routes[j].method && self@.routes[i].path
                == self@.routes[j].path implies self@.routes[i].path.len() == 0 by {
            if j == pos {
                assert(self@.routes[i] == rs[i]);
                assert(rs[i].method == method);
            } else {
                assert(self@.routes[i] == rs[i] && self@.routes[j] == rs[j]);
            }
        }
        assert forall|i: int, j: int|
            0 <= i < self.routes@.len() && 0 <= j < self.routes@[i].chain@.len()
                implies #[trigger] self.routes@[i].chain@[j] < self.pool@.len() by {
            if i < pos {
                assert(old.routes@[i].chain@[j] < old.pool@.len());
            }
        }
        assert forall|i: int|
            0 <= i < self.routes@.len() implies path_slots(#[trigger] self.routes@[i].path@)
                <= MAX_PARAMS by {
            if i < pos {
                assert(path_slots(old.routes@[i].path@) <= MAX_PARAMS);
            }
        }
    }

    /// Extending the middleware pool changes neither the consistency of the
    /// router nor what its chains stand for.
    proof fn lemma_pool_extended(self, old: Self)
        requires
            old.wf(),
            self.trees == old.trees,
            self.routes == old.routes,
            self.middleware == old.middleware,
            self.pool@.len() >= old.pool@.len(),
            forall|j: int| 0 <= j < old.pool@.len() ==> #[trigger] self.pool@[j] == old.pool@[j],
        ensures
            self.wf(),
            self@ == old@,
    {
        assert(self@.global =~= old@.global);
        assert forall|i: int| 0 <= i < self@.routes.len() implies #[trigger] self@.routes[i]
            == old@.routes[i] by {
            assert(self@.routes[i].chain =~= old@.routes[i].chain);
        }
        assert(self@.routes =~= old@.routes);
        assert forall|m: Method| #[trigger] self.tree(m) == table_in(self@.routes, m) by {
            assert(old.tree(m) == table_in(old@.routes, m));
        }
    }

    /// Appends a global middleware. It joins the chain of every route
    /// registered on this router after this call, after the global middleware
    /// already there; routes registered before keep their chains, and every
    /// lookup gives what it gave.
    pub fn middleware(self, mw: M) -> (r: Self)
        requires
            self.wf(),
        ensures
            r.wf(),
            r@ == self@.with_middleware(mw),
    {
        let ghost old_self = self;
        let mut this = self;
        let at = this.pool.len();
        this.pool.push(mw);
        let ghost grown = this;
        proof {
            grown.lemma_pool_extended(old_self);
        }
        this.middleware.push(at);
        proof {
            assert forall|j: int| 0 <= j < this.middleware@.len() implies #[trigger]
                this.middleware@[j] < this.pool@.len() by {
                if j < old_self.middleware@.len() {
                    assert(old_self.middleware@[j] < old_self.pool@.len());
                }
            }
            assert(this@.global =~= grown@.global.push(mw));
            assert(this@.routes =~= grown@.routes);
            assert forall|m: Method| #[trigger] this.tree(m) == table_in(this@.routes, m) by {
                assert(grown.tree(m) == table_in(grown@.routes, m));
            }
        }
        this
    }

    /// Registers `handler` for `method` and the pattern `path`, with the chain
    /// made of the global middleware registered so far followed by `extra`.
    ///
    /// `matchit` decides whether the pattern is accepted ([`insert_accepted`]
    /// of the patterns that the method's tree holds): a malformed pattern, or
    /// one that conflicts with a registered one, is refused. A non-empty
    /// pattern already registered for the method is always refused; a
    /// parameter-free pattern is always accepted among parameter-free ones.
    pub fn on<E: IntoMiddlewares<M>>(self, method: Method, path: &str, handler: H, extra: E) -> (r:
        Result<Self, RouteError>)
        requires
            self.wf(),
            path_slots(path@) <= MAX_PARAMS,
            self@.count(method) < MAX_ROUTES,
        ensures
            r is Ok == insert_accepted(self@.table(method).dom(), path@),
            r matches Ok(n) ==> n.wf() && n@ == self@.registered(
                method,
                path@,
                handler,
                extra.middlewares(),
            ),
            path@.len() > 0 && self@.has_route(method, path@) ==> r is Err,
            is_static(path@) && self@.all_static(method) && !self@.has_route(method, path@)
                ==> r is Ok,
            r matches Err(e) ==> e.path@ == path@,
    {
        let ghost old_self = self;
        let ghost extra_spec = extra.middlewares();
        let mut this = self;
        let mut added = extra.into_middlewares();
        let base = this.pool.len();
        let count = added.len();
        this.pool.append(&mut added);
        let pool_len = this.pool.len();
        proof {
            this.lemma_pool_extended(old_self);
        }
        let mut chain: Vec<usize> = Vec::new();
        let global = this.middleware.len();
        let mut k: usize = 0;
        while k < global
            invariant
                this.wf(),
                global == this.middleware@.len(),
                k <= global,
                chain@ == this.middleware@.take(k as int),
            decreases global - k,
        {
            chain.push(this.middleware[k]);
            k = k + 1;
            proof {
                assert(chain@ =~= this.middleware@.take(k as int));
            }
        }
        let mut t: usize = 0;
        while t < count
            invariant
                this.wf(),
                global == this.middleware@.len(),
                base + count == pool_len,
                pool_len == this.pool@.len(),
                t <= count,
                chain@.len() == global + t,
                chain@.subrange(0, global as int) == this.middleware@,
                forall|u: int| 0 <= u < t ==> #[trigger] chain@[global + u] == base + u,
            decreases count - t,
        {
            chain.push(base + t);
            t = t + 1;
            proof {
                assert(chain@.subrange(0, global as int) =~= this.middleware@);
            }
        }
        proof {
            assert forall|j: int| 0 <= j < chain@.len() implies #[trigger] chain@[j]
                < this.pool@.len() by {
                if j < global {
                    assert(chain@[j] == chain@.subrange(0, global as int)[j]);
                } else {
                    assert(chain@[global + (j - global)] == base + (j - global));
                }
            }
            let mapped = chain@.map_values(|j: usize| this.pool@[j as int]);
            assert(mapped =~= old_self@.global + extra_spec) by {
                assert forall|j: int| 0 <= j < chain@.len() implies #[trigger] mapped[j]
                    == (old_self@.global + extra_spec)[j] by {
                    if j < global {
                        assert(chain@[j] == chain@.subrange(0, global as int)[j]);
                        assert(chain@[j] == old_self.middleware@[j]);
                    } else {
                        assert(chain@[global + (j - global)] == base + (j - global));
                    }
                }
            }
        }
        this.add_route(method, path, handler, chain)
    }

    /// The route that a tree match stands for: its handler, its chain and
    /// the matched parameters. A position that names no route gives `None`.
    pub fn resolve(&self, found: Option<(usize, Vec<(String, String)>)>) -> (r: Option<
        RouteMatch<'_, H, M>,
    >)
        requires
            self.wf(),
        ensures
            outcome(r) == self@.resolve(found.deep_view()),
            found matches Some((i, params)) ==> (i < self@.routes.len() ==> outcome(r) == Some(
                (self@.routes[i as int].handler, self@.routes[i as int].chain, params.deep_view()),
            )),
            found matches Some((i, params)) ==> (i >= self@.routes.len() ==> r is None),
            found is None ==> r is None,
    {
        match found {
            None => None,
            Some((i, params)) => {
                if i < self.routes.len() {
                    let entry = &self.routes[i];
                    let mut chain: Vec<&M> = Vec::new();
                    let n = entry.chain.len();
                    let mut k: usize = 0;
                    while k < n
                        invariant
                            self.wf(),
                            i < self.routes@.len(),
                            *entry == self.routes@[i as int],
                            n == entry.chain@.len(),
                            k <= n,
                            chain@.len() == k,
                            forall|t: int|
                                0 <= t < k ==> *#[trigger] chain@[t] == self.pool@[entry.chain@[t] as int],
                        decreases n - k,
                    {
                        let j = entry.chain[k];
                        proof {
                            assert(self.routes@[i as int].chain@[k as int] < self.pool@.len());
                        }
                        chain.push(&self.pool[j]);
                        k = k + 1;
                    }
                    proof {
                        assert(chain@.map_values(|x: &M| *x) =~= self@.routes[i as int].chain);
                    }
                    Some(RouteMatch { handler: &entry.handler, chain, params })
                } else {
                    None
                }
            },
        }
    }

    /// Finds the route registered for `method` that matches `path`: its
    /// handler, its middleware chain and the path parameters.
    ///
    /// The answer is the route at the position that `matchit` matches in the
    /// method's tree ([`tree_match`] of [`RouterSpec::table`]), so it depends
    /// on the registered routes alone. Whatever the tree matches is found; a
    /// route found is always one of `method`'s; with no route for `method`
    /// nothing is found; and a registered non-empty pattern free of
    /// parameters, looked up under its own spelling, gives back its own route
    /// with no parameters.
    pub fn lookup(&self, method: Method, path: &str) -> (r: Option<RouteMatch<'_, H, M>>)
        requires
            self.wf(),
        ensures
            outcome(r) == self@.resolve(tree_match(self@.table(method), path@)),
            tree_match(self@.table(method), path@) is Some ==> r is Some,
            tree_match(self@.table(method), path@) matches Some((i, ps)) ==> i < self@.routes.len()
                && self@.routes[i as int].method == method && outcome(r) == Some(
                (self@.routes[i as int].handler, self@.routes[i as int].chain, ps),
            ),
            tree_match(self@.table(method), path@) is None ==> r is None,
            r is Some ==> exists|i: int|
                0 <= i < self@.routes.len() && #[trigger] self@.routes[i].method == method
                    && outcome(r) == Some(
                    (
                        self@.routes[i].handler,
                        self@.routes[i].chain,
                        outcome(r).unwrap().2,
                    ),
                ),
            (forall|i: int| 0 <= i < self@.routes.len() ==> #[trigger] self@.routes[i].method
                != method) ==> r is None,
            forall|i: int|
                0 <= i < self@.routes.len() && #[trigger] self@.routes[i].method == method
                    && self@.routes[i].path == path@ && is_static(path@) && path@.len() > 0
                    ==> outcome(r) == Some(
                    (
                        self@.routes[i].handler,
                        self@.routes[i].chain,
                        Seq::<(Seq<char>, Seq<char>)>::empty(),
                    ),
                ),
    {
        let idx = method.index();
        let found = tree_at(&self.trees[idx], path);
        let held = self.routes.len();
        proof {
            let rs = self@.routes;
            assert(rs.len() == held);
            Method::lemma_ordinal_injective(method, method);
            assert(self.trees@[idx as int] == self.trees@[method.ordinal() as int]);
            assert(self.tree(method) == self@.table(method));
            assert(tree_intact(self.trees@[method.ordinal() as int]));
            lemma_table_values(rs, method);
            if found is Some {
                let v = found.unwrap().0;
                let q = choose|q: Seq<char>| #[trigger]
                    self@.table(method).dom().contains(q) && self@.table(method)[q] == v;
                assert(self@.table(method).dom().contains(q));
                assert(rs[v as int].method == method);
            }
            assert forall|i: int|
                0 <= i < rs.len() && #[trigger] rs[i].method == method && rs[i].path == path@
                    && is_static(path@) && path@.len() > 0 implies self@.resolve(found.deep_view())
                == Some((rs[i].handler, rs[i].chain, Seq::<(Seq<char>, Seq<char>)>::empty())) by {
                assert(has_in(rs, method, path@));
                lemma_table_registered(rs, method, path@);
                let v = self@.table(method)[path@];
                if v != i {
                    if v < i {
                        assert(rs[v as int].method == rs[i].method);
                    } else {
                        assert(rs[i].method == rs[v as int].method);
                    }
                }
                assert(found.unwrap().1@.len() == 0);
                assert(found.deep_view().unwrap().1 =~= Seq::<(Seq<char>, Seq<char>)>::empty());
            }
        }
        self.resolve(found)
    }

    /// Moves every route of `other` into this router, after its own routes
    /// and in `other`'s order, each with the chain it was registered with.
    /// This router's global middleware stays as it is; `other`'s global
    /// middleware, which no route of `other` registered later can pick up,
    /// is dropped.
    ///
    /// The routes are inserted one by one, as registration inserts them, and
    /// the first one that `matchit` refuses ends the merge with its error: the
    /// merge succeeds exactly when each route of `other` is accepted after the
    /// routes before it. A non-empty pattern registered for the same method in
    /// both routers is always refused; parameter-free patterns that appear
    /// once per method are always accepted; and merging into a router without
    /// routes, or merging a router without routes, always succeeds.
    pub fn merge(self, other: Self) -> (r: Result<Self, RouteError>)
        requires
            self.wf(),
            other.wf(),
            forall|m: Method| #[trigger] self@.count(m) + other@.count(m) <= MAX_ROUTES,
        ensures
            r matches Ok(n) ==> n.wf() && n@ == self@.merged(other@),
            r is Ok == self@.accepts_in_order(other@.routes),
            r matches Err(e) ==> exists|j: int|
                #![trigger self@.accepts_at(other@.routes, j)]
                0 <= j < other@.routes.len() && !self@.accepts_at(other@.routes, j)
                    && other@.routes[j].path == e.path@ && forall|t: int|
                    0 <= t < j ==> #[trigger] self@.accepts_at(other@.routes, t),
            (exists|i: int, t: int|
                0 <= i < self@.routes.len() && 0 <= t < other@.routes.len()
                    && #[trigger] self@.routes[i].method == #[trigger] other@.routes[t].method
                    && self@.routes[i].path == other@.routes[t].path && self@.routes[i].path.len()
                    > 0) ==> r is Err,
            self@.static_only() && other@.static_only() && (forall|i: int, t: int|
                0 <= i < self@.routes.len() && 0 <= t < other@.routes.len()
                    && #[trigger] self@.routes[i].method == #[trigger] other@.routes[t].method
                    ==> self@.routes[i].path != other@.routes[t].path) && (forall|s: int, t: int|
                0 <= s < t < other@.routes.len() && #[trigger] other@.routes[s].method
                    == #[trigger] other@.routes[t].method ==> other@.routes[s].path
                    != other@.routes[t].path) ==> r is Ok,
            other@.routes.len() == 0 ==> (r matches Ok(n) && n@ == self@),
            self@.routes.len() == 0 ==> (r matches Ok(n) && n@.routes == other@.routes),
    {
        let ghost old_self = self;
        let ghost old_other = other;
        let ghost sr = self@.routes;
        let ghost or = other@.routes;
        let mut this = self;
        let Router { trees: _, routes: other_routes, pool: mut other_pool, middleware: _ } = other;
        let offset = this.pool.len();
        this.pool.append(&mut other_pool);
        let pool_len = this.pool.len();
        proof {
            this.lemma_pool_extended(old_self);
            assert(sr + or.take(0) =~= sr);
            assert forall|m: Method| #[trigger] count_in(sr, m) + count_in(or, m) <= MAX_ROUTES by {
                assert(old_self@.count(m) + old_other@.count(m) <= MAX_ROUTES);
            }
        }
        let mut rest = other_routes;
        let total = rest.len();
        let ghost all = rest@;
        let mut j: usize = 0;
        while j < total
            invariant
                old_self == self,
                old_other == other,
                sr == old_self@.routes,
                or == old_other@.routes,
                this.wf(),
                old_other.wf(),
                old_self.wf(),
                all == old_other.routes@,
                total == all.len(),
                total == or.len(),
                j <= total,
                rest@ == all.subrange(j as int, total as int),
                offset == old_self.pool@.len(),
                pool_len == this.pool@.len(),
                this.pool@ == old_self.pool@ + old_other.pool@,
                this@.global == old_self@.global,
                this@.routes == sr + or.take(j as int),
                forall|m: Method| #[trigger] count_in(sr, m) + count_in(or, m) <= MAX_ROUTES,
                forall|t: int| 0 <= t < j ==> #[trigger] old_self@.accepts_at(or, t),
                forall|i: int, t: int|
                    0 <= i < sr.len() && 0 <= t < j && #[trigger] sr[i].method == #[trigger] or[t].method
                        && sr[i].path == or[t].path ==> sr[i].path.len() == 0,
            decreases total - j,
        {
            let e = rest.remove(0);
            proof {
                assert(e == all[j as int]);
            }
            let RouteEntry { method, path, handler, chain } = e;
            let n = chain.len();
            let mut shifted: Vec<usize> = Vec::new();
            let mut k: usize = 0;
            while k < n
                invariant
                    old_other.wf(),
                    j < total,
                    total == all.len(),
                    chain@ == all[j as int].chain@,
                    all == old_other.routes@,
                    n == chain@.len(),
                    offset + old_other.pool@.len() == pool_len,
                    k <= n,
                    shifted@.len() == k,
                    forall|u: int| 0 <= u < k ==> #[trigger] shifted@[u] == chain@[u] + offset,
                decreases n - k,
            {
                proof {
                    assert(old_other.routes@[j as int].chain@[k as int] < old_other.pool@.len());
                }
                shifted.push(chain[k] + offset);
                k = k + 1;
            }
            let ghost before = this;
            let ghost spec_route = or[j as int];
            let ghost prefix = sr + or.take(j as int);
            proof {
                assert(all[j as int] == old_other.routes@[j as int]);
                assert(spec_route.method == method);
                assert(spec_route.path == path@);
                assert(path_slots(old_other.routes@[j as int].path@) <= MAX_PARAMS);
                assert forall|u: int| 0 <= u < shifted@.len() implies #[trigger] shifted@[u]
                    < this.pool@.len() by {
                    assert(old_other.routes@[j as int].chain@[u] < old_other.pool@.len());
                }
                lemma_count_concat(sr, or.take(j as int), method);
                lemma_count_take(or, j as int, method);
                lemma_count_take(or, j as int + 1, method);
                assert(count_in(sr, method) + count_in(or, method) <= MAX_ROUTES);
                assert(or.take(j as int + 1) =~= or.take(j as int).push(spec_route));
                lemma_has_in_concat(sr, or.take(j as int), method, path@);
                assert(old_self@.accepts_at(or, j as int) == insert_accepted(
                    before@.table(method).dom(),
                    path@,
                ));
            }
            let step = this.add_route(method, path.as_str(), handler, shifted);
            match step {
                Ok(next) => {
                    proof {
                        let mapped = shifted@.map_values(|c: usize| before.pool@[c as int]);
                        assert(mapped =~= spec_route.chain) by {
                            assert forall|u: int| 0 <= u < shifted@.len() implies #[trigger]
                                mapped[u] == spec_route.chain[u] by {
                                assert(shifted@[u] == chain@[u] + offset);
                                assert(chain@[u] < old_other.pool@.len());
                            }
                        }
                        assert(next@.routes =~= sr + or.take(j as int + 1));
                        assert forall|i: int, t: int|
                            0 <= i < sr.len() && 0 <= t < j + 1 && #[trigger] sr[i].method
                                == #[trigger] or[t].method && sr[i].path == or[t].path
                                implies sr[i].path.len() == 0 by {
                            if t == j && sr[i].path.len() > 0 {
                                assert(has_in(sr, method, path@));
                                assert(before@.has_route(method, path@));
                            }
                        }
                    }
                    this = next;
                },
                Err(err) => {
                    proof {
                        assert(or[j as int].path == err.path@);
                        assert(!old_self@.accepts_at(or, j as int));
                        assert(!old_self@.accepts_in_order(or));
                        if sr.len() == 0 {
                            assert(sr + or.take(j as int) =~= or.take(j as int));
                            assert(accepted_at(or, j as int));
                            assert(false);
                        }
                        if old_self@.static_only() && old_other@.static_only() && (forall|i: int, t: int|
                            0 <= i < sr.len() && 0 <= t < or.len()
                                && #[trigger] sr[i].method == #[trigger] or[t].method
                                ==> sr[i].path != or[t].path) && (forall|s: int, t: int|
                            0 <= s < t < or.len() && #[trigger] or[s].method == #[trigger] or[t].method
                                ==> or[s].path != or[t].path) {
                            assert(is_static(path@));
                            assert forall|i: int|
                                0 <= i < before@.routes.len() && #[trigger] before@.routes[i].method
                                    == method implies is_static(before@.routes[i].path) by {
                                if i < sr.len() {
                                    assert(before@.routes[i] == sr[i]);
                                } else {
                                    assert(before@.routes[i] == or[i - sr.len()]);
                                }
                            }
                            if has_in(sr, method, path@) {
                                let i = choose|i: int| 0 <= i < sr.len() && #[trigger] sr[i].method
                                    == method && sr[i].path == path@;
                                assert(sr[i].path != or[j as int].path);
                            }
                            if has_in(or.take(j as int), method, path@) {
                                let tk = or.take(j as int);
                                let t = choose|t: int| 0 <= t < tk.len() && #[trigger] tk[t].method
                                    == method && tk[t].path == path@;
                                assert(or[t].method == or[j as int].method);
                            }
                            assert(!before@.has_route(method, path@));
                            assert(false);
                        }
                        assert(exists|w: int|
                            #![trigger old_self@.accepts_at(or, w)]
                            0 <= w < or.len() && !old_self@.accepts_at(or, w) && or[w].path == err.path@
                                && forall|t: int| 0 <= t < w ==> #[trigger] old_self@.accepts_at(or, t));
                    }
                    return Err(err);
                },
            }
            j = j + 1;
        }
        proof {
            assert(or.take(total as int) =~= or);
            if total == 0 {
                assert(this@.routes =~= sr);
                assert(this@ == old_self@);
            }
            if sr.len() == 0 {
                assert(this@.routes =~= or);
            }
        }
        Ok(this)
    }
}

impl<H, M> Default for Router<H, M> {
    /// An empty router, as [`Router::new`] makes it.
    fn default() -> (r: Self)
        ensures
            r.wf(),
            r@.global == Seq::<M>::empty(),
            r@.routes == Seq::<RouteSpec<H, M>>::empty(),
    {
        Router::new()
    }
}

} // verus!
