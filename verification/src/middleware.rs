//! The middleware chain of one route and the walk along it.
//!
//! A chain runs in a fixed order: the router's global middleware in the
//! order it was registered, then the route's own extra middleware from left
//! to right, then the handler. Each step either hands the request to the
//! next middleware or, once the chain is used up, to the handler.

use vstd::prelude::*;

pub(crate) mod private;

use private::IntoSeal;

verus! {

/// One stop of a request on its way along a chain.
pub enum Visit<M, H> {
    Middleware(M),
    Handler(H),
}

/// The stops that a request makes when the chain is entered at `index`:
/// each middleware from `index` on, then the handler.
pub open spec fn trace<M, H>(chain: Seq<M>, index: nat, handler: H) -> Seq<Visit<M, H>>
    decreases chain.len() - index,
{
    if index < chain.len() {
        seq![Visit::Middleware(chain[index as int])] + trace(chain, index + 1, handler)
    } else {
        seq![Visit::Handler(handler)]
    }
}

/// The position of a request in a middleware chain.
///
/// Calling [`Next::call`] moves one step: to the middleware at `index`, or to
/// the handler when every middleware has run.
pub struct Next<'a, M, H> {
    pub middleware: &'a [M],
    pub index: usize,
    pub handler: &'a H,
}

/// What [`Next::call`] hands the request to.
pub enum Step<'a, M, H> {
    /// Run this middleware; it receives the position after it.
    Middleware(&'a M, Next<'a, M, H>),
    /// The chain is used up: run the handler.
    Handler(&'a H),
}

impl<'a, M, H> Next<'a, M, H> {
    /// The stops still ahead of a request at this position.
    pub open spec fn remaining(&self) -> Seq<Visit<M, H>> {
        trace(self.middleware@, self.index as nat, *self.handler)
    }

    /// The start of a chain: its first middleware comes next.
    pub fn new(middleware: &'a [M], handler: &'a H) -> (n: Self)
        ensures
            n.middleware@ == middleware@,
            n.index == 0,
            *n.handler == *handler,
    {
        Next { middleware, index: 0, handler }
    }

    /// Advances the chain: the middleware at the current position, together
    /// with the position after it, or the handler once the chain is used up.
    pub fn call(self) -> (s: Step<'a, M, H>)
        ensures
            self.index < self.middleware@.len() ==> (s matches Step::Middleware(mw, next) && *mw
                == self.middleware@[self.index as int] && next.middleware@ == self.middleware@
                && next.index == self.index + 1 && *next.handler == *self.handler),
            self.index >= self.middleware@.len() ==> (s matches Step::Handler(h) && *h
                == *self.handler),
            match s {
                Step::Middleware(mw, next) => self.remaining() == seq![Visit::Middleware(*mw)]
                    + next.remaining(),
                Step::Handler(h) => self.remaining() == seq![Visit::<M, H>::Handler(*h)],
            },
    {
        if self.index < self.middleware.len() {
            let mw = &self.middleware[self.index];
            let next = Next { middleware: self.middleware, index: self.index + 1, handler: self.handler };
            Step::Middleware(mw, next)
        } else {
            Step::Handler(self.handler)
        }
    }
}

/// Entered at position `index`, a chain visits its middleware from `index`
/// on, in order, and then the handler, exactly once each.
pub proof fn lemma_trace_from<M, H>(chain: Seq<M>, index: nat, handler: H)
    requires
        index <= chain.len(),
    ensures
        trace(chain, index, handler) == chain.subrange(index as int, chain.len() as int).map_values(
            |m: M| Visit::<M, H>::Middleware(m),
        ).push(Visit::Handler(handler)),
    decreases chain.len() - index,
{
    let rest = chain.subrange(index as int, chain.len() as int).map_values(
        |m: M| Visit::<M, H>::Middleware(m),
    ).push(Visit::Handler(handler));
    if index < chain.len() {
        lemma_trace_from(chain, index + 1, handler);
        let tail = chain.subrange((index + 1) as int, chain.len() as int).map_values(
            |m: M| Visit::<M, H>::Middleware(m),
        ).push(Visit::Handler(handler));
        assert(rest =~= seq![Visit::Middleware(chain[index as int])] + tail);
    } else {
        assert(rest =~= seq![Visit::Handler(handler)]);
    }
}

/// A chain started with [`Next::new`] runs every middleware in the order of
/// the chain, then the handler.
pub proof fn lemma_chain_runs_in_order<M, H>(chain: Seq<M>, handler: H)
    ensures
        trace(chain, 0, handler) == chain.map_values(|m: M| Visit::<M, H>::Middleware(m)).push(
            Visit::Handler(handler),
        ),
{
    lemma_trace_from(chain, 0, handler);
    assert(chain.subrange(0, chain.len() as int) =~= chain);
}

/// A chain made of a global part followed by a route's own part runs the
/// global middleware first, in order, then the route's, in order, then the
/// handler.
pub proof fn lemma_global_before_own<M, H>(global: Seq<M>, own: Seq<M>, handler: H)
    ensures
        trace(global + own, 0, handler) == global.map_values(|m: M| Visit::<M, H>::Middleware(m))
            + own.map_values(|m: M| Visit::<M, H>::Middleware(m)) + seq![Visit::Handler(handler)],
{
    lemma_chain_runs_in_order(global + own, handler);
    assert((global + own).map_values(|m: M| Visit::<M, H>::Middleware(m)) =~= global.map_values(
        |m: M| Visit::<M, H>::Middleware(m),
    ) + own.map_values(|m: M| Visit::<M, H>::Middleware(m)));
    assert((global + own).map_values(|m: M| Visit::<M, H>::Middleware(m)).push(Visit::Handler(handler))
        =~= global.map_values(|m: M| Visit::<M, H>::Middleware(m)) + own.map_values(
        |m: M| Visit::<M, H>::Middleware(m),
    ) + seq![Visit::Handler(handler)]);
}

/// The stops that a request makes from position `index` on when the
/// middleware at position `t` hands it on exactly when `passes(t)`: a
/// middleware that answers by itself ends the walk there.
pub open spec fn walk<M, H>(chain: Seq<M>, index: nat, handler: H, passes: spec_fn(nat) -> bool) -> Seq<
    Visit<M, H>,
>
    decreases chain.len() - index,
{
    if index < chain.len() {
        seq![Visit::Middleware(chain[index as int])] + if passes(index) {
            walk(chain, index + 1, handler, passes)
        } else {
            Seq::empty()
        }
    } else {
        seq![Visit::Handler(handler)]
    }
}

proof fn lemma_walk_stops_from<M, H>(chain: Seq<M>, index: nat, handler: H, passes: spec_fn(nat) -> bool, k: nat)
    requires
        index <= k < chain.len(),
        forall|t: nat| index <= t < k ==> #[trigger] passes(t),
        !passes(k),
    ensures
        walk(chain, index, handler, passes) == chain.subrange(index as int, k + 1int).map_values(
            |m: M| Visit::<M, H>::Middleware(m),
        ),
    decreases k - index,
{
    let expected = chain.subrange(index as int, k + 1int).map_values(|m: M| Visit::<M, H>::Middleware(m));
    if index == k {
        assert(expected =~= seq![Visit::Middleware(chain[index as int])]);
    } else {
        lemma_walk_stops_from(chain, index + 1, handler, passes, k);
        assert(passes(index));
        assert(expected =~= seq![Visit::Middleware(chain[index as int])] + chain.subrange(
            index + 1int,
            k + 1int,
        ).map_values(|m: M| Visit::<M, H>::Middleware(m)));
    }
}

/// A request stops at the first middleware that does not hand it on: that
/// middleware and the ones before it run once each, in the order of the
/// chain, and neither the middleware after it nor the handler runs.
pub proof fn lemma_walk_stops_at_first_refusal<M, H>(
    chain: Seq<M>,
    handler: H,
    passes: spec_fn(nat) -> bool,
    k: nat,
)
    requires
        k < chain.len(),
        forall|t: nat| t < k ==> #[trigger] passes(t),
        !passes(k),
    ensures
        walk(chain, 0, handler, passes) == chain.take(k + 1int).map_values(
            |m: M| Visit::<M, H>::Middleware(m),
        ),
{
    lemma_walk_stops_from(chain, 0, handler, passes, k);
    assert(chain.subrange(0, k + 1int) =~= chain.take(k + 1int));
}

/// When every middleware hands the request on, the handler runs: the
/// request makes exactly the stops of [`trace`].
pub proof fn lemma_walk_all_pass<M, H>(chain: Seq<M>, index: nat, handler: H, passes: spec_fn(nat) -> bool)
    requires
        forall|t: nat| index <= t < chain.len() ==> #[trigger] passes(t),
    ensures
        walk(chain, index, handler, passes) == trace(chain, index, handler),
    decreases chain.len() - index,
{
    if index < chain.len() {
        assert(passes(index));
        lemma_walk_all_pass(chain, index + 1, handler, passes);
    }
}

/// Turns a route's extra middleware into the list that follows the router's
/// global middleware in the route's chain. Implemented for `()` (no extra
/// middleware) and for tuples of one to five middleware, which keep their
/// left-to-right order.
pub trait IntoMiddlewares<M>: IntoSeal {
    /// The middleware, in order.
    spec fn middlewares(&self) -> Seq<M>;

    fn into_middlewares(self) -> (v: Vec<M>)
        ensures
            v@ == self.middlewares(),
    ;
}

impl IntoSeal for () {}

impl<M> IntoMiddlewares<M> for () {
    open spec fn middlewares(&self) -> Seq<M> {
        Seq::empty()
    }

    fn into_middlewares(self) -> (v: Vec<M>) {
        Vec::new()
    }
}

impl<M1> IntoSeal for (M1,) {}

impl<M> IntoMiddlewares<M> for (M,) {
    open spec fn middlewares(&self) -> Seq<M> {
        seq![self.0]
    }

    fn into_middlewares(self) -> (v: Vec<M>) {
        let mut v = Vec::new();
        v.push(self.0);
        v
    }
}

impl<M1, M2> IntoSeal for (M1, M2) {}

impl<M> IntoMiddlewares<M> for (M, M) {
    open spec fn middlewares(&self) -> Seq<M> {
        seq![self.0, self.1]
    }

    fn into_middlewares(self) -> (v: Vec<M>) {
        let mut v = Vec::new();
        v.push(self.0);
        v.push(self.1);
        v
    }
}

impl<M1, M2, M3> IntoSeal for (M1, M2, M3) {}

impl<M> IntoMiddlewares<M> for (M, M, M) {
    open spec fn middlewares(&self) -> Seq<M> {
        seq![self.0, self.1, self.2]
    }

    fn into_middlewares(self) -> (v: Vec<M>) {
        let mut v = Vec::new();
        v.push(self.0);
        v.push(self.1);
        v.push(self.2);
        v
    }
}

impl<M1, M2, M3, M4> IntoSeal for (M1, M2, M3, M4) {}

impl<M> IntoMiddlewares<M> for (M, M, M, M) {
    open spec fn middlewares(&self) -> Seq<M> {
        seq![self.0, self.1, self.2, self.3]
    }

    fn into_middlewares(self) -> (v: Vec<M>) {
        let mut v = Vec::new();
        v.push(self.0);
        v.push(self.1);
        v.push(self.2);
        v.push(self.3);
        v
    }
}

impl<M1, M2, M3, M4, M5> IntoSeal for (M1, M2, M3, M4, M5) {}

impl<M> IntoMiddlewares<M> for (M, M, M, M, M) {
    open spec fn middlewares(&self) -> Seq<M> {
        seq![self.0, self.1, self.2, self.3, self.4]
    }

    fn into_middlewares(self) -> (v: Vec<M>) {
        let mut v = Vec::new();
        v.push(self.0);
        v.push(self.1);
        v.push(self.2);
        v.push(self.3);
        v.push(self.4);
        v
    }
}

} // verus!
