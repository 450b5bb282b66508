//! Route table and middleware chain logic for an HTTP service that sits
//! behind a reverse proxy: one radix tree per HTTP method, middleware chains
//! fixed when a route is registered, and the step-by-step walk of a chain.

pub mod method;
pub mod middleware;
pub mod radix;
pub mod router;

pub use method::{Method, METHOD_COUNT};
pub use middleware::{IntoMiddlewares, Next, Step, Visit};
pub use radix::{param_count, MAX_PARAMS};
pub use router::{RouteError, RouteMatch, Router, MAX_ROUTES};
