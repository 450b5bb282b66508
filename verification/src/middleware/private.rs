use vstd::prelude::*;

verus! {

/// Marks the types that may be handed to a route as its extra middleware.
/// Only this crate implements it, which seals
/// [`IntoMiddlewares`](crate::IntoMiddlewares).
pub trait IntoSeal {}

} // verus!
