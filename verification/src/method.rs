use vstd::prelude::*;

verus! {

/// How many HTTP methods the router knows; one route tree is kept per method.
pub const METHOD_COUNT: usize = 20;

/// The HTTP request methods: the standard ones of RFC 9110, the WebDAV
/// extensions, and `Purge` for cache invalidation.
#[derive(Clone, Copy, Debug, PartialEq, Eq, Structural, Hash)]
pub enum Method {
    Connect,
    Delete,
    Get,
    Head,
    Options,
    Patch,
    Post,
    Put,
    Trace,
    Copy,
    Lock,
    Mkcalendar,
    Mkcol,
    Move,
    Propfind,
    Proppatch,
    Report,
    Search,
    Unlock,
    Purge,
}

impl Method {
    /// The position of the method's route tree.
    pub open spec fn ordinal(self) -> nat {
        match self {
            Method::Connect => 0,
            Method::Delete => 1,
            Method::Get => 2,
            Method::Head => 3,
            Method::Options => 4,
            Method::Patch => 5,
            Method::Post => 6,
            Method::Put => 7,
            Method::Trace => 8,
            Method::Copy => 9,
            Method::Lock => 10,
            Method::Mkcalendar => 11,
            Method::Mkcol => 12,
            Method::Move => 13,
            Method::Propfind => 14,
            Method::Proppatch => 15,
            Method::Report => 16,
            Method::Search => 17,
            Method::Unlock => 18,
            Method::Purge => 19,
        }
    }

    /// Executable form of [`Method::ordinal`].
    pub fn index(&self) -> (i: usize)
        ensures
            i == self.ordinal(),
            i < METHOD_COUNT,
    {
        match self {
            Method::Connect => 0,
            Method::Delete => 1,
            Method::Get => 2,
            Method::Head => 3,
            Method::Options => 4,
            Method::Patch => 5,
            Method::Post => 6,
            Method::Put => 7,
            Method::Trace => 8,
            Method::Copy => 9,
            Method::Lock => 10,
            Method::Mkcalendar => 11,
            Method::Mkcol => 12,
            Method::Move => 13,
            Method::Propfind => 14,
            Method::Proppatch => 15,
            Method::Report => 16,
            Method::Search => 17,
            Method::Unlock => 18,
            Method::Purge => 19,
        }
    }

    /// Different methods have different route trees.
    pub proof fn lemma_ordinal_injective(a: Method, b: Method)
        ensures
            a.ordinal() == b.ordinal() <==> a == b,
            a.ordinal() < METHOD_COUNT,
    {
    }
}

} // verus!
