//! The outside radix tree (`matchit`) that stores one method's routes, as
//! far as this crate relies on it. Each tree maps a route pattern to the
//! position of the route in the router's list of routes.

use vstd::prelude::*;

use matchit::InsertError;
use matchit::Router as RadixTree;

verus! {

/// Route patterns may hold at most this many `{name}` parameters.
pub const MAX_PARAMS: usize = 25;

/// The declaration that lets `matchit::Router` (imported as `RadixTree`)
/// stand in signatures and fields.
#[verifier::external_type_specification]
#[verifier::external_body]
#[verifier::reject_recursive_types(T)]
pub struct ExTree<T>(RadixTree<T>);

/// The declaration of `InsertError`, which the crate carries in its
/// own error type.
#[verifier::external_type_specification]
#[verifier::external_body]
pub struct ExInsertError(InsertError);

/// The routes a tree answers, each pattern with the value stored under it:
/// the inserted patterns as they were written, changed only as [`grow`]
/// describes when the tree held nothing but the empty pattern.
pub uninterp spec fn tree_routes(tree: RadixTree<usize>) -> Map<Seq<char>, usize>;

/// An upper bound on the tree's `u32` priority counters: the number of
/// `insert` calls that got past the check of the pattern's parameters.
pub uninterp spec fn tree_inserts(tree: RadixTree<usize>) -> nat;

/// The tree was built by `new` and successful inserts only. (A refused
/// insert may leave nodes without values behind, and those can make later
/// inserts conflict.)
pub uninterp spec fn tree_intact(tree: RadixTree<usize>) -> bool;

/// Whether `matchit::Router::insert` accepts `route` on an intact tree that
/// holds the patterns `patterns` (it refuses malformed parameters and routes
/// that conflict with one already there).
pub uninterp spec fn insert_accepted(patterns: Set<Seq<char>>, route: Seq<char>) -> bool;

/// What `matchit::Router::at` finds for `path` in a tree holding `routes`:
/// the stored value and the path parameters, names and values, in order.
pub uninterp spec fn tree_match(routes: Map<Seq<char>, usize>, path: Seq<char>) -> Option<
    (usize, Seq<(Seq<char>, Seq<char>)>),
>;

/// A pattern with no `{` and no `}` holds no parameter: it only ever
/// matches the path that is spelled the same.
pub open spec fn is_static(p: Seq<char>) -> bool {
    forall|i: int| 0 <= i < p.len() ==> p[i] != '{' && p[i] != '}'
}

/// The position, in a pattern as written, of the first `{` that opens a
/// parameter (a `{` that is not half of an escaped `{{`), looking from `k`.
pub open spec fn first_open_from(r: Seq<char>, k: nat) -> Option<nat>
    decreases r.len() - k,
{
    if k >= r.len() {
        None
    } else if r[k as int] == '{' && k + 1 < r.len() && r[k + 1int] == '{' {
        first_open_from(r, k + 2)
    } else if r[k as int] == '{' {
        Some(k)
    } else {
        first_open_from(r, k + 1)
    }
}

/// The position of the first `{` that opens a parameter of `r`, if any.
pub open spec fn first_open(r: Seq<char>) -> Option<nat> {
    first_open_from(r, 0)
}

/// The routes of a tree after `route` is inserted with `value`. Normally
/// the new pattern is added. When the tree held nothing but the empty
/// pattern, `matchit` reuses the root node: the empty pattern's value stays
/// under the part of the new pattern before its first parameter (and is
/// dropped when the new pattern has no parameter).
pub open spec fn grow(t: Map<Seq<char>, usize>, route: Seq<char>, value: usize) -> Map<Seq<char>, usize> {
    if t.dom() == Set::<Seq<char>>::empty().insert(Seq::empty()) {
        match first_open(route) {
            Some(i) => Map::<Seq<char>, usize>::empty().insert(route.take(i as int), t[Seq::empty()]).insert(
                route,
                value,
            ),
            None => Map::<Seq<char>, usize>::empty().insert(route, value),
        }
    } else {
        t.insert(route, value)
    }
}

/// The parameter count of a route pattern, taken over its UTF-8 bytes, which
/// is what `matchit` scans.
pub open spec fn path_slots(p: Seq<char>) -> nat {
    param_slots(vstd::utf8::encode_utf8(p))
}

/// An upper bound on the number of parameters that `matchit` renames while
/// it inserts a pattern: the `{` characters left once each escaped `{{` has
/// become one `{`, except those directly followed by `*` (catch-alls, which
/// are not renamed). Every renamed parameter starts at such a `{`. Braces
/// inside parameter names are counted too: `matchit` moves its record of
/// escaped characters as it renames, not always exactly, so which braces
/// end up opening a parameter is not followed here.
pub open spec fn param_slots(b: Seq<u8>) -> nat
    decreases b.len(),
{
    if b.len() == 0 {
        0
    } else if b[0] == 123u8 && b.len() > 1 && b[1] == 123u8 {
        (if b.len() > 2 && b[2] == 42u8 { 0nat } else { 1nat }) + param_slots(
            b.subrange(2, b.len() as int),
        )
    } else if b[0] == 123u8 {
        (if b.len() > 1 && b[1] == 42u8 { 0nat } else { 1nat }) + param_slots(
            b.subrange(1, b.len() as int),
        )
    } else {
        param_slots(b.subrange(1, b.len() as int))
    }
}

/// Counts the parameters of a route pattern the way [`path_slots`] does, so
/// that a caller can check the limit of `matchit` before registering it.
pub fn param_count(path: &str) -> (n: usize)
    ensures
        n == path_slots(path@),
{
    let b = path.as_bytes();
    let len = b.len();
    let mut i: usize = 0;
    let mut count: usize = 0;
    proof {
        assert(b@.subrange(0, len as int) =~= b@);
    }
    while i < len
        invariant
            len == b@.len(),
            b@ == vstd::utf8::encode_utf8(path@),
            i <= len,
            count <= i,
            count + param_slots(b@.subrange(i as int, len as int)) == param_slots(b@),
        decreases len - i,
    {
        let ghost rest = b@.subrange(i as int, len as int);
        if b[i] == 123u8 && i + 1 < len && b[i + 1] == 123u8 {
            proof {
                assert(rest.subrange(2, rest.len() as int) =~= b@.subrange(i + 2, len as int));
            }
            if !(i + 2 < len && b[i + 2] == 42u8) {
                count = count + 1;
            }
            i = i + 2;
        } else if b[i] == 123u8 {
            proof {
                assert(rest.subrange(1, rest.len() as int) =~= b@.subrange(i + 1, len as int));
            }
            if !(i + 1 < len && b[i + 1] == 42u8) {
                count = count + 1;
            }
            i = i + 1;
        } else {
            proof {
                assert(rest.subrange(1, rest.len() as int) =~= b@.subrange(i + 1, len as int));
            }
            i = i + 1;
        }
    }
    count
}

/// `matchit::Router::new`: an empty tree.
#[verifier::external_body]
pub(crate) fn tree_new() -> (fresh: RadixTree<usize>)
    ensures
        tree_routes(fresh).dom() == Set::<Seq<char>>::empty(),
        tree_inserts(fresh) == 0,
        tree_intact(fresh),
{
    RadixTree::new()
}

/// `matchit::Router::insert`. The claims, read off the crate's source:
/// - a call raises the priority counters by at most one;
/// - on an intact tree, whether it succeeds is decided by the patterns
///   there and the new one ([`insert_accepted`]);
/// - a success on an intact tree leaves it intact, its routes as [`grow`]
///   says (the new pattern added, or, when the tree held only the empty
///   pattern, the root node reused);
/// - on an intact tree that holds more than the empty pattern, a pattern
///   already there is refused;
/// - on an intact tree, a pattern without parameters is accepted when every
///   pattern there is without parameters and differs from it.
///
/// It is called only with fewer than 26 parameters (more panic inside
/// `matchit`) and while the priority counters cannot overflow. Nothing is
/// said of the tree after a refusal but the counters.
#[verifier::external_body]
pub(crate) fn tree_insert(tree: &mut RadixTree<usize>, route: &str, value: usize) -> (r: Result<(), InsertError>)
    requires
        tree_inserts(*old(tree)) < 0xffff_ffff,
        path_slots(route@) <= MAX_PARAMS,
    ensures
        tree_inserts(*final(tree)) <= tree_inserts(*old(tree)) + 1,
        tree_intact(*old(tree)) ==> r is Ok == insert_accepted(
            tree_routes(*old(tree)).dom(),
            route@,
        ),
        r is Ok && tree_intact(*old(tree)) ==> tree_intact(*final(tree)) && tree_routes(
            *final(tree),
        ) == grow(tree_routes(*old(tree)), route@, value),
        tree_intact(*old(tree)) && tree_routes(*old(tree)).dom().contains(route@) && tree_routes(
            *old(tree),
        ).dom() != Set::<Seq<char>>::empty().insert(Seq::empty()) ==> r is Err,
        tree_intact(*old(tree)) && is_static(route@) && !tree_routes(*old(tree)).dom().contains(
            route@,
        ) && (forall|q: Seq<char>| #[trigger]
            tree_routes(*old(tree)).dom().contains(q) ==> is_static(q)) ==> r is Ok,
{
    tree.insert(route, value)
}

/// `matchit::Router::at`, with the value copied out and the parameters
/// turned into owned strings. The claims: the result is [`tree_match`] of
/// the tree's routes and the path; a value found is one stored in the tree;
/// in an intact tree, a pattern without parameters that the tree holds is
/// found under its own spelling, with no parameters (static segments take
/// precedence).
#[verifier::external_body]
pub(crate) fn tree_at(tree: &RadixTree<usize>, path: &str) -> (r: Option<(usize, Vec<(String, String)>)>)
    ensures
        r.deep_view() == tree_match(tree_routes(*tree), path@),
        r matches Some((v, _)) ==> exists|q: Seq<char>| #[trigger]
            tree_routes(*tree).dom().contains(q) && tree_routes(*tree)[q] == v,
        tree_intact(*tree) && is_static(path@) && tree_routes(*tree).dom().contains(path@)
            ==> r is Some
            && r.unwrap().0 == tree_routes(*tree)[path@] && r.unwrap().1.len() == 0,
{
    match tree.at(path) {
        Ok(found) => Some(
            (
                *found.value,
                found.params.iter().map(|(k, v)| (k.to_owned(), v.to_owned())).collect(),
            ),
        ),
        Err(_) => None,
    }
}

} // verus!
