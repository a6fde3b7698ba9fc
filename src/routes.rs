use vstd::prelude::*;

verus! {

/// The handler a request path goes to.
#[derive(Clone, Copy, Debug, PartialEq, Eq, Structural)]
pub enum Route {
    /// `/`: liveness.
    Root,
    /// `/version`: the build identifier.
    Version,
    /// A path under `/index`: building and querying the index.
    Index,
    /// A path under `/values`: the records.
    Values,
    /// Anything else.
    Unknown,
}

/// `/index` in bytes.
pub open spec fn index_prefix() -> Seq<u8> {
    seq![47u8, 105u8, 110u8, 100u8, 101u8, 120u8]
}

/// `/values` in bytes.
pub open spec fn values_prefix() -> Seq<u8> {
    seq![47u8, 118u8, 97u8, 108u8, 117u8, 101u8, 115u8]
}

/// `/version` in bytes.
pub open spec fn version_path() -> Seq<u8> {
    seq![47u8, 118u8, 101u8, 114u8, 115u8, 105u8, 111u8, 110u8]
}

pub open spec fn starts_with(s: Seq<u8>, p: Seq<u8>) -> bool {
    p.len() <= s.len() && s.take(p.len() as int) == p
}

/// The route of a request path.
pub open spec fn route_spec(path: Seq<u8>) -> Route {
    if path == seq![47u8] {
        Route::Root
    } else if path == version_path() {
        Route::Version
    } else if starts_with(path, index_prefix()) {
        Route::Index
    } else if starts_with(path, values_prefix()) {
        Route::Values
    } else {
        Route::Unknown
    }
}

/// Paths under `/index` and `/values` need the shared secret.
pub open spec fn is_private(path: Seq<u8>) -> bool {
    starts_with(path, index_prefix()) || starts_with(path, values_prefix())
}

fn has_prefix(s: &[u8], p: &[u8]) -> (r: bool)
    ensures
        r == starts_with(s@, p@),
{
    if p.len() > s.len() {
        return false;
    }
    let mut i: usize = 0;
    while i < p.len()
        invariant
            p@.len() <= s@.len(),
            i <= p@.len(),
            forall|j: int| 0 <= j < i ==> s@[j] == p@[j],
        decreases p@.len() - i,
    {
        if s[i] != p[i] {
            assert(s@.take(p@.len() as int)[i as int] != p@[i as int]);
            return false;
        }
        i = i + 1;
    }
    assert(s@.take(p@.len() as int) =~= p@);
    true
}

fn bytes_eq(s: &[u8], p: &[u8]) -> (r: bool)
    ensures
        r == (s@ == p@),
{
    if s.len() != p.len() {
        return false;
    }
    let r = has_prefix(s, p);
    proof {
        if r {
            assert(s@ =~= s@.take(p@.len() as int));
        } else {
            assert(s@.take(p@.len() as int) =~= s@);
        }
    }
    r
}

/// The route of the request path `path`.
pub fn route(path: &[u8]) -> (r: Route)
    ensures
        r == route_spec(path@),
{
    let root: Vec<u8> = vec![47u8];
    let version: Vec<u8> = vec![47u8, 118u8, 101u8, 114u8, 115u8, 105u8, 111u8, 110u8];
    let index: Vec<u8> = vec![47u8, 105u8, 110u8, 100u8, 101u8, 120u8];
    let values: Vec<u8> = vec![47u8, 118u8, 97u8, 108u8, 117u8, 101u8, 115u8];
    assert(root@ =~= seq![47u8]);
    assert(version@ =~= version_path());
    assert(index@ =~= index_prefix());
    assert(values@ =~= values_prefix());
    if bytes_eq(path, root.as_slice()) {
        Route::Root
    } else if bytes_eq(path, version.as_slice()) {
        Route::Version
    } else if has_prefix(path, index.as_slice()) {
        Route::Index
    } else if has_prefix(path, values.as_slice()) {
        Route::Values
    } else {
        Route::Unknown
    }
}

/// Whether a request may proceed: a private path needs a token header equal
/// to the configured secret; every other path is open.
pub fn authorize(path: &[u8], header: Option<&String>, token: &String) -> (r: bool)
    ensures
        r == (!is_private(path@) || (header is Some && header->Some_0@ == token@)),
{
    let index: Vec<u8> = vec![47u8, 105u8, 110u8, 100u8, 101u8, 120u8];
    let values: Vec<u8> = vec![47u8, 118u8, 97u8, 108u8, 117u8, 101u8, 115u8];
    assert(index@ =~= index_prefix());
    assert(values@ =~= values_prefix());
    let private = has_prefix(path, index.as_slice()) || has_prefix(path, values.as_slice());
    if !private {
        return true;
    }
    match header {
        Some(h) => *h == *token,
        None => false,
    }
}

} // verus!
