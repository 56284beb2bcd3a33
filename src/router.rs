//! Routing: the first route prefix that starts the request path picks the
//! upstream; a path that no prefix starts goes to the static responder.
use vstd::prelude::*;

use vstd::utf8::encode_utf8;

use crate::bytes::matches_at;
use crate::request::{request_path, request_target};

verus! {

/// `prefix` starts `path`.
pub open spec fn starts_with(path: Seq<u8>, prefix: Seq<u8>) -> bool {
    prefix.len() <= path.len() && path.subrange(0, prefix.len() as int) == prefix
}

/// The prefix of route `i`, as bytes.
pub open spec fn route_prefix(upstreams: Seq<(String, String)>, i: int) -> Seq<u8> {
    encode_utf8(upstreams[i].0@)
}

/// `r` is the first route whose prefix starts `path`, or `None` when no
/// prefix does.
pub open spec fn is_first_route(upstreams: Seq<(String, String)>, path: Seq<u8>, r: Option<usize>) -> bool {
    match r {
        Some(i) => i < upstreams.len() && starts_with(path, route_prefix(upstreams, i as int))
            && forall|j: int| 0 <= j < i ==> !starts_with(path, #[trigger] route_prefix(upstreams, j)),
        None => forall|j: int|
            0 <= j < upstreams.len() ==> !starts_with(path, #[trigger] route_prefix(upstreams, j)),
    }
}

/// The first route whose prefix starts `path`.
pub fn find_route(upstreams: &Vec<(String, String)>, path: &[u8]) -> (r: Option<usize>)
    ensures
        is_first_route(upstreams@, path@, r),
{
    let mut i: usize = 0;
    while i < upstreams.len()
        invariant
            i <= upstreams@.len(),
            forall|j: int| 0 <= j < i ==> !starts_with(path@, #[trigger] route_prefix(upstreams@, j)),
        decreases upstreams@.len() - i,
    {
        let prefix = upstreams[i].0.as_str().as_bytes();
        assert(prefix@ == route_prefix(upstreams@, i as int));
        if matches_at(path, 0, prefix) {
            return Some(i);
        }
        i = i + 1;
    }
    None
}

/// Routes a request by the path of its first line: `Some(i)` forwards it
/// to the upstream of route `i`, `None` serves it from static files.
pub fn route_request(upstreams: &Vec<(String, String)>, request: &[u8]) -> (r: Option<usize>)
    ensures
        is_first_route(upstreams@, request_target(request@), r),
{
    let path = request_path(request);
    find_route(upstreams, path.as_slice())
}

/// A request whose path no route prefix starts is never routed to an
/// upstream: routing can only answer that it goes to static files.
pub proof fn lemma_unmatched_goes_static(
    upstreams: Seq<(String, String)>,
    request: Seq<u8>,
    r: Option<usize>,
)
    requires
        is_first_route(upstreams, request_target(request), r),
        forall|j: int|
            0 <= j < upstreams.len() ==> !starts_with(
                request_target(request),
                #[trigger] route_prefix(upstreams, j),
            ),
    ensures
        r is None,
{
    if r is Some {
        let i = r->Some_0 as int;
        assert(starts_with(request_target(request), route_prefix(upstreams, i)));
    }
}

} // verus!
