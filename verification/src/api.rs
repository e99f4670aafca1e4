//! The two requests of the local query interface, from path string to
//! answer.

use crate::listing::listing;
use crate::path::{resolve, segments};
use crate::state::{attribute_at, Method, State};
use vstd::prelude::*;

verus! {

/// A request for one attribute of the entry at `path`.
#[derive(Clone, Debug)]
pub struct Request {
    pub path: String,
    pub method: Method,
}

/// Answers a listing request: the listing of the tree along the segments of
/// `path`.
pub fn list(path: &str, state: &State) -> (names: Vec<String>)
    ensures
        names.deep_view() == listing(state@.children, segments(path@), 0),
{
    let owned = resolve(path);
    let parts = owned.as_slice();
    assert(parts.deep_view() == segments(path@));
    state.list(parts)
}

/// Answers a request for an attribute: that of the entry which the segments
/// of the request's path address, if there is one and it has the attribute.
pub fn get_attr(req: &Request, state: &State) -> (value: Option<String>)
    ensures
        value.deep_view() == attribute_at(state@, segments(req.path@), req.method),
{
    let owned = resolve(req.path.as_str());
    let parts = owned.as_slice();
    assert(parts.deep_view() == segments(req.path@));
    state.get(parts, req.method)
}

} // verus!
