//! Where modules are fetched from.
use vstd::prelude::*;
use vstd::string::*;

use crate::storage::object_path;

verus! {

/// The name under which the module of a service is stored, which is also the id
/// of the service.
pub open spec fn module_name(version: Seq<char>, service: Seq<char>) -> Seq<char> {
    version + "/"@ + service
}

/// The id of a service.
pub fn service_id(version: &str, service: &str) -> (id: String)
    ensures
        id@ == module_name(version@, service@),
{
    let mut id = version.to_owned();
    id.append("/");
    id.append(service);
    id
}

/// Fetches modules from an object store.
pub struct Fetcher;

impl Fetcher {
    /// The path from which the module of a service is fetched.
    pub fn fetch_path(version: &str, service: &str) -> (path: String)
        ensures
            path@ == object_path::object_path(module_name(version@, service@)),
    {
        object_path::path_of(service_id(version, service).as_str())
    }
}

/// Versions and services whose names hold no slash have different ids unless they
/// are the same.
pub proof fn law_one_id_per_service(
    v: Seq<char>,
    s: Seq<char>,
    w: Seq<char>,
    t: Seq<char>,
)
    requires
        !v.contains('/'),
        !w.contains('/'),
        module_name(v, s) == module_name(w, t),
    ensures
        v == w,
        s == t,
{
    reveal_strlit("/");
    let id = module_name(v, s);
    assert(id[v.len() as int] == '/');
    assert(module_name(w, t)[w.len() as int] == '/');
    if v.len() < w.len() {
        assert(id[v.len() as int] == w[v.len() as int]);
        assert(w.contains(w[v.len() as int]));
    }
    if w.len() < v.len() {
        assert(id[w.len() as int] == v[w.len() as int]);
        assert(v.contains(v[w.len() as int]));
    }
    assert(id.take(v.len() as int) =~= v);
    assert(id.take(w.len() as int) =~= w);
    assert(id.skip(v.len() as int + 1) =~= s);
    assert(id.skip(w.len() as int + 1) =~= t);
}

} // verus!
