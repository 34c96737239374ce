//! Shared, immutable module paths.
use std::sync::Arc;
use vstd::prelude::*;

verus! {

/// A module path: a shared handle to the path's text, so that keys, entries
/// and the driver can all refer to one path without copying it.
pub type ModulePath = Arc<String>;

/// The text of each path in a list.
pub open spec fn paths_view(s: Seq<ModulePath>) -> Seq<Seq<char>> {
    s.map_values(|p: ModulePath| p@)
}

/// Whether two paths have the same text.
pub fn same_path(a: &ModulePath, b: &ModulePath) -> (r: bool)
    ensures
        r == (a@ == b@),
{
    let sa: &String = a;
    let sb: &String = b;
    *sa == *sb
}

/// Relies on `Arc::clone`: the new handle points to the same allocation, so it
/// holds the same value.
#[verifier::external_body]
pub(crate) fn share<T>(p: &Arc<T>) -> (r: Arc<T>)
    ensures
        r == *p,
{
    Arc::clone(p)
}

/// A list of fresh handles to the same values, in the same order.
pub fn share_all<T>(s: &Vec<Arc<T>>) -> (r: Vec<Arc<T>>)
    ensures
        r@ == s@,
{
    let mut r: Vec<Arc<T>> = Vec::new();
    let mut i: usize = 0;
    while i < s.len()
        invariant
            i <= s.len(),
            r@ == s@.subrange(0, i as int),
        decreases s.len() - i,
    {
        r.push(share(&s[i]));
        i = i + 1;
    }
    assert(r@ =~= s@);
    r
}

} // verus!
