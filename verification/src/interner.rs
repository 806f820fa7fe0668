//! Interning of resource handles.
//!
//! Resource handles are opaque identifiers supplied by the caller; the
//! scheduler maps each one to a small, dense internal id so that lock sets
//! can be bitsets and counter vectors.  The mapping lives in a
//! `hashbrown::HashMap`, which Verus cannot look into; it is held in a
//! field of an opaque struct and its contents are named by
//! `interner_view`.

use vstd::prelude::*;

verus! {

/// Mapping from resource handles to dense internal resource ids.
#[verifier::external_body]
pub struct HandleInterner {
    inner: hashbrown::HashMap<u64, usize>,
}

/// The key-value pairs held by `m`.
pub uninterp spec fn interner_view(m: HandleInterner) -> Map<u64, usize>;

/// Relies on hashbrown::HashMap::new: the returned map holds no entry.
#[verifier::external_body]
pub fn interner_new() -> (r: HandleInterner)
    ensures
        interner_view(r).dom() == Set::<u64>::empty(),
{
    HandleInterner { inner: hashbrown::HashMap::new() }
}

impl HandleInterner {
    /// Relies on hashbrown::HashMap::contains_key: true exactly when the
    /// map holds an entry for `handle`.
    #[verifier::external_body]
    pub fn contains_key(&self, handle: u64) -> (r: bool)
        ensures
            r == interner_view(*self).dom().contains(handle),
    {
        self.inner.contains_key(&handle)
    }

    /// Relies on hashbrown::HashMap::get: the value stored under `handle`,
    /// or `None` when the map holds no entry for it.
    #[verifier::external_body]
    pub fn get(&self, handle: u64) -> (r: Option<usize>)
        ensures
            match r {
                Some(id) => interner_view(*self).dom().contains(handle) && id == interner_view(*self)[handle],
                None => !interner_view(*self).dom().contains(handle),
            },
    {
        self.inner.get(&handle).copied()
    }

    /// Relies on hashbrown::HashMap::len: the number of entries held.
    #[verifier::external_body]
    pub fn len(&self) -> (r: usize)
        ensures
            r == interner_view(*self).dom().len(),
    {
        self.inner.len()
    }

    /// Relies on hashbrown::HashMap::insert: after the call the map binds
    /// `handle` to `id` and is otherwise unchanged.
    #[verifier::external_body]
    pub fn insert(&mut self, handle: u64, id: usize)
        ensures
            interner_view(*final(self)) == interner_view(*old(self)).insert(handle, id),
    {
        self.inner.insert(handle, id);
    }
}

} // verus!
