use vstd::prelude::*;

use crate::error::IdxResult;
use crate::names::ObjectName;

verus! {

/// The names filed under `k` in an index whose contents are `m`: empty when
/// `k` is absent.
pub open spec fn names_under<K>(m: Map<K, Seq<Seq<char>>>, k: K) -> Seq<Seq<char>> {
    if m.contains_key(k) {
        m[k]
    } else {
        Seq::empty()
    }
}

/// The texts of a list of borrowed names.
pub open spec fn texts(v: Seq<ObjectName>) -> Seq<Seq<char>> {
    v.map_values(|n: ObjectName| n@)
}

/// The keys behind a list of references.
pub open spec fn keys_of<K>(v: Seq<&K>) -> Seq<K> {
    v.unref()
}

/// Read access to a built index.
pub trait Lookup<'a> {
    /// The type used as key into the index.
    type Key: 'a;

    /// What the index holds: each key with the names filed under it.
    spec fn contents(&self) -> Map<Self::Key, Seq<Seq<char>>>;

    /// The index is complete and may be queried.
    spec fn ready(&self) -> bool;

    /// `get` never fails on this index.
    spec fn infallible(&self) -> bool;

    /// All object names filed under `key`, none for an unknown key.
    fn get(&'a self, key: &Self::Key) -> (r: IdxResult<Vec<ObjectName<'a>>>)
        requires
            self.ready(),
        ensures
            self.infallible() ==> r is Ok,
            r matches Ok(v) ==> texts(v@) == names_under(self.contents(), *key),
    ;

    /// Every key of the index once, in no particular order.
    fn keys(&'a self) -> (r: Vec<&'a Self::Key>)
        requires
            self.ready(),
        ensures
            keys_of(r@).no_duplicates(),
            keys_of(r@).to_set() == self.contents().dom(),
    ;
}

} // verus!
