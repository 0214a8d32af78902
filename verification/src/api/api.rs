//! What a key-value store can do.
use vstd::prelude::*;
use crate::error::DBError;

verus! {

/// A key-value store. What its operations do is up to the store: the relations name
/// what a store takes a call to have done, and a store that names none can do anything.
pub trait KVEngine: Sized {
    /// Looking a key up can give this result.
    open spec fn gets(&self, key: Seq<u8>, r: Result<Option<Vec<u8>>, DBError>) -> bool {
        true
    }

    /// Setting a key can lead to this store, with this result.
    open spec fn puts(
        &self,
        key: Seq<u8>,
        value: Seq<u8>,
        after: &Self,
        r: Result<(), DBError>,
    ) -> bool {
        true
    }

    /// Deleting a key can lead to this store, with this result.
    open spec fn deletes(&self, key: Seq<u8>, after: &Self, r: Result<(), DBError>) -> bool {
        true
    }

    /// The value of a key.
    fn get(&self, key: &[u8]) -> (r: Result<Option<Vec<u8>>, DBError>)
        ensures
            self.gets(key@, r),
    ;

    /// Sets a key.
    fn put(&mut self, key: Vec<u8>, value: Vec<u8>) -> (r: Result<(), DBError>)
        ensures
            old(self).puts(key@, value@, final(self), r),
    ;

    /// Deletes a key.
    fn delete(&mut self, key: Vec<u8>) -> (r: Result<(), DBError>)
        ensures
            old(self).deletes(key@, final(self), r),
    ;
}

} // verus!
