use crate::gitr_errors::GitrError;
use crate::objects::git_object::{
    canonical, canonical_bytes, hash_object, is_object_id, object_id, ObjectKind,
};
use crate::objects::tree::Tree;
use crate::codec::{compresses, flate2compress2, is_stream_of, zlib_stream};
use crate::file_manager::{holds, written, ObjectStore};
use vstd::prelude::*;

verus! {

/// What a directory entry can point at.
#[derive(Debug)]
pub enum TreeEntry {
    Blob(Blob),
    Tree(Tree),
}

impl TreeEntry {
    /// The id of the object pointed at.
    pub open spec fn id(&self) -> Seq<u8> {
        match self {
            TreeEntry::Blob(b) => object_id(ObjectKind::Blob, b@),
            TreeEntry::Tree(t) => t.id(),
        }
    }

    /// Whether the entry points at a tree.
    pub open spec fn is_tree(&self) -> bool {
        self is Tree
    }

    /// The id of the object pointed at.
    pub fn get_hash(&self) -> (r: Vec<u8>)
        ensures
            r@ == self.id(),
            is_object_id(r@),
    {
        match self {
            TreeEntry::Blob(b) => b.get_hash(),
            TreeEntry::Tree(t) => t.get_hash(),
        }
    }
}

/// A file's contents. Its view is the payload.
#[derive(Debug)]
pub struct Blob {
    content: Vec<u8>,
    hash: Vec<u8>,
}

impl View for Blob {
    type V = Seq<u8>;

    closed spec fn view(&self) -> Seq<u8> {
        self.content@
    }
}

impl Blob {
    #[verifier::type_invariant]
    spec fn inv(&self) -> bool {
        self.hash@ == object_id(ObjectKind::Blob, self.content@) && is_object_id(self.hash@)
    }

    /// The blob that holds `raw_data`. Never fails.
    pub fn new(raw_data: Vec<u8>) -> (r: Result<Blob, GitrError>)
        ensures
            r matches Ok(b) && b@ == raw_data@,
    {
        let hash = hash_object(ObjectKind::Blob, raw_data.as_slice());
        Ok(Blob { content: raw_data, hash })
    }

    /// The id of this blob.
    pub fn get_hash(&self) -> (r: Vec<u8>)
        ensures
            r@ == object_id(ObjectKind::Blob, self@),
            is_object_id(r@),
    {
        proof {
            use_type_invariant(self);
        }
        self.hash.clone()
    }

    /// The stored form of this blob: its canonical form, compressed;
    /// `CompressionError` when the compressor fails.
    pub fn get_data(&self) -> (r: Result<Vec<u8>, GitrError>)
        ensures
            match r {
                Ok(v) => compresses(canonical(ObjectKind::Blob, self@)) && v@ == zlib_stream(
                    canonical(ObjectKind::Blob, self@),
                )
                    && is_stream_of(v@, canonical(ObjectKind::Blob, self@)),
                Err(e) => e == GitrError::CompressionError && !compresses(
                    canonical(ObjectKind::Blob, self@),
                ),
            },
    {
        let payload = self.get_content();
        let bytes = canonical_bytes(ObjectKind::Blob, payload.as_slice());
        flate2compress2(bytes.as_slice())
    }

    /// Saves this blob in `store`, unless its id is held there already.
    /// On `CompressionError` the store is unchanged.
    pub fn save(&self, store: &mut ObjectStore) -> (r: Result<(), GitrError>)
        ensures
            match r {
                Ok(_) => (holds(old(store)@, object_id(ObjectKind::Blob, self@)) || compresses(
                    canonical(ObjectKind::Blob, self@),
                )) && final(store)@ == written(
                    old(store)@,
                    object_id(ObjectKind::Blob, self@),
                    zlib_stream(canonical(ObjectKind::Blob, self@)),
                ),
                Err(e) => {
                    &&& e == GitrError::CompressionError
                    &&& final(store)@ == old(store)@
                    &&& !holds(old(store)@, object_id(ObjectKind::Blob, self@))
                    &&& !compresses(canonical(ObjectKind::Blob, self@))
                },
            },
    {
        let payload = self.get_content();
        match store.put_payload(ObjectKind::Blob, payload.as_slice()) {
            Ok(_) => Ok(()),
            Err(e) => Err(e),
        }
    }

    /// The payload of this blob.
    pub fn get_content(&self) -> (r: Vec<u8>)
        ensures
            r@ == self@,
    {
        self.content.clone()
    }
}

} // verus!
