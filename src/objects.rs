//! Object-level operations: hashing a blob, and reading blobs and trees back
//! from their framing.
use vstd::prelude::*;
use crate::codec::{
    decode, encode_blob, encode_blob_spec, decode_spec, entries_view, frame, tree_tag, blob_tag,
    CodecError, Entry, Object, ObjectView,
};
use crate::error::ObjError;
use crate::id::{fingerprint, sha1_of, ObjectId};

verus! {

/// The fingerprint and framing of a file's contents as a blob.
pub fn hash_object(data: &[u8]) -> (r: (ObjectId, Vec<u8>))
    ensures
        r.1@ == encode_blob_spec(data@),
        r.0@ == sha1_of(r.1@),
        r.0.wf(),
{
    let framed = encode_blob(data);
    let id = fingerprint(framed.as_slice());
    (id, framed)
}

/// A framing fault as read from the store: a length that disagrees with the
/// payload means the stored object is corrupt.
fn codec_error(e: CodecError) -> (r: ObjError)
    ensures
        e == CodecError::Malformed ==> r == ObjError::Malformed,
        e == CodecError::LengthMismatch ==> r == ObjError::Corrupt,
{
    match e {
        CodecError::Malformed => ObjError::Malformed,
        CodecError::LengthMismatch => ObjError::Corrupt,
    }
}

/// The payload of a framed blob.
pub fn read_blob(framed: &[u8]) -> (r: Result<Vec<u8>, ObjError>)
    ensures
        match decode_spec(framed@) {
            Err(CodecError::Malformed) => r == Err::<Vec<u8>, ObjError>(ObjError::Malformed),
            Err(CodecError::LengthMismatch) => r == Err::<Vec<u8>, ObjError>(ObjError::Corrupt),
            Ok(ObjectView::Tree(_)) => r == Err::<Vec<u8>, ObjError>(ObjError::WrongKind),
            Ok(ObjectView::Blob(p)) => r matches Ok(v) && v@ == p,
        },
{
    match decode(framed) {
        Err(e) => Err(codec_error(e)),
        Ok(Object::Blob(p)) => Ok(p),
        Ok(Object::Tree(_)) => Err(ObjError::WrongKind),
    }
}

/// The entries of a framed tree, in stored order.
pub fn list_tree(framed: &[u8]) -> (r: Result<Vec<Entry>, ObjError>)
    ensures
        match decode_spec(framed@) {
            Err(CodecError::Malformed) => r == Err::<Vec<Entry>, ObjError>(ObjError::Malformed),
            Err(CodecError::LengthMismatch) => r == Err::<Vec<Entry>, ObjError>(ObjError::Corrupt),
            Ok(ObjectView::Blob(_)) => r == Err::<Vec<Entry>, ObjError>(ObjError::WrongKind),
            Ok(ObjectView::Tree(es)) => r matches Ok(v) && entries_view(v@) == es,
        },
{
    match decode(framed) {
        Err(e) => Err(codec_error(e)),
        Ok(Object::Blob(_)) => Err(ObjError::WrongKind),
        Ok(Object::Tree(es)) => Ok(es),
    }
}

/// The names of the entries, in order.
pub fn entry_names(entries: &Vec<Entry>) -> (r: Vec<Vec<u8>>)
    ensures
        r@.len() == entries@.len(),
        forall|i: int| 0 <= i < r@.len() ==> (#[trigger] r@[i])@ == entries@[i].name@,
{
    let mut out: Vec<Vec<u8>> = Vec::new();
    let mut i: usize = 0;
    while i < entries.len()
        invariant
            i <= entries@.len(),
            out@.len() == i,
            forall|j: int| 0 <= j < i ==> (#[trigger] out@[j])@ == entries@[j].name@,
        decreases entries@.len() - i,
    {
        out.push(vstd::slice::slice_to_vec(entries[i].name.as_slice()));
        i = i + 1;
    }
    out
}

/// Equal contents get equal fingerprints as blobs.
pub proof fn lemma_content_addressing(b1: Seq<u8>, b2: Seq<u8>)
    requires
        b1 == b2,
    ensures
        sha1_of(encode_blob_spec(b1)) == sha1_of(encode_blob_spec(b2)),
{
}

/// The framing carries the kind: the same bytes framed as a blob and as a
/// tree payload are different byte strings, so the digest is taken over
/// different inputs.
pub proof fn lemma_kinds_framed_apart(p: Seq<u8>)
    ensures
        encode_blob_spec(p) != frame(tree_tag(), p),
{
    let a = encode_blob_spec(p);
    let b = frame(tree_tag(), p);
    assert(a[0] == blob_tag()[0]);
    assert(b[0] == tree_tag()[0]);
}

} // verus!
