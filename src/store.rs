//! Persisting framed objects: each object is kept zlib-compressed in a file
//! whose path is derived from its fingerprint (see `ObjectId::shard`). The
//! file system itself is the caller's; this module decides what to write and
//! turns what was read back into framed bytes.
use vstd::prelude::*;
use crate::error::ObjError;

verus! {

/// The zlib stream that the default compression level makes of a byte string.
pub uninterp spec fn zlib_of(b: Seq<u8>) -> Seq<u8>;

/// What decompressing a byte string as a zlib stream gives; `None` where it
/// is not one.
pub uninterp spec fn inflate_of(c: Seq<u8>) -> Option<Seq<u8>>;

/// Relies on `flate2::write::ZlibEncoder` over a `Vec` at
/// `Compression::default()`: the finished buffer is the zlib stream of the
/// bytes written. Writing into a `Vec` has no I/O error, and `finish` only
/// passes on the writer's errors.
#[verifier::external_body]
fn zlib_compress(b: &[u8]) -> (r: Vec<u8>)
    ensures
        r@ == zlib_of(b@),
{
    let mut enc = flate2::write::ZlibEncoder::new(Vec::new(), flate2::Compression::default());
    std::io::Write::write_all(&mut enc, b).expect("writing into a Vec does not fail");
    enc.finish().expect("writing into a Vec does not fail")
}

/// Relies on `flate2::read::ZlibDecoder` read to its end: the result depends
/// on the bytes alone, and a stream that the encoder made of some bytes
/// decompresses to exactly those bytes.
#[verifier::external_body]
fn zlib_decompress(c: &[u8]) -> (r: Option<Vec<u8>>)
    ensures
        r is Some <==> inflate_of(c@) is Some,
        r is Some ==> r->0@ == inflate_of(c@)->0,
        forall|b: Seq<u8>| #[trigger] zlib_of(b) == c@ ==> (r is Some && r->0@ == b),
{
    let mut out = Vec::new();
    std::io::Read::read_to_end(&mut flate2::read::ZlibDecoder::new(c), &mut out).ok()?;
    Some(out)
}

/// The store's files after writing `framed` under `id`: an id that is
/// already present is left as it is; otherwise its file gets the compressed
/// framing.
pub open spec fn write_spec(files: Map<Seq<u8>, Seq<u8>>, id: Seq<u8>, framed: Seq<u8>) -> Map<
    Seq<u8>,
    Seq<u8>,
> {
    if files.contains_key(id) {
        files
    } else {
        files.insert(id, zlib_of(framed))
    }
}

/// What writing `framed` asks of the file system, given whether a file is
/// already present at its id's path: nothing (`None`) where one is, else the
/// compressed bytes to put there.
pub fn plan_write(framed: &[u8], present: bool) -> (r: Option<Vec<u8>>)
    ensures
        present ==> r is None,
        !present ==> (r matches Some(c) && c@ == zlib_of(framed@)),
{
    if present {
        None
    } else {
        Some(zlib_compress(framed))
    }
}

/// The framed object from what its file holds, `None` where there is no
/// file: `NotFound` without a file, `Corrupt` where its bytes do not
/// decompress.
pub fn read_object(stored: Option<&[u8]>) -> (r: Result<Vec<u8>, ObjError>)
    ensures
        stored is None ==> r == Err::<Vec<u8>, ObjError>(ObjError::NotFound),
        stored matches Some(c) ==> match inflate_of(c@) {
            None => r == Err::<Vec<u8>, ObjError>(ObjError::Corrupt),
            Some(v) => r matches Ok(x) && x@ == v,
        },
        forall|b: Seq<u8>|
            stored matches Some(c) && #[trigger] zlib_of(b) == c@ ==> (r matches Ok(v) && v@ == b),
{
    match stored {
        None => Err(ObjError::NotFound),
        Some(c) => match zlib_decompress(c) {
            Some(v) => Ok(v),
            None => Err(ObjError::Corrupt),
        },
    }
}

/// The store's files after carrying out an answer of `plan_write` for `id`.
pub open spec fn apply_plan(files: Map<Seq<u8>, Seq<u8>>, id: Seq<u8>, plan: Option<Seq<u8>>) -> Map<
    Seq<u8>,
    Seq<u8>,
> {
    match plan {
        None => files,
        Some(c) => files.insert(id, c),
    }
}

/// Carrying out what `plan_write` answers, asked with whether `id` is
/// present, is exactly the write that `write_spec` describes.
pub proof fn lemma_plan_is_write(
    files: Map<Seq<u8>, Seq<u8>>,
    id: Seq<u8>,
    framed: Seq<u8>,
    plan: Option<Seq<u8>>,
)
    requires
        files.contains_key(id) ==> plan is None,
        !files.contains_key(id) ==> plan == Some(zlib_of(framed)),
    ensures
        apply_plan(files, id, plan) == write_spec(files, id, framed),
{
}

/// Writing is idempotent: a second write of the same object under the same
/// id changes nothing, and where the store held nothing else under that id,
/// its file holds the compressed framing, which `read_object` turns back
/// into the framing itself.
pub proof fn lemma_write_idempotent(files: Map<Seq<u8>, Seq<u8>>, id: Seq<u8>, framed: Seq<u8>)
    requires
        files.contains_key(id) ==> files[id] == zlib_of(framed),
    ensures
        write_spec(write_spec(files, id, framed), id, framed) == write_spec(files, id, framed),
        write_spec(files, id, framed).contains_key(id),
        write_spec(files, id, framed)[id] == zlib_of(framed),
{
}

} // verus!
