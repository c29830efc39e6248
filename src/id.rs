//! Object fingerprints: SHA-1 digests of framed objects, and their hex form.
use vstd::prelude::*;
use vstd::slice::{slice_subrange, slice_to_vec};

verus! {

/// The SHA-1 digest of a byte string.
pub uninterp spec fn sha1_of(b: Seq<u8>) -> Seq<u8>;

/// Relies on `sha1::Sha1::digest`: the digest of the bytes, 20 bytes long
/// (the hasher's output size is `U20`).
#[verifier::external_body]
fn sha1_digest(b: &[u8]) -> (r: Vec<u8>)
    ensures
        r@ == sha1_of(b@),
        r@.len() == 20,
{
    <sha1::Sha1 as sha1::Digest>::digest(b).to_vec()
}

/// Lowercase hex digit for `d < 16`.
pub open spec fn hex_char(d: int) -> char {
    seq!['0', '1', '2', '3', '4', '5', '6', '7', '8', '9', 'a', 'b', 'c', 'd', 'e', 'f'][d]
}

/// Two lowercase hex digits per byte, high nibble first.
pub open spec fn hex_of(b: Seq<u8>) -> Seq<char>
    decreases b.len(),
{
    if b.len() == 0 {
        Seq::empty()
    } else {
        hex_of(b.drop_last()) + seq![hex_char(b.last() as int / 16), hex_char(b.last() as int % 16)]
    }
}

/// The value of a hex digit, in either case.
pub open spec fn hex_value(c: char) -> Option<u8> {
    let n = c as u32;
    if 48 <= n <= 57 {
        Some((n - 48) as u8)
    } else if 97 <= n <= 102 {
        Some((n - 87) as u8)
    } else if 65 <= n <= 70 {
        Some((n - 55) as u8)
    } else {
        None
    }
}

/// An even number of hex digits.
pub open spec fn is_hex(s: Seq<char>) -> bool {
    s.len() % 2 == 0 && forall|i: int| 0 <= i < s.len() ==> (#[trigger] hex_value(s[i])) is Some
}

/// The bytes that a string of hex digit pairs denotes.
pub open spec fn hex_bytes(s: Seq<char>) -> Seq<u8> {
    Seq::new(
        (s.len() / 2) as nat,
        |i: int| (hex_value(s[2 * i])->0 * 16 + hex_value(s[2 * i + 1])->0) as u8,
    )
}

/// Relies on `hex::encode`: two lowercase digits for each byte, in order.
#[verifier::external_body]
fn hex_encode(b: &[u8]) -> (r: String)
    ensures
        r@ == hex_of(b@),
{
    hex::encode(b)
}

/// Relies on `hex::decode`: it accepts an even number of hex digits of either
/// case and turns each pair into one byte; anything else is an error.
#[verifier::external_body]
fn hex_decode(s: &str) -> (r: Option<Vec<u8>>)
    ensures
        r is Some <==> is_hex(s@),
        r is Some ==> r->0@ == hex_bytes(s@),
{
    hex::decode(s).ok()
}

/// Why a string is not an object id.
#[derive(Clone, Copy, Debug, PartialEq, Eq, Structural)]
pub enum IdError {
    /// Not an even number of hex digits.
    NotHex,
    /// Hex, but not 40 digits.
    WrongLength,
}

/// A 20-byte fingerprint.
#[derive(Debug)]
pub struct ObjectId {
    raw: Vec<u8>,
}

impl View for ObjectId {
    type V = Seq<u8>;

    closed spec fn view(&self) -> Seq<u8> {
        self.raw@
    }
}

proof fn lemma_hex_of_append(a: Seq<u8>, b: Seq<u8>)
    ensures
        hex_of(a + b) == hex_of(a) + hex_of(b),
    decreases b.len(),
{
    if b.len() == 0 {
        assert(a + b =~= a);
        assert(hex_of(a) + hex_of(b) =~= hex_of(a));
    } else {
        lemma_hex_of_append(a, b.drop_last());
        assert((a + b).drop_last() =~= a + b.drop_last());
        assert(hex_of(a + b) =~= hex_of(a) + hex_of(b));
    }
}

/// The fingerprint of a framed object.
pub fn fingerprint(framed: &[u8]) -> (r: ObjectId)
    ensures
        r@ == sha1_of(framed@),
        r.wf(),
{
    ObjectId { raw: sha1_digest(framed) }
}

impl ObjectId {
    pub open spec fn wf(&self) -> bool {
        self@.len() == 20
    }

    /// An id from its 20 raw bytes; `None` for any other length.
    pub fn from_raw(raw: Vec<u8>) -> (r: Option<ObjectId>)
        ensures
            r is Some <==> raw@.len() == 20,
            r matches Some(id) ==> id@ == raw@ && id.wf(),
    {
        if raw.len() == 20 {
            Some(ObjectId { raw })
        } else {
            None
        }
    }

    /// An id from its 40-digit hex form (digits of either case).
    pub fn from_hex(s: &str) -> (r: Result<ObjectId, IdError>)
        ensures
            r is Ok <==> is_hex(s@) && s@.len() == 40,
            r matches Ok(id) ==> id@ == hex_bytes(s@) && id.wf(),
            r == Err::<ObjectId, IdError>(IdError::NotHex) <==> !is_hex(s@),
    {
        match hex_decode(s) {
            None => Err(IdError::NotHex),
            Some(raw) => {
                if raw.len() == 20 {
                    Ok(ObjectId { raw })
                } else {
                    Err(IdError::WrongLength)
                }
            },
        }
    }

    /// A copy of this id.
    pub fn duplicate(&self) -> (r: ObjectId)
        ensures
            r@ == self@,
    {
        let raw = slice_to_vec(self.raw.as_slice());
        ObjectId { raw }
    }

    pub fn as_bytes(&self) -> (r: &[u8])
        ensures
            r@ == self@,
    {
        self.raw.as_slice()
    }

    /// The 40-digit lowercase hex form.
    pub fn to_hex(&self) -> (r: String)
        ensures
            r@ == hex_of(self@),
    {
        hex_encode(self.raw.as_slice())
    }

    /// Where the object is kept: the shard directory named by the first two
    /// hex digits, and the file named by the remaining ones.
    pub fn shard(&self) -> (r: (String, String))
        requires
            self.wf(),
        ensures
            r.0@ + r.1@ == hex_of(self@),
            r.0@.len() == 2,
    {
        let s = self.raw.as_slice();
        let head = slice_subrange(s, 0, 1);
        let tail = slice_subrange(s, 1, 20);
        proof {
            lemma_hex_of_append(head@, tail@);
            assert(head@ + tail@ =~= self@);
            assert(head@.drop_last() =~= Seq::<u8>::empty());
            assert(hex_of(head@.drop_last()).len() == 0);
            assert(hex_of(head@).len() == 2);
        }
        (hex_encode(head), hex_encode(tail))
    }

    pub fn equals(&self, other: &ObjectId) -> (r: bool)
        ensures
            r == (self@ == other@),
    {
        crate::codec::bytes_equal(self.raw.as_slice(), other.raw.as_slice())
    }
}

} // verus!
