//! Hashing and compression of framed objects.

use vstd::prelude::*;
use crate::id::{ObjectId, ID_LEN};
use crate::object::{ObjectKind, GitError, frame, is_frame, frame_object, decode_frame, lemma_frame_injective};

verus! {

/// The SHA-1 digest of a byte sequence.
pub uninterp spec fn sha1_of(data: Seq<u8>) -> Seq<u8>;

/// The zlib stream that the default compression level makes of a byte sequence.
pub uninterp spec fn zlib_of(data: Seq<u8>) -> Seq<u8>;

/// What inflating a byte sequence as a zlib stream gives: the inflated bytes,
/// or nothing where the bytes are no valid stream.
pub uninterp spec fn inflated(data: Seq<u8>) -> Option<Seq<u8>>;

/// Relies on `sha1::Sha1` through `digest::Digest::digest`: a 20-byte digest
/// that depends on the input alone.
#[verifier::external_body]
fn sha1_digest(data: &[u8]) -> (r: Vec<u8>)
    ensures
        r@ == sha1_of(data@),
        r@.len() == ID_LEN,
{
    <sha1::Sha1 as sha1::Digest>::digest(data).to_vec()
}

/// Relies on `flate2::write::ZlibEncoder` at `Compression::default()`, on
/// the crate's default miniz_oxide backend, writing into a `Vec`: writing and
/// finishing cannot fail there, and the stream depends on the input alone.
#[verifier::external_body]
fn zlib_compress(data: &[u8]) -> (r: Vec<u8>)
    ensures
        r@ == zlib_of(data@),
{
    let mut e = flate2::write::ZlibEncoder::new(Vec::new(), flate2::Compression::default());
    let _ = std::io::Write::write_all(&mut e, data);
    e.finish().unwrap_or_default()
}

/// Relies on `flate2::read::ZlibDecoder` and `Read::read_to_end`: the result
/// depends on the input alone, and a stream that `ZlibEncoder` made inflates
/// back to the bytes it was made of.
#[verifier::external_body]
fn zlib_decompress(data: &[u8]) -> (r: Option<Vec<u8>>)
    ensures
        r is None ==> inflated(data@) is None,
        r matches Some(v) ==> inflated(data@) == Some(v@),
        r is None ==> forall|x: Seq<u8>| data@ != #[trigger] zlib_of(x),
        r matches Some(v) ==> forall|x: Seq<u8>| data@ == #[trigger] zlib_of(x) ==> v@ == x,
{
    let mut d = flate2::read::ZlibDecoder::new(data);
    let mut out: Vec<u8> = Vec::new();
    match std::io::Read::read_to_end(&mut d, &mut out) {
        Ok(_) => Some(out),
        Err(_) => None,
    }
}

/// The id of an object: the digest of its framed form.
pub open spec fn object_id(k: ObjectKind, body: Seq<u8>) -> Seq<u8> {
    sha1_of(frame(k, body))
}

/// An object ready for the store: its id and its compressed framed bytes.
pub struct EncodedObject {
    pub id: ObjectId,
    pub compressed: Vec<u8>,
}

/// Computes an object's id without compressing it.
pub fn hash_object(k: ObjectKind, body: &[u8]) -> (r: ObjectId)
    ensures
        r@ == object_id(k, body@),
{
    let framed = frame_object(k, body);
    let d = sha1_digest(framed.as_slice());
    ObjectId::from_digest(d)
}

/// Frames, hashes and compresses an object.
pub fn encode_object(k: ObjectKind, body: &[u8]) -> (r: EncodedObject)
    ensures
        r.id@ == object_id(k, body@),
        r.compressed@ == zlib_of(frame(k, body@)),
{
    let framed = frame_object(k, body);
    let id = hash_object(k, body);
    let compressed = zlib_compress(framed.as_slice());
    EncodedObject { id, compressed }
}

/// Inflates stored bytes back into the framed object they were made from.
/// Bytes that are no valid zlib stream are a corrupt object.
pub fn inflate(compressed: &[u8]) -> (r: Result<Vec<u8>, GitError>)
    ensures
        r is Ok <==> inflated(compressed@) is Some,
        r matches Ok(v) ==> inflated(compressed@) == Some(v@),
        forall|x: Seq<u8>| compressed@ == #[trigger] zlib_of(x) ==> (r matches Ok(v) && v@ == x),
        r is Err ==> r == Err::<Vec<u8>, GitError>(GitError::CorruptObject),
{
    match zlib_decompress(compressed) {
        Some(v) => Ok(v),
        None => Err(GitError::CorruptObject),
    }
}

/// Inflates stored bytes and splits the frame into kind and body. Bytes that
/// do not inflate, or inflate to no frame, are a corrupt object; bytes that
/// `encode_object` produced decode to the kind and body they were made from.
pub fn decode_object(compressed: &[u8]) -> (r: Result<(ObjectKind, Vec<u8>), GitError>)
    ensures
        r is Ok <==> (inflated(compressed@) matches Some(f) && is_frame(f)),
        r matches Ok((k, b)) ==> inflated(compressed@) == Some(frame(k, b@)),
        forall|k: ObjectKind, b: Seq<u8>|
            compressed@ == #[trigger] zlib_of(frame(k, b)) ==> (r matches Ok((k2, b2)) && k2 == k
                && b2@ == b),
        r is Err ==> r == Err::<(ObjectKind, Vec<u8>), GitError>(GitError::CorruptObject),
{
    match inflate(compressed) {
        Ok(framed) => {
            let r = decode_frame(framed.as_slice());
            assert forall|k: ObjectKind, b: Seq<u8>|
                compressed@ == #[trigger] zlib_of(frame(k, b)) implies (r matches Ok((k2, b2))
                && k2 == k && b2@ == b) by {
                assert(framed@ == frame(k, b));
                assert(is_frame(framed@));
                if let Ok((k2, b2)) = r {
                    lemma_frame_injective(k2, b2@, k, b);
                }
            }
            r
        },
        Err(e) => Err(e),
    }
}

} // verus!
