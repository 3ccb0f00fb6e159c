//! The 160-bit object identifier, as raw bytes and as hex text.

use vstd::prelude::*;
use crate::hex::{hex_of, encode_hex, decode_hex};

verus! {

/// The length of an object id in raw bytes.
pub const ID_LEN: usize = 20;

/// An object id: twenty raw digest bytes.
#[derive(Debug)]
pub struct ObjectId {
    bytes: Vec<u8>,
}

impl View for ObjectId {
    type V = Seq<u8>;

    closed spec fn view(&self) -> Seq<u8> {
        self.bytes@
    }
}

impl ObjectId {
    /// Every id holds exactly twenty bytes.
    #[verifier::type_invariant]
    spec fn holds_twenty_bytes(self) -> bool {
        self.bytes@.len() == ID_LEN
    }

    /// Takes twenty raw bytes as an id; any other length is refused.
    pub fn from_bytes(b: Vec<u8>) -> (r: Option<ObjectId>)
        ensures
            r is Some <==> b@.len() == ID_LEN,
            r matches Some(id) ==> id@ == b@,
    {
        if b.len() == ID_LEN {
            Some(ObjectId { bytes: b })
        } else {
            None
        }
    }

    /// Takes a digest that is known to be twenty bytes long.
    pub(crate) fn from_digest(b: Vec<u8>) -> (r: ObjectId)
        requires
            b@.len() == ID_LEN,
        ensures
            r@ == b@,
    {
        ObjectId { bytes: b }
    }

    /// Parses the forty-character lowercase hex form.
    pub fn from_hex(s: &[u8]) -> (r: Option<ObjectId>)
        ensures
            r matches Some(id) ==> id@.len() == ID_LEN && hex_of(id@) == s@,
            r is None ==> forall|v: Seq<u8>| v.len() == ID_LEN ==> hex_of(v) != s@,
    {
        match decode_hex(s) {
            Some(v) => {
                if v.len() == ID_LEN {
                    Some(ObjectId { bytes: v })
                } else {
                    assert forall|w: Seq<u8>| w.len() == ID_LEN implies hex_of(w) != s@ by {
                        assert(hex_of(w).len() == 2 * w.len());
                        assert(hex_of(v@).len() == 2 * v@.len());
                    }
                    None
                }
            },
            None => None,
        }
    }

    /// The forty-character lowercase hex form.
    pub fn to_hex(&self) -> (r: Vec<u8>)
        ensures
            r@ == hex_of(self@),
            r@.len() == 2 * ID_LEN,
    {
        proof {
            use_type_invariant(self);
        }
        encode_hex(self.bytes.as_slice())
    }

    /// The raw bytes.
    pub fn as_bytes(&self) -> (r: &[u8])
        ensures
            r@ == self@,
    {
        self.bytes.as_slice()
    }

    /// Whether two ids are the same, compared byte by byte.
    pub fn same(&self, o: &ObjectId) -> (r: bool)
        ensures
            r == (self@ == o@),
    {
        let a = self.bytes.as_slice();
        let b = o.bytes.as_slice();
        if a.len() != b.len() {
            return false;
        }
        let mut i: usize = 0;
        while i < a.len()
            invariant
                a@ == self@,
                b@ == o@,
                a@.len() == b@.len(),
                i <= a@.len(),
                forall|j: int| 0 <= j < i ==> a@[j] == b@[j],
            decreases a@.len() - i,
        {
            if a[i] != b[i] {
                assert(self@[i as int] != o@[i as int]);
                return false;
            }
            i += 1;
        }
        assert(a@ =~= b@);
        true
    }
}

} // verus!
