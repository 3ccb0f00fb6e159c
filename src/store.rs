//! Where objects live in the store, and the repository's default pointer.

use vstd::prelude::*;
use crate::id::ObjectId;
use crate::hex::hex_of;

verus! {

/// An object's place in the store: the directory named by the first two hex
/// characters of its id and the file named by the other thirty-eight.
pub fn object_location(id: &ObjectId) -> (r: (Vec<u8>, Vec<u8>))
    ensures
        r.0@ == hex_of(id@).take(2),
        r.1@ == hex_of(id@).skip(2),
        r.0@ + r.1@ == hex_of(id@),
{
    let h = id.to_hex();
    let dir = crate::object::copy_range(h.as_slice(), 0, 2);
    let file = crate::object::copy_range(h.as_slice(), 2, h.len());
    assert(hex_of(id@).take(2) =~= h@.subrange(0, 2));
    assert(hex_of(id@).skip(2) =~= h@.subrange(2, h@.len() as int));
    assert(dir@ + file@ =~= hex_of(id@));
    (dir, file)
}

/// The text of the default-branch pointer: `ref: refs/heads/main` and a newline.
pub open spec fn head_text() -> Seq<u8> {
    seq![114u8, 101, 102, 58, 32, 114, 101, 102, 115, 47, 104, 101, 97, 100, 115, 47, 109, 97, 105, 110, 10]
}

/// The contents of a fresh repository's default-branch pointer file.
pub fn head_contents() -> (r: Vec<u8>)
    ensures
        r@ == head_text(),
{
    let r = vec![114u8, 101, 102, 58, 32, 114, 101, 102, 115, 47, 104, 101, 97, 100, 115, 47, 109, 97, 105, 110, 10];
    assert(r@ =~= head_text());
    r
}

} // verus!
