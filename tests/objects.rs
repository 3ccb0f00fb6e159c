use my_git::codec::{decode_object, encode_object, hash_object};
use my_git::hex::{decode_hex, encode_hex};
use my_git::id::ObjectId;
use my_git::object::{decode_frame, frame_object, GitError, ObjectKind};
use my_git::store::{head_contents, object_location};

fn hex_text(id: &ObjectId) -> String {
    String::from_utf8(id.to_hex()).unwrap()
}

#[test]
fn hex_encodes_lowercase_pairs() {
    assert_eq!(encode_hex(&[0x00, 0x0f, 0xab, 0xff]), b"000fabff".to_vec());
    assert_eq!(encode_hex(&[]), Vec::<u8>::new());
}

#[test]
fn hex_decodes_back() {
    assert_eq!(decode_hex(b"000fabff"), Some(vec![0x00, 0x0f, 0xab, 0xff]));
    assert_eq!(decode_hex(b"abc"), None);
    assert_eq!(decode_hex(b"zz"), None);
    assert_eq!(decode_hex(b"AB"), None);
}

#[test]
fn id_from_hex_needs_forty_digits() {
    assert!(ObjectId::from_hex(b"45b983be36b73c0788dc9cbcb76cbb80fc7bb057").is_some());
    assert!(ObjectId::from_hex(b"45b983be").is_none());
    assert!(ObjectId::from_bytes(vec![1, 2, 3]).is_none());
    assert!(ObjectId::from_bytes(vec![7; 20]).is_some());
}

#[test]
fn frame_has_kind_length_and_nul() {
    assert_eq!(frame_object(ObjectKind::Blob, b"hi\n"), b"blob 3\0hi\n".to_vec());
    assert_eq!(frame_object(ObjectKind::Tree, b""), b"tree 0\0".to_vec());
    let long = vec![b'x'; 1234];
    let f = frame_object(ObjectKind::Commit, &long);
    assert_eq!(&f[..12], b"commit 1234\0");
    assert_eq!(f.len(), 12 + 1234);
}

#[test]
fn frame_decodes_to_kind_and_body() {
    let (k, b) = decode_frame(b"blob 3\0hi\n").unwrap();
    assert_eq!(k, ObjectKind::Blob);
    assert_eq!(b, b"hi\n".to_vec());
    let (k, b) = decode_frame(b"tree 0\0").unwrap();
    assert_eq!(k, ObjectKind::Tree);
    assert!(b.is_empty());
}

#[test]
fn frame_errors_are_corrupt_object() {
    assert_eq!(decode_frame(b"blob 3hi\n"), Err(GitError::CorruptObject));
    assert_eq!(decode_frame(b"blob 4\0hi\n"), Err(GitError::CorruptObject));
    assert_eq!(decode_frame(b"blob 03\0hi\n"), Err(GitError::CorruptObject));
    assert_eq!(decode_frame(b"blob x\0hi\n"), Err(GitError::CorruptObject));
    assert_eq!(decode_frame(b"blub 3\0hi\n"), Err(GitError::CorruptObject));
    assert_eq!(decode_frame(b"blob"), Err(GitError::CorruptObject));
    assert_eq!(decode_frame(b""), Err(GitError::CorruptObject));
}

#[test]
fn blob_hi_has_reference_id() {
    let id = hash_object(ObjectKind::Blob, b"hi\n");
    assert_eq!(hex_text(&id), "45b983be36b73c0788dc9cbcb76cbb80fc7bb057");
    let o = encode_object(ObjectKind::Blob, b"hi\n");
    assert_eq!(hex_text(&o.id), "45b983be36b73c0788dc9cbcb76cbb80fc7bb057");
}

#[test]
fn empty_blob_has_reference_id() {
    let id = hash_object(ObjectKind::Blob, b"");
    assert_eq!(hex_text(&id), "e69de29bb2d1d6434b8b29ae775ad8c2e48c5391");
}

#[test]
fn blob_round_trips_through_compression() {
    for body in [b"".to_vec(), b"hi\n".to_vec(), vec![0u8, 255, 0, 10, 32], vec![b'a'; 5000]] {
        let o = encode_object(ObjectKind::Blob, &body);
        assert_ne!(o.compressed, frame_object(ObjectKind::Blob, &body));
        let (k, b) = decode_object(&o.compressed).unwrap();
        assert_eq!(k, ObjectKind::Blob);
        assert_eq!(b, body);
    }
}

#[test]
fn same_blob_twice_gives_same_id() {
    let a = encode_object(ObjectKind::Blob, b"same content");
    let b = encode_object(ObjectKind::Blob, b"same content");
    assert!(a.id.same(&b.id));
    assert_eq!(a.compressed, b.compressed);
    let c = encode_object(ObjectKind::Blob, b"other content");
    assert!(!a.id.same(&c.id));
}

#[test]
fn garbage_does_not_decode() {
    assert_eq!(decode_object(b"not zlib at all"), Err(GitError::CorruptObject));
    assert_eq!(decode_object(b""), Err(GitError::CorruptObject));
}

#[test]
fn location_splits_two_and_thirty_eight() {
    let id = ObjectId::from_hex(b"45b983be36b73c0788dc9cbcb76cbb80fc7bb057").unwrap();
    let (dir, file) = object_location(&id);
    assert_eq!(dir, b"45".to_vec());
    assert_eq!(file, b"b983be36b73c0788dc9cbcb76cbb80fc7bb057".to_vec());
}

#[test]
fn head_points_at_main() {
    assert_eq!(head_contents(), b"ref: refs/heads/main\n".to_vec());
}
