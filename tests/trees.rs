use my_git::codec::{decode_object, encode_object, inflate};
use my_git::object::frame_object;
use my_git::commit::{build_commit, encode_commit_body};
use my_git::id::ObjectId;
use my_git::object::{GitError, ObjectKind};
use my_git::tree::{
    build_tree_object, canonical_entries, encode_tree_body, has_distinct_names, list_tree_names,
    name_less, mode_bytes, parse_tree_body, tree_names, classify_entry, leaves_out, EntryMode, FileKind, TreeEntry,
};

const EMPTY_TREE: &str = "4b825dc642cb6eb9a060e54bf8d69288fbee4904";

fn hex_text(id: &ObjectId) -> String {
    String::from_utf8(id.to_hex()).unwrap()
}

fn id_of(hex: &str) -> ObjectId {
    ObjectId::from_hex(hex.as_bytes()).unwrap()
}

fn entry(mode: EntryMode, name: &str, hex: &str) -> TreeEntry {
    TreeEntry { mode, name: name.as_bytes().to_vec(), id: id_of(hex) }
}

const HI: &str = "45b983be36b73c0788dc9cbcb76cbb80fc7bb057";

#[test]
fn empty_directory_is_the_empty_tree() {
    let o = build_tree_object(Vec::new(), false).unwrap();
    assert_eq!(hex_text(&o.id), EMPTY_TREE);
}

#[test]
fn directory_with_one_empty_subdirectory() {
    let child = build_tree_object(Vec::new(), false).unwrap();
    let sub = TreeEntry { mode: EntryMode::Directory, name: b"sub".to_vec(), id: child.id };
    let parent = build_tree_object(vec![sub], true).unwrap();
    let (k, body) = decode_object(&parent.compressed).unwrap();
    assert_eq!(k, ObjectKind::Tree);
    let mut expected = b"40000 sub\0".to_vec();
    expected.extend(id_of(EMPTY_TREE).as_bytes());
    assert_eq!(body, expected);
    let entries = parse_tree_body(&body).unwrap();
    assert_eq!(entries.len(), 1);
    assert_eq!(entries[0].mode, b"40000".to_vec());
    assert_eq!(entries[0].name, b"sub".to_vec());
    assert_eq!(hex_text(&entries[0].id), EMPTY_TREE);
}

#[test]
fn tree_body_bytes() {
    let es = vec![entry(EntryMode::Regular, "a.txt", HI), entry(EntryMode::Executable, "run", HI)];
    let body = encode_tree_body(&es);
    let mut expected = b"100644 a.txt\0".to_vec();
    expected.extend(id_of(HI).as_bytes());
    expected.extend(b"100755 run\0");
    expected.extend(id_of(HI).as_bytes());
    assert_eq!(body, expected);
}

#[test]
fn tree_encoding_is_deterministic() {
    let make = || {
        vec![
            entry(EntryMode::Regular, "a", HI),
            entry(EntryMode::Symlink, "link", HI),
            entry(EntryMode::Directory, "sub", EMPTY_TREE),
        ]
    };
    let first = build_tree_object(make(), true).unwrap();
    let second = build_tree_object(make(), true).unwrap();
    assert!(first.id.same(&second.id));
    assert_eq!(first.compressed, second.compressed);
    assert_eq!(encode_tree_body(&make()), encode_tree_body(&make()));
}

#[test]
fn listing_order_does_not_change_the_tree() {
    let one = vec![
        entry(EntryMode::Regular, "b", HI),
        entry(EntryMode::Regular, "a", HI),
        entry(EntryMode::Directory, "c", EMPTY_TREE),
    ];
    let two = vec![
        entry(EntryMode::Directory, "c", EMPTY_TREE),
        entry(EntryMode::Regular, "a", HI),
        entry(EntryMode::Regular, "b", HI),
    ];
    let x = build_tree_object(one, true).unwrap();
    let y = build_tree_object(two, true).unwrap();
    assert!(x.id.same(&y.id));
}

#[test]
fn sorting_is_bytewise_and_drops_dot_names() {
    let es = vec![
        entry(EntryMode::Regular, "b", HI),
        entry(EntryMode::Directory, ".git", EMPTY_TREE),
        entry(EntryMode::Regular, "B", HI),
        entry(EntryMode::Regular, ".hidden", HI),
        entry(EntryMode::Regular, "ab", HI),
        entry(EntryMode::Regular, "a", HI),
    ];
    let sorted = canonical_entries(es, true);
    let names: Vec<Vec<u8>> = sorted.iter().map(|e| e.name.clone()).collect();
    assert_eq!(names, vec![b"B".to_vec(), b"a".to_vec(), b"ab".to_vec(), b"b".to_vec()]);
}

#[test]
fn hidden_entries_do_not_change_the_id() {
    let with = vec![entry(EntryMode::Regular, "a", HI), entry(EntryMode::Regular, ".env", HI)];
    let without = vec![entry(EntryMode::Regular, "a", HI)];
    let x = build_tree_object(with, true).unwrap();
    let y = build_tree_object(without, true).unwrap();
    assert!(x.id.same(&y.id));
}

#[test]
fn repeated_names_are_refused() {
    let es = vec![entry(EntryMode::Regular, "a", HI), entry(EntryMode::Directory, "a", EMPTY_TREE)];
    assert!(!has_distinct_names(&es));
    assert_eq!(build_tree_object(es, true).err(), Some(GitError::InvalidArguments));
}

#[test]
fn names_compare_bytewise() {
    assert!(name_less(b"a", b"b"));
    assert!(name_less(b"a", b"ab"));
    assert!(!name_less(b"ab", b"a"));
    assert!(!name_less(b"a", b"a"));
    assert!(name_less(b"", b"a"));
}

#[test]
fn tree_body_parses_back() {
    let es = vec![
        entry(EntryMode::Regular, "a", HI),
        entry(EntryMode::Executable, "b", HI),
        entry(EntryMode::Symlink, "c", HI),
        entry(EntryMode::Directory, "d", EMPTY_TREE),
    ];
    let body = encode_tree_body(&es);
    let back = parse_tree_body(&body).unwrap();
    assert_eq!(back.len(), 4);
    for (x, y) in es.iter().zip(back.iter()) {
        assert_eq!(mode_bytes(x.mode), y.mode);
        assert_eq!(x.name, y.name);
        assert!(x.id.same(&y.id));
    }
}

#[test]
fn bad_tree_bodies_are_corrupt() {
    assert_eq!(parse_tree_body(b"100644 a\0short").err(), Some(GitError::CorruptObject));
    assert_eq!(parse_tree_body(b"100644 a").err(), Some(GitError::CorruptObject));
    assert_eq!(parse_tree_body(b"junk").err(), Some(GitError::CorruptObject));
    assert_eq!(parse_tree_body(b"").unwrap().len(), 0);
}

#[test]
fn tree_names_are_listed_in_order() {
    let es = vec![entry(EntryMode::Regular, "z", HI), entry(EntryMode::Directory, "m", EMPTY_TREE)];
    let o = build_tree_object(es, true).unwrap();
    let names = list_tree_names(&o.compressed).unwrap();
    assert_eq!(names, vec![b"m".to_vec(), b"z".to_vec()]);
    let blob = encode_object(ObjectKind::Blob, b"hi\n");
    assert_eq!(list_tree_names(&blob.compressed), Err(GitError::CorruptObject));
}

#[test]
fn commit_without_parent() {
    let tree = id_of(EMPTY_TREE);
    let body = encode_commit_body(&tree, None, b"initial");
    let expected = format!(
        "tree {}\nauthor John Doe <john@example.com> 1234567890 +0000\ncommitter John Doe <john@example.com> 1234567890 +0000\n\ninitial\n",
        EMPTY_TREE
    );
    assert_eq!(String::from_utf8(body).unwrap(), expected);
    let a = build_commit(&tree, None, b"initial");
    let b = build_commit(&tree, None, b"initial");
    assert!(a.id.same(&b.id));
    let (k, decoded) = decode_object(&a.compressed).unwrap();
    assert_eq!(k, ObjectKind::Commit);
    assert_eq!(String::from_utf8(decoded).unwrap(), expected);
}

#[test]
fn commit_with_parent() {
    let tree = id_of(EMPTY_TREE);
    let parent = id_of(HI);
    let body = String::from_utf8(encode_commit_body(&tree, Some(&parent), b"second")).unwrap();
    assert!(body.starts_with(&format!("tree {}\nparent {}\nauthor ", EMPTY_TREE, HI)));
    assert!(body.ends_with("\n\nsecond\n"));
    let a = build_commit(&tree, None, b"second");
    let b = build_commit(&tree, Some(&parent), b"second");
    assert!(!a.id.same(&b.id));
}

#[test]
fn nested_listings_keep_dot_names() {
    let es = vec![entry(EntryMode::Regular, ".keep", HI), entry(EntryMode::Regular, "a", HI)];
    let sorted = canonical_entries(es, false);
    let names: Vec<Vec<u8>> = sorted.iter().map(|e| e.name.clone()).collect();
    assert_eq!(names, vec![b".keep".to_vec(), b"a".to_vec()]);
    assert!(leaves_out(b".git", true));
    assert!(!leaves_out(b".git", false));
    assert!(!leaves_out(b"src", true));
}

#[test]
fn entries_are_classified_by_kind_and_permissions() {
    assert_eq!(classify_entry(FileKind::File, 0o644), Some(EntryMode::Regular));
    assert_eq!(classify_entry(FileKind::File, 0o755), Some(EntryMode::Executable));
    assert_eq!(classify_entry(FileKind::File, 0o100), Some(EntryMode::Executable));
    assert_eq!(classify_entry(FileKind::Directory, 0o755), Some(EntryMode::Directory));
    assert_eq!(classify_entry(FileKind::Symlink, 0o777), Some(EntryMode::Symlink));
    assert_eq!(classify_entry(FileKind::Other, 0o644), None);
}

#[test]
fn framed_tree_names() {
    let es = vec![entry(EntryMode::Regular, "one", HI), entry(EntryMode::Regular, "two", HI)];
    let body = encode_tree_body(&es);
    let framed = frame_object(ObjectKind::Tree, &body);
    assert_eq!(tree_names(&framed).unwrap(), vec![b"one".to_vec(), b"two".to_vec()]);
    let as_blob = frame_object(ObjectKind::Blob, &body);
    assert_eq!(tree_names(&as_blob), Err(GitError::CorruptObject));
    let bad = frame_object(ObjectKind::Tree, b"100644 x");
    assert_eq!(tree_names(&bad), Err(GitError::CorruptObject));
    assert_eq!(tree_names(b"tree 1\0"), Err(GitError::CorruptObject));
}

#[test]
fn inflate_gives_back_the_frame() {
    let o = encode_object(ObjectKind::Blob, b"hello");
    assert_eq!(inflate(&o.compressed).unwrap(), b"blob 5\0hello".to_vec());
    assert_eq!(inflate(b"\x00\x01\x02"), Err(GitError::CorruptObject));
}

#[test]
fn any_mode_text_is_read() {
    let mut body = b"160000 module\0".to_vec();
    body.extend(id_of(HI).as_bytes());
    let entries = parse_tree_body(&body).unwrap();
    assert_eq!(entries.len(), 1);
    assert_eq!(entries[0].mode, b"160000".to_vec());
    assert_eq!(entries[0].name, b"module".to_vec());
}

#[test]
fn unreadable_names_are_refused() {
    let empty = vec![entry(EntryMode::Regular, "", HI)];
    assert_eq!(build_tree_object(empty, false).err(), Some(GitError::InvalidArguments));
    let nul = vec![entry(EntryMode::Regular, "a\0b", HI)];
    assert_eq!(build_tree_object(nul, false).err(), Some(GitError::InvalidArguments));
}

#[test]
fn root_of_only_dot_names_is_the_empty_tree() {
    let es = vec![entry(EntryMode::Directory, ".git", EMPTY_TREE), entry(EntryMode::Regular, ".env", HI)];
    let o = build_tree_object(es, true).unwrap();
    assert_eq!(hex_text(&o.id), EMPTY_TREE);
}

#[test]
fn garbage_is_no_tree() {
    assert_eq!(list_tree_names(b"not a zlib stream"), Err(GitError::CorruptObject));
}
