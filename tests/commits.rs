use my_git::commit::parse_commit_args;
use my_git::object::GitError;

const TREE: &str = "4b825dc642cb6eb9a060e54bf8d69288fbee4904";
const PARENT: &str = "45b983be36b73c0788dc9cbcb76cbb80fc7bb057";

fn words(ws: &[&str]) -> Vec<Vec<u8>> {
    ws.iter().map(|w| w.as_bytes().to_vec()).collect()
}

fn hex(id: &my_git::id::ObjectId) -> String {
    String::from_utf8(id.to_hex()).unwrap()
}

#[test]
fn commit_args_tree_and_message() {
    let c = parse_commit_args(&words(&[TREE, "-m", "initial"])).unwrap();
    assert_eq!(hex(&c.tree), TREE);
    assert_eq!(c.message, b"initial".to_vec());
    assert!(c.parent.is_none());
}

#[test]
fn commit_args_in_any_order_with_parent() {
    let c = parse_commit_args(&words(&["-p", PARENT, "-m", "next", TREE])).unwrap();
    assert_eq!(hex(&c.tree), TREE);
    assert_eq!(c.message, b"next".to_vec());
    assert_eq!(hex(c.parent.as_ref().unwrap()), PARENT);
}

#[test]
fn commit_args_errors() {
    let bad = GitError::InvalidArguments;
    assert_eq!(parse_commit_args(&words(&[TREE, "-m"])).err(), Some(bad));
    assert_eq!(parse_commit_args(&words(&[TREE, "x", "-m"])).err(), Some(bad));
    assert_eq!(parse_commit_args(&words(&[TREE, "-p", PARENT])).err(), Some(bad));
    assert_eq!(parse_commit_args(&words(&["-m", "a", "-p", PARENT])).err(), Some(bad));
    assert_eq!(parse_commit_args(&words(&["nothex", "-m", "a"])).err(), Some(bad));
    assert_eq!(parse_commit_args(&words(&[TREE, "-m", "a", "-p", "abc"])).err(), Some(bad));
    assert_eq!(parse_commit_args(&words(&[TREE, "-m", "a", "-p", PARENT, "x"])).err(), Some(bad));
}
