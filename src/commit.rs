//! Commit objects: a tree, an optional parent, a fixed identity and a message.

use vstd::prelude::*;
use crate::id::ObjectId;
use crate::hex::hex_of;
use crate::object::{push_all, frame, ObjectKind, GitError};
use crate::codec::{object_id, zlib_of, encode_object, EncodedObject};

verus! {

/// The fixed author and committer: a name, an email, a time and a zone.
pub open spec fn identity() -> Seq<u8> {
    seq![74u8, 111, 104, 110, 32, 68, 111, 101, 32, 60, 106, 111, 104, 110, 64, 101, 120, 97, 109, 112, 108, 101, 46, 99, 111, 109, 62, 32, 49, 50, 51, 52, 53, 54, 55, 56, 57, 48, 32, 43, 48, 48, 48, 48]
}

/// The text of a commit: `tree <hex>`, an optional `parent <hex>`, the
/// author and committer lines, a blank line, then the message, each line
/// ending in a newline.
pub open spec fn commit_body(tree: Seq<u8>, parent: Option<Seq<u8>>, message: Seq<u8>) -> Seq<u8> {
    let tree_line = seq![116u8, 114, 101, 101, 32] + hex_of(tree) + seq![10u8];
    let parent_line = match parent {
        Some(p) => seq![112u8, 97, 114, 101, 110, 116, 32] + hex_of(p) + seq![10u8],
        None => Seq::<u8>::empty(),
    };
    let author = seq![97u8, 117, 116, 104, 111, 114, 32] + identity() + seq![10u8];
    let committer = seq![99u8, 111, 109, 109, 105, 116, 116, 101, 114, 32] + identity() + seq![10u8];
    tree_line + parent_line + author + committer + seq![10u8] + message + seq![10u8]
}

/// The id bytes of an optional parent.
pub open spec fn parent_view(p: Option<&ObjectId>) -> Option<Seq<u8>> {
    match p {
        Some(x) => Some(x@),
        None => None,
    }
}

fn identity_bytes() -> (r: Vec<u8>)
    ensures
        r@ == identity(),
{
    let r = vec![74u8, 111, 104, 110, 32, 68, 111, 101, 32, 60, 106, 111, 104, 110, 64, 101, 120, 97, 109, 112, 108, 101, 46, 99, 111, 109, 62, 32, 49, 50, 51, 52, 53, 54, 55, 56, 57, 48, 32, 43, 48, 48, 48, 48];
    assert(r@ =~= identity());
    r
}

/// The body of a commit of `tree`, with `parent` if there is one.
pub fn encode_commit_body(tree: &ObjectId, parent: Option<&ObjectId>, message: &[u8]) -> (r: Vec<u8>)
    ensures
        r@ == commit_body(tree@, parent_view(parent), message@),
{
    let ident = identity_bytes();
    let mut out: Vec<u8> = vec![116u8, 114, 101, 101, 32];
    let th = tree.to_hex();
    push_all(&mut out, th.as_slice());
    out.push(10u8);
    let ghost head = out@;
    match parent {
        Some(p) => {
            let pre: Vec<u8> = vec![112u8, 97, 114, 101, 110, 116, 32];
            push_all(&mut out, pre.as_slice());
            let ph = p.to_hex();
            push_all(&mut out, ph.as_slice());
            out.push(10u8);
        },
        None => {},
    }
    let ghost with_parent = out@;
    let a: Vec<u8> = vec![97u8, 117, 116, 104, 111, 114, 32];
    push_all(&mut out, a.as_slice());
    push_all(&mut out, ident.as_slice());
    out.push(10u8);
    let c: Vec<u8> = vec![99u8, 111, 109, 109, 105, 116, 116, 101, 114, 32];
    push_all(&mut out, c.as_slice());
    push_all(&mut out, ident.as_slice());
    out.push(10u8);
    out.push(10u8);
    push_all(&mut out, message);
    out.push(10u8);
    proof {
        let parent_line = match parent {
            Some(p) => seq![112u8, 97, 114, 101, 110, 116, 32] + hex_of(p@) + seq![10u8],
            None => Seq::<u8>::empty(),
        };
        assert(head =~= seq![116u8, 114, 101, 101, 32] + hex_of(tree@) + seq![10u8]);
        assert(with_parent =~= head + parent_line);
        assert(out@ =~= commit_body(tree@, parent_view(parent), message@));
    }
    out
}

/// Builds a commit object: its body, framed, hashed and compressed.
pub fn build_commit(tree: &ObjectId, parent: Option<&ObjectId>, message: &[u8]) -> (r: EncodedObject)
    ensures
        r.id@ == object_id(ObjectKind::Commit, commit_body(tree@, parent_view(parent), message@)),
        r.compressed@ == zlib_of(
            frame(ObjectKind::Commit, commit_body(tree@, parent_view(parent), message@)),
        ),
{
    let body = encode_commit_body(tree, parent, message);
    encode_object(ObjectKind::Commit, body.as_slice())
}

/// The flag that introduces a commit message.
pub open spec fn message_flag() -> Seq<u8> {
    seq![45u8, 109]
}

/// The flag that introduces a parent commit.
pub open spec fn parent_flag() -> Seq<u8> {
    seq![45u8, 112]
}

/// Reads commit arguments from position `i` on: `-m <message>` and
/// `-p <parent>` take the word after them, any other word is the tree; a
/// later occurrence replaces an earlier one. A flag with no word after it
/// fails.
pub open spec fn scan_args(
    args: Seq<Seq<u8>>,
    i: int,
    tree: Option<Seq<u8>>,
    message: Option<Seq<u8>>,
    parent: Option<Seq<u8>>,
) -> Option<(Option<Seq<u8>>, Option<Seq<u8>>, Option<Seq<u8>>)>
    decreases args.len() - i,
{
    if i < 0 || i >= args.len() {
        Some((tree, message, parent))
    } else if args[i] == message_flag() || args[i] == parent_flag() {
        if i + 1 >= args.len() {
            None
        } else if args[i] == message_flag() {
            scan_args(args, i + 2, tree, Some(args[i + 1]), parent)
        } else {
            scan_args(args, i + 2, tree, message, Some(args[i + 1]))
        }
    } else {
        scan_args(args, i + 1, Some(args[i]), message, parent)
    }
}

/// What a commit's arguments ask for: the tree's text, the message and the
/// parent's text, when there are three to five words, no flag lacks its word,
/// and both a tree and a message are given.
pub open spec fn commit_request(args: Seq<Seq<u8>>) -> Option<(Seq<u8>, Seq<u8>, Option<Seq<u8>>)> {
    if args.len() < 3 || args.len() > 5 {
        None
    } else {
        match scan_args(args, 0, None, None, None) {
            Some((Some(t), Some(m), p)) => Some((t, m, p)),
            _ => None,
        }
    }
}

/// Whether a text is the hex form of some object id.
pub open spec fn id_text(t: Seq<u8>) -> bool {
    exists|v: Seq<u8>| v.len() == crate::id::ID_LEN && #[trigger] hex_of(v) == t
}

/// The words of an argument list.
pub open spec fn arg_views(args: Seq<Vec<u8>>) -> Seq<Seq<u8>> {
    args.map_values(|a: Vec<u8>| a@)
}

/// A validated request for a commit.
pub struct CommitArgs {
    pub tree: ObjectId,
    pub message: Vec<u8>,
    pub parent: Option<ObjectId>,
}

/// The hex text of an optional id.
pub open spec fn hex_opt(p: Option<ObjectId>) -> Option<Seq<u8>> {
    match p {
        Some(x) => Some(hex_of(x@)),
        None => None,
    }
}

/// The word at an optional position.
pub open spec fn word(args: Seq<Seq<u8>>, k: Option<usize>) -> Option<Seq<u8>> {
    match k {
        Some(j) => Some(args[j as int]),
        None => None,
    }
}

/// Checks a commit's arguments before anything is read or written: the tree
/// and the message are required, the parent is optional, and both ids must be
/// forty lowercase hex characters. Anything else is invalid arguments.
pub fn parse_commit_args(args: &[Vec<u8>]) -> (r: Result<CommitArgs, GitError>)
    ensures
        r is Ok <==> (commit_request(arg_views(args@)) matches Some((t, m, p)) && id_text(t) && (
        p matches Some(q) ==> id_text(q))),
        r matches Ok(c) ==> commit_request(arg_views(args@)) == Some(
            (hex_of(c.tree@), c.message@, hex_opt(c.parent)),
        ),
        r is Err ==> r == Err::<CommitArgs, GitError>(GitError::InvalidArguments),
{
    let ghost a = arg_views(args@);
    let n = args.len();
    if n < 3 || n > 5 {
        return Err(GitError::InvalidArguments);
    }
    let m_flag: Vec<u8> = vec![45u8, 109];
    let p_flag: Vec<u8> = vec![45u8, 112];
    assert(m_flag@ =~= message_flag());
    assert(p_flag@ =~= parent_flag());
    let mut tree: Option<usize> = None;
    let mut message: Option<usize> = None;
    let mut parent: Option<usize> = None;
    let mut i: usize = 0;
    while i < n
        invariant
            n == args@.len(),
            a == arg_views(args@),
            m_flag@ == message_flag(),
            p_flag@ == parent_flag(),
            i <= n,
            tree matches Some(j) ==> j < n,
            message matches Some(j) ==> j < n,
            parent matches Some(j) ==> j < n,
            scan_args(a, 0, None, None, None) == scan_args(
                a,
                i as int,
                word(a, tree),
                word(a, message),
                word(a, parent),
            ),
        decreases n - i,
    {
        assert(a[i as int] == args@[i as int]@);
        let is_m = crate::tree::same_name(args[i].as_slice(), m_flag.as_slice());
        let is_p = crate::tree::same_name(args[i].as_slice(), p_flag.as_slice());
        if is_m || is_p {
            if i + 1 >= n {
                return Err(GitError::InvalidArguments);
            }
            if is_m {
                message = Some(i + 1);
            } else {
                parent = Some(i + 1);
            }
            i += 2;
        } else {
            tree = Some(i);
            i += 1;
        }
    }
    let (t, m) = match (tree, message) {
        (Some(t), Some(m)) => (t, m),
        _ => {
            return Err(GitError::InvalidArguments);
        },
    };
    assert(a[t as int] == args@[t as int]@);
    assert(a[m as int] == args@[m as int]@);
    let tree_id = match ObjectId::from_hex(args[t].as_slice()) {
        Some(id) => id,
        None => {
            return Err(GitError::InvalidArguments);
        },
    };
    let parent_id = match parent {
        Some(p) => {
            assert(a[p as int] == args@[p as int]@);
            match ObjectId::from_hex(args[p].as_slice()) {
                Some(id) => Some(id),
                None => {
                    return Err(GitError::InvalidArguments);
                },
            }
        },
        None => None,
    };
    let msg = args[m].clone();
    Ok(CommitArgs { tree: tree_id, message: msg, parent: parent_id })
}

} // verus!
