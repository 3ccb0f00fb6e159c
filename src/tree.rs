//! Tree objects: entries, their canonical order, and the tree body's bytes.

use vstd::prelude::*;
use crate::id::ObjectId;
use crate::object::{push_all, frame, first_from, ObjectKind, GitError};
use crate::codec::{object_id, zlib_of, inflated, encode_object, EncodedObject};

verus! {

/// The kind of filesystem entry a tree entry stands for.
#[derive(Clone, Copy, Debug, PartialEq, Eq, Structural)]
pub enum EntryMode {
    Regular,
    Executable,
    Directory,
    Symlink,
}

/// The octal mode text of each entry kind.
pub open spec fn mode_token(m: EntryMode) -> Seq<u8> {
    match m {
        EntryMode::Regular => seq![49u8, 48, 48, 54, 52, 52],
        EntryMode::Executable => seq![49u8, 48, 48, 55, 53, 53],
        EntryMode::Directory => seq![52u8, 48, 48, 48, 48],
        EntryMode::Symlink => seq![49u8, 50, 48, 48, 48, 48],
    }
}

/// One child of a tree: its mode, its name and the id of its object.
#[derive(Debug)]
pub struct TreeEntry {
    pub mode: EntryMode,
    pub name: Vec<u8>,
    pub id: ObjectId,
}

/// An entry as a value: mode text, name bytes and id bytes.
pub type EntryView = (Seq<u8>, Seq<u8>, Seq<u8>);

impl View for TreeEntry {
    type V = EntryView;

    open spec fn view(&self) -> EntryView {
        (mode_token(self.mode), self.name@, self.id@)
    }
}

/// An entry as read from a stored tree: the mode stays as the text the tree
/// holds, whatever it is.
#[derive(Debug)]
pub struct ListedEntry {
    pub mode: Vec<u8>,
    pub name: Vec<u8>,
    pub id: ObjectId,
}

impl View for ListedEntry {
    type V = EntryView;

    open spec fn view(&self) -> EntryView {
        (self.mode@, self.name@, self.id@)
    }
}

/// The values of a list of entries read from a tree.
pub open spec fn listed_views(v: Seq<ListedEntry>) -> Seq<EntryView> {
    v.map_values(|e: ListedEntry| e@)
}

/// The values of a list of entries.
pub open spec fn views(v: Seq<TreeEntry>) -> Seq<EntryView> {
    v.map_values(|e: TreeEntry| e@)
}

/// The bytes of one entry: mode, a space, the name, a NUL, the raw id.
pub open spec fn entry_bytes(e: EntryView) -> Seq<u8> {
    e.0 + seq![32u8] + e.1 + seq![0u8] + e.2
}

/// A tree's body: its entries' bytes, one after another, in list order.
pub open spec fn tree_body(s: Seq<EntryView>) -> Seq<u8>
    decreases s.len(),
{
    if s.len() == 0 {
        seq![]
    } else {
        entry_bytes(s[0]) + tree_body(s.drop_first())
    }
}

/// Strict byte-wise lexicographic order on names.
pub open spec fn name_lt(a: Seq<u8>, b: Seq<u8>) -> bool
    decreases a.len(),
{
    if a.len() == 0 {
        b.len() > 0
    } else if b.len() == 0 {
        false
    } else if a[0] != b[0] {
        a[0] < b[0]
    } else {
        name_lt(a.drop_first(), b.drop_first())
    }
}

/// Whether a name begins with `.`.
pub open spec fn hidden_name(name: Seq<u8>) -> bool {
    name.len() > 0 && name[0] == 46u8
}

/// Whether a tree keeps an entry: the root listing leaves out names that
/// begin with `.`; listings below it keep every entry.
pub open spec fn kept(e: EntryView, root: bool) -> bool {
    !(root && hidden_name(e.1))
}

/// Entries in strictly increasing order of name.
pub open spec fn sorted_by_name(s: Seq<EntryView>) -> bool {
    forall|i: int, j: int| 0 <= i < j < s.len() ==> name_lt(s[i].1, s[j].1)
}

/// No two entries share a name.
pub open spec fn names_distinct(s: Seq<EntryView>) -> bool {
    forall|i: int, j: int| 0 <= i < s.len() && 0 <= j < s.len() && i != j ==> s[i].1 != s[j].1
}

/// The entries of a listing that a tree keeps.
pub open spec fn kept_set(a: Seq<EntryView>, root: bool) -> Set<EntryView> {
    Set::new(|e: EntryView| a.contains(e) && kept(e, root))
}

/// A sorted list that holds exactly the entries of `set`.
pub open spec fn lists_sorted(s: Seq<EntryView>, set: Set<EntryView>) -> bool {
    sorted_by_name(s) && forall|e: EntryView| s.contains(e) <==> set.contains(e)
}

/// The canonical entry list of a directory listing: the entries it keeps,
/// in order of name.
pub open spec fn canonical(a: Seq<EntryView>, root: bool) -> Seq<EntryView> {
    choose|s: Seq<EntryView>| lists_sorted(s, kept_set(a, root))
}

pub proof fn lemma_name_lt_irreflexive(a: Seq<u8>)
    ensures
        !name_lt(a, a),
    decreases a.len(),
{
    if a.len() > 0 {
        lemma_name_lt_irreflexive(a.drop_first());
    }
}

pub proof fn lemma_name_lt_transitive(a: Seq<u8>, b: Seq<u8>, c: Seq<u8>)
    requires
        name_lt(a, b),
        name_lt(b, c),
    ensures
        name_lt(a, c),
    decreases a.len(),
{
    if a.len() > 0 && b.len() > 0 && c.len() > 0 && a[0] == b[0] && b[0] == c[0] {
        lemma_name_lt_transitive(a.drop_first(), b.drop_first(), c.drop_first());
    }
}

pub proof fn lemma_name_lt_total(a: Seq<u8>, b: Seq<u8>)
    ensures
        a == b || name_lt(a, b) || name_lt(b, a),
        !(name_lt(a, b) && name_lt(b, a)),
    decreases a.len(),
{
    if a.len() > 0 && b.len() > 0 && a[0] == b[0] {
        lemma_name_lt_total(a.drop_first(), b.drop_first());
        if a.drop_first() == b.drop_first() {
            assert(a =~= seq![a[0]] + a.drop_first());
            assert(b =~= seq![b[0]] + b.drop_first());
        }
    } else if a.len() == 0 && b.len() == 0 {
        assert(a =~= b);
    }
}

/// Two sorted lists with the same entries are the same list.
pub proof fn lemma_sorted_unique(s1: Seq<EntryView>, s2: Seq<EntryView>)
    requires
        sorted_by_name(s1),
        sorted_by_name(s2),
        forall|e: EntryView| s1.contains(e) <==> s2.contains(e),
    ensures
        s1 == s2,
    decreases s1.len(),
{
    if s1.len() == 0 {
        if s2.len() > 0 {
            assert(s2.contains(s2[0]));
        }
        assert(s1 =~= s2);
    } else {
        assert(s1.contains(s1[0]));
        let j = choose|j: int| 0 <= j < s2.len() && s2[j] == s1[0];
        assert(s2.contains(s2[0]));
        let i = choose|i: int| 0 <= i < s1.len() && s1[i] == s2[0];
        if j > 0 {
            // s2[0] < s1[0], yet s1[0] <= s2[0]
            assert(name_lt(s2[0].1, s1[0].1));
            if i > 0 {
                assert(name_lt(s1[0].1, s2[0].1));
                lemma_name_lt_total(s1[0].1, s2[0].1);
            } else {
                lemma_name_lt_irreflexive(s1[0].1);
            }
        }
        assert(s2[0] == s1[0]);
        let t1 = s1.drop_first();
        let t2 = s2.drop_first();
        assert forall|e: EntryView| t1.contains(e) <==> t2.contains(e) by {
            if t1.contains(e) {
                let a = choose|a: int| 0 <= a < t1.len() && t1[a] == e;
                assert(s1.contains(e));
                assert(name_lt(s1[0].1, e.1));
                let b = choose|b: int| 0 <= b < s2.len() && s2[b] == e;
                if b == 0 {
                    lemma_name_lt_irreflexive(e.1);
                }
                assert(t2[b - 1] == e);
            }
            if t2.contains(e) {
                let a = choose|a: int| 0 <= a < t2.len() && t2[a] == e;
                assert(s2.contains(e));
                assert(name_lt(s2[0].1, e.1));
                let b = choose|b: int| 0 <= b < s1.len() && s1[b] == e;
                if b == 0 {
                    lemma_name_lt_irreflexive(e.1);
                }
                assert(t1[b - 1] == e);
            }
        }
        lemma_sorted_unique(t1, t2);
        assert(s1 =~= seq![s1[0]] + t1);
        assert(s2 =~= seq![s2[0]] + t2);
    }
}

/// The order in which a directory is enumerated does not change its tree:
/// two listings with the same entries have the same canonical list, hence the
/// same tree body and the same tree id.
pub proof fn lemma_listing_order_irrelevant(a: Seq<EntryView>, b: Seq<EntryView>, root: bool)
    requires
        forall|e: EntryView| a.contains(e) <==> b.contains(e),
    ensures
        canonical(a, root) == canonical(b, root),
        tree_body(canonical(a, root)) == tree_body(canonical(b, root)),
        object_id(ObjectKind::Tree, tree_body(canonical(a, root))) == object_id(
            ObjectKind::Tree,
            tree_body(canonical(b, root)),
        ),
{
    assert(kept_set(a, root) =~= kept_set(b, root));
}

/// Appending an entry appends its bytes to the body.
pub proof fn lemma_tree_body_push(s: Seq<EntryView>, e: EntryView)
    ensures
        tree_body(s.push(e)) == tree_body(s) + entry_bytes(e),
    decreases s.len(),
{
    if s.len() == 0 {
        assert(s.push(e).drop_first() =~= seq![]);
        assert(tree_body(s.push(e)) =~= entry_bytes(e) + tree_body(seq![]));
    } else {
        assert(s.push(e).drop_first() =~= s.drop_first().push(e));
        lemma_tree_body_push(s.drop_first(), e);
        assert(tree_body(s.push(e)) =~= tree_body(s) + entry_bytes(e));
    }
}

/// The mode text of an entry kind.
pub fn mode_bytes(m: EntryMode) -> (r: Vec<u8>)
    ensures
        r@ == mode_token(m),
{
    let r = match m {
        EntryMode::Regular => vec![49u8, 48, 48, 54, 52, 52],
        EntryMode::Executable => vec![49u8, 48, 48, 55, 53, 53],
        EntryMode::Directory => vec![52u8, 48, 48, 48, 48],
        EntryMode::Symlink => vec![49u8, 50, 48, 48, 48, 48],
    };
    assert(r@ =~= mode_token(m));
    r
}

/// The body of a tree whose entries stand in the given order.
pub fn encode_tree_body(entries: &Vec<TreeEntry>) -> (r: Vec<u8>)
    ensures
        r@ == tree_body(views(entries@)),
{
    let mut out: Vec<u8> = Vec::new();
    let mut i: usize = 0;
    while i < entries.len()
        invariant
            i <= entries@.len(),
            out@ == tree_body(views(entries@).take(i as int)),
        decreases entries@.len() - i,
    {
        let e = &entries[i];
        let ghost prev = out@;
        let m = mode_bytes(e.mode);
        push_all(&mut out, m.as_slice());
        out.push(32u8);
        push_all(&mut out, e.name.as_slice());
        out.push(0u8);
        push_all(&mut out, e.id.as_bytes());
        proof {
            let v = views(entries@);
            assert(v.take(i + 1) =~= v.take(i as int).push(v[i as int]));
            lemma_tree_body_push(v.take(i as int), v[i as int]);
            assert(out@ =~= prev + entry_bytes(v[i as int]));
        }
        i += 1;
    }
    assert(views(entries@).take(entries@.len() as int) =~= views(entries@));
    out
}

/// Byte-wise comparison of two names.
pub fn name_less(a: &[u8], b: &[u8]) -> (r: bool)
    ensures
        r == name_lt(a@, b@),
{
    let mut i: usize = 0;
    assert(a@.skip(0) =~= a@);
    assert(b@.skip(0) =~= b@);
    while i < a.len() && i < b.len() && a[i] == b[i]
        invariant
            i <= a@.len(),
            i <= b@.len(),
            name_lt(a@, b@) == name_lt(a@.skip(i as int), b@.skip(i as int)),
        decreases a@.len() - i,
    {
        assert(a@.skip(i as int).drop_first() =~= a@.skip(i + 1));
        assert(b@.skip(i as int).drop_first() =~= b@.skip(i + 1));
        i += 1;
    }
    if i == a.len() {
        i < b.len()
    } else if i == b.len() {
        false
    } else {
        a[i] < b[i]
    }
}

proof fn lemma_insert_sorted(s: Seq<EntryView>, p: int, x: EntryView)
    requires
        sorted_by_name(s),
        0 <= p <= s.len(),
        forall|q: int| 0 <= q < p ==> name_lt(#[trigger] s[q].1, x.1),
        p < s.len() ==> name_lt(x.1, s[p].1),
    ensures
        sorted_by_name(s.insert(p, x)),
        forall|e: EntryView| #[trigger] s.insert(p, x).contains(e) <==> (s.contains(e) || e == x),
{
    let t = s.insert(p, x);
    assert forall|i: int, j: int| 0 <= i < j < t.len() implies name_lt(t[i].1, t[j].1) by {
        if j == p {
            assert(t[i] == s[i]);
        } else if i == p {
            assert(t[j] == s[j - 1]);
            if j - 1 > p {
                lemma_name_lt_transitive(x.1, s[p].1, s[j - 1].1);
            }
        } else {
            let i2 = if i < p { i } else { i - 1 };
            let j2 = if j < p { j } else { j - 1 };
            assert(t[i] == s[i2]);
            assert(t[j] == s[j2]);
        }
    }
    assert forall|e: EntryView| t.contains(e) <==> (s.contains(e) || e == x) by {
        if t.contains(e) {
            let k = choose|k: int| 0 <= k < t.len() && t[k] == e;
            if k < p {
                assert(s[k] == e);
            } else if k > p {
                assert(s[k - 1] == e);
            }
        }
        if s.contains(e) {
            let k = choose|k: int| 0 <= k < s.len() && s[k] == e;
            if k < p {
                assert(t[k] == e);
            } else {
                assert(t[k + 1] == e);
            }
        }
        if e == x {
            assert(t[p] == x);
        }
    }
}

/// The canonical entry list of a directory listing: in the root listing the
/// entries whose name begins with `.` are dropped; what is kept is sorted by
/// name.
pub fn canonical_entries(entries: Vec<TreeEntry>, root: bool) -> (r: Vec<TreeEntry>)
    requires
        names_distinct(views(entries@)),
    ensures
        lists_sorted(views(r@), kept_set(views(entries@), root)),
        views(r@) == canonical(views(entries@), root),
{
    let ghost orig = views(entries@);
    let ghost n = orig.len();
    let mut rest = entries;
    let mut out: Vec<TreeEntry> = Vec::new();
    while rest.len() > 0
        invariant
            rest@.len() <= n,
            n == orig.len(),
            views(rest@) == orig.take(rest@.len() as int),
            names_distinct(orig),
            sorted_by_name(views(out@)),
            forall|e: EntryView|
                #[trigger] views(out@).contains(e) <==> (orig.subrange(
                    rest@.len() as int,
                    n as int,
                ).contains(e) && kept(e, root)),
        decreases rest@.len(),
    {
        let ghost len = rest@.len() as int;
        let ghost old_rest = rest@;
        let x = match rest.pop() {
            Some(x) => x,
            None => {
                return out;
            },
        };
        let ghost xv = x@;
        proof {
            assert(views(rest@) =~= orig.take(len - 1));
            assert(views(old_rest)[len - 1] == old_rest[len - 1]@);
            assert(xv == orig[len - 1]);
        }
        let hidden = leaves_out(x.name.as_slice(), root);
        let ghost before = views(out@);
        if !hidden {
            let mut p: usize = 0;
            let mut done = false;
            while !done && p < out.len()
                invariant
                    p <= out@.len(),
                    xv == x@,
                    views(out@) == before,
                    forall|q: int| 0 <= q < p ==> name_lt(#[trigger] before[q].1, xv.1),
                    done ==> p < out@.len() && !name_lt(before[p as int].1, xv.1),
                decreases out@.len() - p + (if done { 0int } else { 1int }),
            {
                assert(before[p as int] == out@[p as int]@);
                if name_less(out[p].name.as_slice(), x.name.as_slice()) {
                    p += 1;
                } else {
                    done = true;
                }
            }
            proof {
                if p < out@.len() {
                    assert(before[p as int] == out@[p as int]@);
                    assert(before.contains(before[p as int]));
                    assert(views(out@).contains(before[p as int]));
                    assert(orig.subrange(len, n as int).contains(before[p as int]));
                    let k2 = choose|k2: int|
                        0 <= k2 < orig.subrange(len, n as int).len() && orig.subrange(
                            len,
                            n as int,
                        )[k2] == before[p as int];
                    assert(orig[len + k2] == before[p as int]);
                    assert(orig[len - 1].1 != orig[len + k2].1);
                    lemma_name_lt_total(xv.1, before[p as int].1);
                }
                lemma_insert_sorted(before, p as int, xv);
            }
            out.insert(p, x);
            proof {
                assert(views(out@) =~= before.insert(p as int, xv));
            }
        }
        proof {
            assert forall|e: EntryView|
                #[trigger] views(out@).contains(e) <==> (orig.subrange(len - 1, n as int).contains(e)
                    && kept(e, root)) by {
                assert(before.contains(e) <==> (orig.subrange(len, n as int).contains(e)
                    && kept(e, root)));
                if !hidden {
                    assert(views(out@).contains(e) <==> (before.contains(e) || e == xv));
                } else {
                    assert(!kept(xv, root));
                }
                let big = orig.subrange(len - 1, n as int);
                let small = orig.subrange(len, n as int);
                if big.contains(e) {
                    let k = choose|k: int| 0 <= k < big.len() && big[k] == e;
                    if k > 0 {
                        assert(small[k - 1] == e);
                    }
                }
                if small.contains(e) {
                    let k = choose|k: int| 0 <= k < small.len() && small[k] == e;
                    assert(big[k + 1] == e);
                }
                assert(big[0] == xv);
            }
        }
    }
    proof {
        assert(orig.subrange(0, n as int) =~= orig);
        let s = views(out@);
        assert forall|e: EntryView| s.contains(e) <==> kept_set(orig, root).contains(e) by {
            assert(orig.subrange(0, n as int) == orig);
            assert(views(out@).contains(e) <==> (orig.contains(e) && kept(e, root)));
        }
        assert(lists_sorted(s, kept_set(orig, root)));
        let c = canonical(orig, root);
        lemma_sorted_unique(s, c);
    }
    out
}

/// Whether two names are the same bytes.
pub fn same_name(a: &[u8], b: &[u8]) -> (r: bool)
    ensures
        r == (a@ == b@),
{
    if a.len() != b.len() {
        return false;
    }
    let r = crate::object::bytes_at(a, 0, b);
    assert(a@.subrange(0, b@.len() as int) =~= a@);
    r
}

/// Whether no two entries share a name.
pub fn has_distinct_names(entries: &Vec<TreeEntry>) -> (r: bool)
    ensures
        r == names_distinct(views(entries@)),
{
    let ghost v = views(entries@);
    let mut i: usize = 0;
    while i < entries.len()
        invariant
            v == views(entries@),
            i <= entries@.len(),
            forall|a: int, b: int| 0 <= a < i && 0 <= b < entries@.len() && a != b ==> v[a].1 != v[b].1,
        decreases entries@.len() - i,
    {
        let mut j: usize = 0;
        while j < entries.len()
            invariant
                v == views(entries@),
                i < entries@.len(),
                j <= entries@.len(),
                forall|a: int, b: int| 0 <= a < i && 0 <= b < entries@.len() && a != b ==> v[a].1 != v[b].1,
                forall|b: int| 0 <= b < j && b != i ==> v[i as int].1 != v[b].1,
            decreases entries@.len() - j,
        {
            assert(v[i as int] == entries@[i as int]@);
            assert(v[j as int] == entries@[j as int]@);
            if j != i && same_name(entries[i].name.as_slice(), entries[j].name.as_slice()) {
                return false;
            }
            j += 1;
        }
        i += 1;
    }
    true
}

/// A name a tree can hold: not empty, and without NUL bytes.
pub open spec fn name_ok(n: Seq<u8>) -> bool {
    n.len() > 0 && forall|i: int| 0 <= i < n.len() ==> n[i] != 0u8
}

/// A listing a tree can be built from: every name is one a tree can hold,
/// and no two entries share a name.
pub open spec fn listing_ok(s: Seq<EntryView>) -> bool {
    names_distinct(s) && forall|i: int| 0 <= i < s.len() ==> name_ok(#[trigger] s[i].1)
}

/// Whether a name is not empty and holds no NUL byte.
pub fn valid_name(n: &[u8]) -> (r: bool)
    ensures
        r == name_ok(n@),
{
    if n.len() == 0 {
        return false;
    }
    let mut i: usize = 0;
    while i < n.len()
        invariant
            n@.len() > 0,
            i <= n@.len(),
            forall|k: int| 0 <= k < i ==> n@[k] != 0u8,
        decreases n@.len() - i,
    {
        if n[i] == 0u8 {
            return false;
        }
        i += 1;
    }
    true
}

/// Whether every name of a listing is one a tree can hold, and no two
/// entries share a name.
pub fn valid_listing(entries: &Vec<TreeEntry>) -> (r: bool)
    ensures
        r == listing_ok(views(entries@)),
{
    let mut i: usize = 0;
    while i < entries.len()
        invariant
            i <= entries@.len(),
            forall|k: int| 0 <= k < i ==> name_ok(#[trigger] views(entries@)[k].1),
        decreases entries@.len() - i,
    {
        assert(views(entries@)[i as int] == entries@[i as int]@);
        if !valid_name(entries[i].name.as_slice()) {
            assert(!name_ok(views(entries@)[i as int].1));
            return false;
        }
        i += 1;
    }
    has_distinct_names(entries)
}

/// Builds the tree object of a directory listing: its canonical entry list
/// (see `canonical_entries`) is encoded, framed, hashed and compressed. A
/// listing with an empty name, a name holding a NUL byte, or a repeated name
/// is refused.
pub fn build_tree_object(entries: Vec<TreeEntry>, root: bool) -> (r: Result<EncodedObject, GitError>)
    ensures
        r is Ok <==> listing_ok(views(entries@)),
        r matches Ok(o) ==> o.id@ == object_id(
            ObjectKind::Tree,
            tree_body(canonical(views(entries@), root)),
        ) && o.compressed@ == zlib_of(
            frame(ObjectKind::Tree, tree_body(canonical(views(entries@), root))),
        ),
        r is Err ==> r == Err::<EncodedObject, GitError>(GitError::InvalidArguments),
{
    if !valid_listing(&entries) {
        return Err(GitError::InvalidArguments);
    }
    let sorted = canonical_entries(entries, root);
    let body = encode_tree_body(&sorted);
    Ok(encode_object(ObjectKind::Tree, body.as_slice()))
}

/// Reads a tree body entry by entry: a mode up to the first space, a name up
/// to the next NUL, then twenty id bytes, until the body is used up.
pub open spec fn parse_entries(s: Seq<u8>) -> Option<Seq<EntryView>>
    decreases s.len(),
{
    if s.len() == 0 {
        Some(seq![])
    } else {
        let sp = first_from(s, 32u8, 0);
        let z = first_from(s, 0u8, sp + 1);
        if !(0 <= sp < z && z + 21 <= s.len()) {
            None
        } else {
            match parse_entries(s.subrange(z + 21, s.len() as int)) {
                None => None,
                Some(rest) => Some(
                    seq![(s.subrange(0, sp), s.subrange(sp + 1, z), s.subrange(z + 1, z + 21))]
                        + rest,
                ),
            }
        }
    }
}

/// An entry that a tree body can hold: a mode text without spaces, a name
/// without NUL bytes and a twenty-byte id.
pub open spec fn entry_wf(e: EntryView) -> bool {
    &&& e.2.len() == crate::id::ID_LEN
    &&& forall|i: int| 0 <= i < e.0.len() ==> e.0[i] != 32u8
    &&& forall|i: int| 0 <= i < e.1.len() ==> e.1[i] != 0u8
}

proof fn lemma_first_from_shift(s: Seq<u8>, pos: int, c: u8, i: int)
    requires
        0 <= pos <= s.len(),
        0 <= i,
    ensures
        first_from(s.subrange(pos, s.len() as int), c, i) == first_from(s, c, pos + i) - pos,
    decreases s.len() - pos - i,
{
    let t = s.subrange(pos, s.len() as int);
    if i < t.len() && t[i] != c {
        lemma_first_from_shift(s, pos, c, i + 1);
    }
}

/// What a parse of `s` gives once `done` has been read before it.
pub open spec fn after(done: Seq<EntryView>, s: Option<Seq<EntryView>>) -> Option<Seq<EntryView>> {
    match s {
        Some(t) => Some(done + t),
        None => None,
    }
}

/// Splits a tree body into its entries; a body that does not parse as
/// entries to its last byte is a corrupt object.
pub fn parse_tree_body(body: &[u8]) -> (r: Result<Vec<ListedEntry>, GitError>)
    ensures
        r is Ok <==> parse_entries(body@) is Some,
        r matches Ok(v) ==> parse_entries(body@) == Some(listed_views(v@)),
        r is Err ==> r == Err::<Vec<ListedEntry>, GitError>(GitError::CorruptObject),
{
    let n = body.len();
    let mut pos: usize = 0;
    let mut out: Vec<ListedEntry> = Vec::new();
    assert(body@.subrange(0, n as int) =~= body@);
    assert(listed_views(out@) =~= seq![]);
    proof {
        match parse_entries(body@) {
            Some(t) => {
                assert(seq![] + t =~= t);
            },
            None => {},
        }
    }
    while pos < n
        invariant
            n == body@.len(),
            pos <= n,
            parse_entries(body@) == after(
                listed_views(out@),
                parse_entries(body@.subrange(pos as int, n as int)),
            ),
        decreases n - pos,
    {
        let ghost rest = body@.subrange(pos as int, n as int);
        let sp = crate::object::find_byte(body, 32u8, pos);
        proof {
            lemma_first_from_shift(body@, pos as int, 32u8, 0);
            crate::object::lemma_first_from_bounds(body@, 32u8, pos as int);
        }
        if sp == n {
            return Err(GitError::CorruptObject);
        }
        let z = crate::object::find_byte(body, 0u8, sp + 1);
        proof {
            lemma_first_from_shift(body@, pos as int, 0u8, sp + 1 - pos);
            crate::object::lemma_first_from_bounds(body@, 0u8, sp + 1);
        }
        if z >= n || n - z < 21 {
            return Err(GitError::CorruptObject);
        }
        let mode = crate::object::copy_range(body, pos, sp);
        let name = crate::object::copy_range(body, sp + 1, z);
        let idb = crate::object::copy_range(body, z + 1, z + 21);
        let id = ObjectId::from_digest(idb);
        let e = ListedEntry { mode, name, id };
        let ghost prev = listed_views(out@);
        proof {
            let rsp = sp - pos;
            let rz = z - pos;
            assert(rest.subrange(0, rsp) =~= body@.subrange(pos as int, sp as int));
            assert(rest.subrange(rsp + 1, rz) =~= body@.subrange(sp + 1, z as int));
            assert(rest.subrange(rz + 1, rz + 21) =~= body@.subrange(z + 1, z + 21));
            assert(rest.subrange(rz + 21, rest.len() as int) =~= body@.subrange(z + 21, n as int));
        }
        out.push(e);
        proof {
            assert(listed_views(out@) =~= prev.push(e@));
            match parse_entries(body@.subrange(z + 21, n as int)) {
                Some(t) => {
                    assert(prev + (seq![e@] + t) =~= listed_views(out@) + t);
                },
                None => {},
            }
        }
        pos = z + 21;
    }
    proof {
        assert(body@.subrange(n as int, n as int) =~= seq![]);
        assert(listed_views(out@) + seq![] =~= listed_views(out@));
    }
    Ok(out)
}

/// A body read back as entries encodes to the same bytes, so a tree that is
/// decoded and encoded again keeps its bytes and its id; every entry read
/// has a NUL-free name and a twenty-byte id.
pub proof fn lemma_tree_reencode(b: Seq<u8>)
    requires
        parse_entries(b) is Some,
    ensures
        tree_body(parse_entries(b)->0) == b,
        object_id(ObjectKind::Tree, tree_body(parse_entries(b)->0)) == object_id(ObjectKind::Tree, b),
        forall|i: int| 0 <= i < parse_entries(b)->0.len() ==> entry_wf(#[trigger] parse_entries(b)->0[i]),
    decreases b.len(),
{
    if b.len() > 0 {
        let sp = first_from(b, 32u8, 0);
        let z = first_from(b, 0u8, sp + 1);
        crate::object::lemma_first_from_bounds(b, 32u8, 0);
        crate::object::lemma_first_from_bounds(b, 0u8, sp + 1);
        assert(b[sp] == 32u8);
        assert(b[z] == 0u8);
        let tail = b.subrange(z + 21, b.len() as int);
        lemma_tree_reencode(tail);
        let e = (b.subrange(0, sp), b.subrange(sp + 1, z), b.subrange(z + 1, z + 21));
        let rest = parse_entries(tail)->0;
        let s = parse_entries(b)->0;
        assert(s == seq![e] + rest);
        assert(s.drop_first() =~= rest);
        assert(entry_bytes(e) + tail =~= b);
        assert forall|i: int| 0 <= i < s.len() implies entry_wf(#[trigger] s[i]) by {
            if i > 0 {
                assert(s[i] == rest[i - 1]);
            }
        }
    }
}

/// Decoding the body of a list of well-formed entries gives the list back.
pub proof fn lemma_tree_round_trip(s: Seq<EntryView>)
    requires
        forall|i: int| 0 <= i < s.len() ==> entry_wf(#[trigger] s[i]),
    ensures
        parse_entries(tree_body(s)) == Some(s),
    decreases s.len(),
{
    if s.len() > 0 {
        let e = s[0];
        let b = tree_body(s);
        let tok = e.0;
        let t = tok.len() as int;
        let nl = e.1.len() as int;
        let tail = tree_body(s.drop_first());
        assert forall|i: int| 0 <= i < s.drop_first().len() implies entry_wf(
            #[trigger] s.drop_first()[i],
        ) by {
            assert(s.drop_first()[i] == s[i + 1]);
        }
        lemma_tree_round_trip(s.drop_first());
        assert(entry_wf(s[0]));
        assert(b == entry_bytes(e) + tail);
        assert forall|i: int| 0 <= i < t implies b[i] != 32u8 by {
            assert(b[i] == tok[i]);
        }
        crate::object::lemma_first_from(b, 32u8, 0, t);
        assert forall|i: int| t + 1 <= i < t + 1 + nl implies b[i] != 0u8 by {
            assert(b[i] == e.1[i - t - 1]);
        }
        crate::object::lemma_first_from(b, 0u8, t + 1, t + 1 + nl);
        let z = t + 1 + nl;
        assert(b.subrange(0, t) =~= tok);
        assert(b.subrange(t + 1, z) =~= e.1);
        assert(b.subrange(z + 1, z + 21) =~= e.2);
        assert(b.subrange(z + 21, b.len() as int) =~= tail);
        assert(seq![e] + s.drop_first() =~= s);
    }
}

/// The names of a list of entries, in order.
pub open spec fn entry_names(s: Seq<EntryView>) -> Seq<Seq<u8>> {
    s.map_values(|e: EntryView| e.1)
}

/// The names held by a list of byte strings.
pub open spec fn name_views(v: Seq<Vec<u8>>) -> Seq<Seq<u8>> {
    v.map_values(|n: Vec<u8>| n@)
}

/// The entry names of a framed tree, in the order the tree holds them. Bytes
/// that are not a tree whose body reads as entries are a corrupt object.
pub fn tree_names(framed: &[u8]) -> (r: Result<Vec<Vec<u8>>, GitError>)
    ensures
        r is Ok <==> exists|b: Seq<u8>|
            framed@ == #[trigger] frame(ObjectKind::Tree, b) && parse_entries(b) is Some,
        r matches Ok(v) ==> forall|b: Seq<u8>|
            framed@ == #[trigger] frame(ObjectKind::Tree, b) ==> name_views(v@) == entry_names(
                parse_entries(b)->0,
            ),
        r is Err ==> r == Err::<Vec<Vec<u8>>, GitError>(GitError::CorruptObject),
{
    let (kind, body) = match crate::object::decode_frame(framed) {
        Ok(x) => x,
        Err(e) => {
            proof {
                assert forall|b: Seq<u8>| framed@ == #[trigger] frame(ObjectKind::Tree, b) implies false by {
                    assert(crate::object::is_frame(framed@));
                }
            }
            return Err(e);
        },
    };
    if kind != ObjectKind::Tree {
        proof {
            assert forall|b: Seq<u8>| framed@ == #[trigger] frame(ObjectKind::Tree, b) implies false by {
                crate::object::lemma_frame_injective(kind, body@, ObjectKind::Tree, b);
            }
        }
        return Err(GitError::CorruptObject);
    }
    let entries = match parse_tree_body(body.as_slice()) {
        Ok(v) => v,
        Err(e) => {
            proof {
                assert forall|b: Seq<u8>| framed@ == #[trigger] frame(ObjectKind::Tree, b) implies parse_entries(b) is None by {
                    crate::object::lemma_frame_injective(kind, body@, ObjectKind::Tree, b);
                }
            }
            return Err(e);
        },
    };
    let mut names: Vec<Vec<u8>> = Vec::new();
    let mut i: usize = 0;
    while i < entries.len()
        invariant
            i <= entries@.len(),
            name_views(names@) == entry_names(listed_views(entries@)).take(i as int),
        decreases entries@.len() - i,
    {
        let n = entries[i].name.clone();
        let ghost prev = names@;
        names.push(n);
        proof {
            assert(name_views(names@) =~= name_views(prev).push(entries@[i as int].name@));
            assert(entry_names(listed_views(entries@)).take(i + 1) =~= entry_names(listed_views(entries@)).take(
                i as int,
            ).push(entries@[i as int].name@));
        }
        i += 1;
    }
    proof {
        assert(entry_names(listed_views(entries@)).take(entries@.len() as int) =~= entry_names(
            listed_views(entries@),
        ));
        assert forall|b: Seq<u8>| framed@ == #[trigger] frame(ObjectKind::Tree, b) implies name_views(names@)
            == entry_names(parse_entries(b)->0) by {
            crate::object::lemma_frame_injective(kind, body@, ObjectKind::Tree, b);
        }
        assert(framed@ == frame(ObjectKind::Tree, body@));
    }
    Ok(names)
}

/// The entry names of a stored tree, in the order the tree holds them.
/// Stored bytes that are not a compressed tree whose body reads as entries
/// are a corrupt object; a stored tree of well-formed entries lists their
/// names.
pub fn list_tree_names(compressed: &[u8]) -> (r: Result<Vec<Vec<u8>>, GitError>)
    ensures
        r is Ok <==> (inflated(compressed@) matches Some(f) && exists|b: Seq<u8>|
            f == #[trigger] frame(ObjectKind::Tree, b) && parse_entries(b) is Some),
        r matches Ok(v) ==> forall|b: Seq<u8>|
            inflated(compressed@) == Some(#[trigger] frame(ObjectKind::Tree, b)) ==> name_views(v@)
                == entry_names(parse_entries(b)->0),
        forall|s: Seq<EntryView>|
            (forall|i: int| 0 <= i < s.len() ==> entry_wf(#[trigger] s[i])) && compressed@
                == #[trigger] zlib_of(frame(ObjectKind::Tree, tree_body(s))) ==> (r matches Ok(v)
                && name_views(v@) == entry_names(s)),
        r is Err ==> r == Err::<Vec<Vec<u8>>, GitError>(GitError::CorruptObject),
{
    let framed = match crate::codec::inflate(compressed) {
        Ok(f) => f,
        Err(e) => {
            return Err(e);
        },
    };
    let r = tree_names(framed.as_slice());
    proof {
        assert forall|s: Seq<EntryView>|
            (forall|i: int| 0 <= i < s.len() ==> entry_wf(#[trigger] s[i])) && compressed@
                == #[trigger] zlib_of(frame(ObjectKind::Tree, tree_body(s))) implies (r matches Ok(v)
                && name_views(v@) == entry_names(s)) by {
            lemma_tree_round_trip(s);
            assert(framed@ == frame(ObjectKind::Tree, tree_body(s)));
        }
    }
    r
}

/// What a directory walk finds at a name.
#[derive(Clone, Copy, Debug, PartialEq, Eq, Structural)]
pub enum FileKind {
    File,
    Directory,
    Symlink,
    Other,
}

/// The mode a tree gives a filesystem entry: directories are subtrees, links
/// are symlinks, files with any execute bit are executable, other files are
/// regular; any other kind of entry has no mode.
pub open spec fn mode_for(kind: FileKind, permissions: u32) -> Option<EntryMode> {
    match kind {
        FileKind::Directory => Some(EntryMode::Directory),
        FileKind::Symlink => Some(EntryMode::Symlink),
        FileKind::File => if permissions & 0o111u32 != 0 {
            Some(EntryMode::Executable)
        } else {
            Some(EntryMode::Regular)
        },
        FileKind::Other => None,
    }
}

/// The tree mode of a filesystem entry of the given kind and permission bits.
pub fn classify_entry(kind: FileKind, permissions: u32) -> (r: Option<EntryMode>)
    ensures
        r == mode_for(kind, permissions),
{
    match kind {
        FileKind::Directory => Some(EntryMode::Directory),
        FileKind::Symlink => Some(EntryMode::Symlink),
        FileKind::File => if permissions & 0o111u32 != 0 {
            Some(EntryMode::Executable)
        } else {
            Some(EntryMode::Regular)
        },
        FileKind::Other => None,
    }
}

/// Whether a listing's tree leaves out an entry of this name: only the root
/// listing does so, and only for names that begin with `.`.
pub fn leaves_out(name: &[u8], root: bool) -> (r: bool)
    ensures
        r == (root && hidden_name(name@)),
{
    root && name.len() > 0 && name[0] == 46u8
}

} // verus!
