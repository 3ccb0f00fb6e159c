//! Object kinds, the `"<kind> <length>\0<body>"` framing, and its decoding.

use vstd::prelude::*;

verus! {

/// The three kinds of stored object.
#[derive(Clone, Copy, Debug, PartialEq, Eq, Structural)]
pub enum ObjectKind {
    Blob,
    Tree,
    Commit,
}

/// What can go wrong in the store and its codec.
#[derive(Clone, Copy, Debug, PartialEq, Eq, Structural)]
pub enum GitError {
    InvalidArguments,
    ObjectNotFound,
    CorruptObject,
    IoFailure,
    CompressionFailure,
}

/// The ASCII name of a kind, as it stands in a frame's header.
pub open spec fn kind_name(k: ObjectKind) -> Seq<u8> {
    match k {
        ObjectKind::Blob => seq![98u8, 108, 111, 98],
        ObjectKind::Tree => seq![116u8, 114, 101, 101],
        ObjectKind::Commit => seq![99u8, 111, 109, 109, 105, 116],
    }
}

/// The decimal rendering of a number, without leading zeros.
pub open spec fn decimal(n: nat) -> Seq<u8>
    decreases n,
{
    if n < 10 {
        seq![(48 + n) as u8]
    } else {
        decimal(n / 10) + seq![(48 + n % 10) as u8]
    }
}

/// The framed form of an object: kind name, a space, the body's length in
/// decimal, a NUL byte, then the body itself.
pub open spec fn frame(k: ObjectKind, body: Seq<u8>) -> Seq<u8> {
    kind_name(k) + seq![32u8] + decimal(body.len()) + seq![0u8] + body
}

/// Whether some object frames to exactly these bytes.
pub open spec fn is_frame(s: Seq<u8>) -> bool {
    exists|k: ObjectKind, b: Seq<u8>| s == #[trigger] frame(k, b)
}

/// The digits of a decimal rendering are ASCII `0`-`9`.
pub proof fn lemma_decimal_digits(n: nat)
    ensures
        decimal(n).len() >= 1,
        forall|i: int| 0 <= i < decimal(n).len() ==> 48 <= #[trigger] decimal(n)[i] <= 57,
    decreases n,
{
    if n >= 10 {
        lemma_decimal_digits(n / 10);
    }
}

/// A frame is decoded back into the kind and body that made it: no two
/// objects share a frame.
pub proof fn lemma_frame_injective(k1: ObjectKind, b1: Seq<u8>, k2: ObjectKind, b2: Seq<u8>)
    requires
        frame(k1, b1) == frame(k2, b2),
    ensures
        k1 == k2,
        b1 == b2,
{
    let f = frame(k1, b1);
    lemma_decimal_digits(b1.len());
    lemma_decimal_digits(b2.len());
    let n1 = kind_name(k1).len() as int;
    let n2 = kind_name(k2).len() as int;
    // the first space ends the kind name
    assert(f[n1] == 32u8);
    assert(frame(k2, b2)[n2] == 32u8);
    if k1 != k2 {
        assert(f[0] == kind_name(k1)[0]);
        assert(frame(k2, b2)[0] == kind_name(k2)[0]);
        if n1 < n2 {
            assert(frame(k2, b2)[n1] == kind_name(k2)[n1]);
        } else if n2 < n1 {
            assert(f[n2] == kind_name(k1)[n2]);
        } else {
            assert(f[1] == kind_name(k1)[1]);
            assert(frame(k2, b2)[1] == kind_name(k2)[1]);
        }
    }
    let d1 = decimal(b1.len());
    let d2 = decimal(b2.len());
    let l1 = d1.len() as int;
    let l2 = d2.len() as int;
    // the first NUL ends the length digits
    assert(f[n1 + 1 + l1] == 0u8);
    assert(frame(k2, b2)[n1 + 1 + l2] == 0u8);
    if l1 < l2 {
        assert(frame(k2, b2)[n1 + 1 + l1] == d2[l1]);
    } else if l2 < l1 {
        assert(f[n1 + 1 + l2] == d1[l2]);
    }
    assert(l1 == l2);
    assert(f.len() == n1 + 1 + l1 + 1 + b1.len());
    assert(frame(k2, b2).len() == n2 + 1 + l2 + 1 + b2.len());
    assert(b1.len() == b2.len());
    assert(b1 =~= f.subrange(f.len() - b1.len(), f.len() as int));
    assert(b2 =~= frame(k2, b2).subrange(f.len() - b2.len(), f.len() as int));
}

/// Appends the decimal rendering of `n`.
pub fn push_decimal(out: &mut Vec<u8>, n: usize)
    ensures
        final(out)@ == old(out)@ + decimal(n as nat),
    decreases n,
{
    if n >= 10 {
        push_decimal(out, n / 10);
    }
    out.push(48 + (n % 10) as u8);
    assert(final(out)@ =~= old(out)@ + decimal(n as nat));
}

pub fn push_all(out: &mut Vec<u8>, s: &[u8])
    ensures
        final(out)@ == old(out)@ + s@,
{
    let mut i: usize = 0;
    while i < s.len()
        invariant
            i <= s@.len(),
            out@ == old(out)@ + s@.subrange(0, i as int),
        decreases s@.len() - i,
    {
        out.push(s[i]);
        i += 1;
        assert(out@ =~= old(out)@ + s@.subrange(0, i as int));
    }
    assert(s@.subrange(0, s@.len() as int) =~= s@);
}

/// The kind's name as bytes.
pub fn kind_bytes(k: ObjectKind) -> (r: Vec<u8>)
    ensures
        r@ == kind_name(k),
{
    let r = match k {
        ObjectKind::Blob => vec![98u8, 108, 111, 98],
        ObjectKind::Tree => vec![116u8, 114, 101, 101],
        ObjectKind::Commit => vec![99u8, 111, 109, 109, 105, 116],
    };
    assert(r@ =~= kind_name(k));
    r
}

/// Frames a body under its kind's header.
pub fn frame_object(k: ObjectKind, body: &[u8]) -> (r: Vec<u8>)
    ensures
        r@ == frame(k, body@),
{
    let mut out = kind_bytes(k);
    out.push(32u8);
    push_decimal(&mut out, body.len());
    out.push(0u8);
    push_all(&mut out, body);
    assert(out@ =~= frame(k, body@));
    out
}

/// The first index at or after `i` that holds `c`, or the length if none does.
pub open spec fn first_from(s: Seq<u8>, c: u8, i: int) -> int
    decreases s.len() - i,
{
    if i < 0 || i >= s.len() {
        s.len() as int
    } else if s[i] == c {
        i
    } else {
        first_from(s, c, i + 1)
    }
}

/// Where `c` first occurs from `i` on, in terms of what lies between.
pub proof fn lemma_first_from(s: Seq<u8>, c: u8, i: int, j: int)
    requires
        0 <= i <= j <= s.len(),
        forall|k: int| i <= k < j ==> s[k] != c,
        j == s.len() || s[j] == c,
    ensures
        first_from(s, c, i) == j,
    decreases j - i,
{
    if i < j {
        lemma_first_from(s, c, i + 1, j);
    }
}

pub proof fn lemma_first_from_bounds(s: Seq<u8>, c: u8, i: int)
    requires
        0 <= i <= s.len(),
    ensures
        i <= first_from(s, c, i) <= s.len(),
        first_from(s, c, i) < s.len() ==> s[first_from(s, c, i)] == c,
        forall|k: int| i <= k < first_from(s, c, i) ==> s[k] != c,
    decreases s.len() - i,
{
    if i < s.len() && s[i] != c {
        lemma_first_from_bounds(s, c, i + 1);
    }
}

/// The first index at or after `i` that holds `c`, or the length.
pub fn find_byte(s: &[u8], c: u8, i: usize) -> (r: usize)
    requires
        i <= s@.len(),
    ensures
        r == first_from(s@, c, i as int),
{
    let mut j = i;
    while j < s.len() && s[j] != c
        invariant
            i <= j <= s@.len(),
            forall|k: int| i <= k < j ==> s@[k] != c,
        decreases s@.len() - j,
    {
        j += 1;
    }
    proof {
        lemma_first_from(s@, c, i as int, j as int);
    }
    j
}

/// Whether `s[from..from + t.len()]` equals `t`.
pub fn bytes_at(s: &[u8], from: usize, t: &[u8]) -> (r: bool)
    requires
        from <= s@.len(),
    ensures
        r == (from + t@.len() <= s@.len() && s@.subrange(from as int, from + t@.len()) == t@),
{
    let n = s.len();
    if t.len() > n - from {
        return false;
    }
    let mut k: usize = 0;
    while k < t.len()
        invariant
            k <= t@.len(),
            n == s@.len(),
            from + t@.len() <= n,
            forall|m: int| 0 <= m < k ==> s@[from + m] == t@[m],
        decreases t@.len() - k,
    {
        if s[from + k] != t[k] {
            assert(s@.subrange(from as int, from + t@.len())[k as int] != t@[k as int]);
            return false;
        }
        k += 1;
    }
    assert(s@.subrange(from as int, from + t@.len()) =~= t@);
    true
}

/// Copies `s[from..to]`.
pub fn copy_range(s: &[u8], from: usize, to: usize) -> (r: Vec<u8>)
    requires
        from <= to <= s@.len(),
    ensures
        r@ == s@.subrange(from as int, to as int),
{
    let mut out: Vec<u8> = Vec::new();
    let mut k = from;
    while k < to
        invariant
            from <= k <= to,
            to <= s@.len(),
            out@ == s@.subrange(from as int, k as int),
        decreases to - k,
    {
        out.push(s[k]);
        k += 1;
        assert(out@ =~= s@.subrange(from as int, k as int));
    }
    out
}

/// Splits a framed object into its kind and body. The header must name one of
/// the three kinds and give the body's exact length in canonical decimal;
/// anything else is a corrupt object.
pub fn decode_frame(framed: &[u8]) -> (r: Result<(ObjectKind, Vec<u8>), GitError>)
    ensures
        r is Ok <==> is_frame(framed@),
        r matches Ok((k, b)) ==> framed@ == frame(k, b@),
        r is Err ==> r == Err::<(ObjectKind, Vec<u8>), GitError>(GitError::CorruptObject),
{
    let s = framed;
    let sp = find_byte(s, 32u8, 0);
    proof {
        lemma_first_from_bounds(s@, 32u8, 0);
    }
    let kind = if sp == 4 && bytes_at(s, 0, kind_bytes(ObjectKind::Blob).as_slice()) {
        ObjectKind::Blob
    } else if sp == 4 && bytes_at(s, 0, kind_bytes(ObjectKind::Tree).as_slice()) {
        ObjectKind::Tree
    } else if sp == 6 && bytes_at(s, 0, kind_bytes(ObjectKind::Commit).as_slice()) {
        ObjectKind::Commit
    } else {
        proof {
            lemma_not_frame_kind(s@, sp as int);
        }
        return Err(GitError::CorruptObject);
    };
    assert(s@.subrange(0, sp as int) == kind_name(kind));
    if sp == s.len() {
        proof {
            lemma_not_frame_kind(s@, sp as int);
        }
        return Err(GitError::CorruptObject);
    }
    let z = find_byte(s, 0u8, sp + 1);
    proof {
        lemma_first_from_bounds(s@, 0u8, sp + 1);
    }
    if z == s.len() {
        proof {
            lemma_not_frame_len(s@, kind, sp as int, z as int);
        }
        return Err(GitError::CorruptObject);
    }
    let mut digits: Vec<u8> = Vec::new();
    push_decimal(&mut digits, s.len() - z - 1);
    if z - (sp + 1) != digits.len() || !bytes_at(s, sp + 1, digits.as_slice()) {
        proof {
            lemma_not_frame_len(s@, kind, sp as int, z as int);
        }
        return Err(GitError::CorruptObject);
    }
    let body = copy_range(s, z + 1, s.len());
    assert(s@ =~= frame(kind, body@));
    assert(is_frame(s@));
    Ok((kind, body))
}

proof fn lemma_frame_first_space(k: ObjectKind, b: Seq<u8>)
    ensures
        first_from(frame(k, b), 32u8, 0) == kind_name(k).len(),
        frame(k, b).subrange(0, kind_name(k).len() as int) == kind_name(k),
{
    let f = frame(k, b);
    lemma_first_from(f, 32u8, 0, kind_name(k).len() as int);
    assert(f.subrange(0, kind_name(k).len() as int) =~= kind_name(k));
}

proof fn lemma_frame_first_nul(k: ObjectKind, b: Seq<u8>)
    ensures
        first_from(frame(k, b), 0u8, kind_name(k).len() + 1int) == kind_name(k).len() + 1int
            + decimal(b.len()).len(),
        frame(k, b).subrange(
            kind_name(k).len() + 1int,
            kind_name(k).len() + 1int + decimal(b.len()).len(),
        ) == decimal(b.len()),
{
    let f = frame(k, b);
    let n = kind_name(k).len() as int;
    let d = decimal(b.len());
    lemma_decimal_digits(b.len());
    assert forall|i: int| n + 1 <= i < n + 1 + d.len() implies f[i] != 0u8 by {
        assert(f[i] == d[i - n - 1]);
    }
    lemma_first_from(f, 0u8, n + 1, n + 1 + d.len());
    assert(f.subrange(n + 1, n + 1 + d.len()) =~= d);
}

/// When the bytes before the first space are no kind name, nothing frames to them.
proof fn lemma_not_frame_kind(s: Seq<u8>, sp: int)
    requires
        sp == first_from(s, 32u8, 0),
        !((sp == 4 && sp <= s.len() && s.subrange(0, 4) == kind_name(ObjectKind::Blob)) || (sp == 4
            && sp <= s.len() && s.subrange(0, 4) == kind_name(ObjectKind::Tree)) || (sp == 6 && sp
            <= s.len() && s.subrange(0, 6) == kind_name(ObjectKind::Commit))) || sp == s.len(),
    ensures
        !is_frame(s),
{
    if is_frame(s) {
        let (k, b) = choose|k: ObjectKind, b: Seq<u8>| s == #[trigger] frame(k, b);
        lemma_frame_first_space(k, b);
    }
}

/// When the header's length field is missing or wrong, nothing frames to the bytes.
proof fn lemma_not_frame_len(s: Seq<u8>, kind: ObjectKind, sp: int, z: int)
    requires
        sp == kind_name(kind).len(),
        sp < s.len(),
        s.subrange(0, sp) == kind_name(kind),
        z == first_from(s, 0u8, sp + 1),
        sp + 1 <= z <= s.len(),
        z == s.len() || s.subrange(sp + 1, z) != decimal((s.len() - z - 1) as nat),
    ensures
        !is_frame(s),
{
    if is_frame(s) {
        let (k, b) = choose|k: ObjectKind, b: Seq<u8>| s == #[trigger] frame(k, b);
        lemma_frame_first_space(k, b);
        if k != kind {
            assert(kind_name(k)[0] == s[0]);
            assert(kind_name(kind)[0] == s.subrange(0, sp)[0]);
            assert(kind_name(k)[1] == s[1]);
            assert(kind_name(kind)[1] == s.subrange(0, sp)[1]);
        }
        lemma_frame_first_nul(k, b);
        lemma_decimal_digits(b.len());
    }
}

} // verus!
