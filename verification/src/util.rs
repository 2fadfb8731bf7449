//! Small helpers: the clock, paths, string replacement and big-endian bytes.
use vstd::prelude::*;

use crate::text::{chars_of, string_push};

verus! {

/// The current time in seconds since the Unix epoch: `chrono::Local::now().timestamp()`.
/// It depends on the clock, so nothing is stated of it.
#[verifier::external_body]
pub fn now() -> i64 {
    chrono::offset::Local::now().timestamp()
}

// ---------------------------------------------------------------------------
// Paths.

/// The position of the last `/`, or -1.
pub open spec fn last_slash(s: Seq<char>) -> int
    decreases s.len(),
{
    if s.len() == 0 {
        -1
    } else if s.last() == '/' {
        s.len() - 1
    } else {
        last_slash(s.drop_last())
    }
}

/// A path split at its last `/` into the directories and the last component;
/// a path without `/` has no directories.
pub open spec fn split_dirs_spec(s: Seq<char>) -> (Seq<char>, Seq<char>) {
    let i = last_slash(s);
    if i < 0 {
        (Seq::empty(), s)
    } else {
        (s.take(i), s.skip(i + 1))
    }
}

pub open spec fn has_no_slash(s: Seq<char>) -> bool {
    forall|i: int| 0 <= i < s.len() ==> s[i] != '/'
}

proof fn lemma_last_slash_bounds(s: Seq<char>)
    ensures
        -1 <= last_slash(s) < s.len(),
        last_slash(s) >= 0 ==> s[last_slash(s)] == '/',
    decreases s.len(),
{
    if s.len() > 0 && s.last() != '/' {
        lemma_last_slash_bounds(s.drop_last());
    }
}

/// In `a/b` with no `/` in `b`, the last `/` is the one before `b`.
pub proof fn lemma_last_slash_join(a: Seq<char>, b: Seq<char>)
    requires
        has_no_slash(b),
    ensures
        last_slash(a + seq!['/'] + b) == a.len(),
    decreases b.len(),
{
    let s = a + seq!['/'] + b;
    if b.len() == 0 {
        assert(s.last() == '/');
    } else {
        assert(s.last() == b.last());
        assert(s.drop_last() =~= a + seq!['/'] + b.drop_last());
        lemma_last_slash_join(a, b.drop_last());
    }
}

/// Splitting `a/b`, where `b` has no `/`, gives `a` and `b` back.
pub proof fn law_split_dirs_of_join(a: Seq<char>, b: Seq<char>)
    requires
        has_no_slash(b),
    ensures
        split_dirs_spec(a + seq!['/'] + b) == (a, b),
{
    lemma_last_slash_join(a, b);
    let s = a + seq!['/'] + b;
    assert(s.take(a.len() as int) =~= a);
    assert(s.skip(a.len() as int + 1) =~= b);
}

/// Splits a path at its last `/` into the directories before it and the
/// last component.
pub fn split_dirs(s: &str) -> (r: (&str, &str))
    ensures
        (r.0@, r.1@) == split_dirs_spec(s@),
{
    let c = chars_of(s);
    let mut found = false;
    let mut pos: usize = 0;
    let mut i: usize = 0;
    assert(c@.take(0) =~= Seq::<char>::empty());
    while i < c.len()
        invariant
            c@ == s@,
            i <= c.len(),
            found == (last_slash(c@.take(i as int)) >= 0),
            found ==> pos == last_slash(c@.take(i as int)) && pos < i,
        decreases c.len() - i,
    {
        assert(c@.take(i + 1).drop_last() =~= c@.take(i as int));
        assert(c@.take(i + 1).last() == c@[i as int]);
        if c[i] == '/' {
            found = true;
            pos = i;
        }
        i = i + 1;
    }
    assert(c@.take(i as int) =~= c@);
    if !found {
        let whole = s.substring_char(0, c.len());
        assert(whole@ =~= s@);
        (s.substring_char(0, 0), whole)
    } else {
        (s.substring_char(0, pos), s.substring_char(pos + 1, c.len()))
    }
}

// ---------------------------------------------------------------------------
// Replacement of substrings.

/// Replaces the non-overlapping occurrences of `from`, found left to right,
/// by `to`, as `str::replace` does for a nonempty pattern.
pub open spec fn replace_spec(s: Seq<char>, from: Seq<char>, to: Seq<char>) -> Seq<char>
    decreases s.len(),
{
    if from.len() == 0 || s.len() < from.len() {
        s
    } else if s.take(from.len() as int) == from {
        to + replace_spec(s.skip(from.len() as int), from, to)
    } else {
        seq![s[0]] + replace_spec(s.skip(1), from, to)
    }
}

pub(crate) fn matches_at(s: &Vec<char>, i: usize, p: &Vec<char>) -> (r: bool)
    requires
        i + p.len() <= s.len(),
    ensures
        r == (s@.subrange(i as int, i + p.len()) == p@),
{
    let mut j: usize = 0;
    while j < p.len()
        invariant
            i + p.len() <= s.len(),
            j <= p.len(),
            forall|l: int| 0 <= l < j ==> s@[i + l] == p@[l],
        decreases p.len() - j,
    {
        if s[i + j] != p[j] {
            assert(s@.subrange(i as int, i + p.len())[j as int] != p@[j as int]);
            return false;
        }
        j = j + 1;
    }
    assert(s@.subrange(i as int, i + p.len()) =~= p@);
    true
}

pub(crate) fn push_all(out: &mut String, s: &Vec<char>, from: usize)
    requires
        from <= s.len(),
    ensures
        final(out)@ == old(out)@ + s@.skip(from as int),
{
    let mut i = from;
    while i < s.len()
        invariant
            from <= i <= s.len(),
            out@ == old(out)@ + s@.subrange(from as int, i as int),
        decreases s.len() - i,
    {
        string_push(out, s[i]);
        assert(s@.subrange(from as int, i + 1) =~= s@.subrange(from as int, i as int).push(s@[i as int]));
        i = i + 1;
    }
    assert(s@.subrange(from as int, i as int) =~= s@.skip(from as int));
}

/// Replaces every occurrence of `from` in `s` by `to`, scanning left to right.
pub fn replace_all(s: &str, from: &str, to: &str) -> (r: String)
    requires
        from@.len() > 0,
    ensures
        r@ == replace_spec(s@, from@, to@),
{
    let c = chars_of(s);
    let f = chars_of(from);
    let t = chars_of(to);
    let mut out = String::new();
    let mut i: usize = 0;
    assert(c@.skip(0) =~= c@);
    while f.len() <= c.len() - i
        invariant
            c@ == s@,
            f@ == from@,
            t@ == to@,
            f.len() > 0,
            i <= c.len(),
            out@ + replace_spec(c@.skip(i as int), f@, t@) == replace_spec(s@, from@, to@),
        decreases c.len() - i,
    {
        let ghost rest = c@.skip(i as int);
        let ghost out0 = out@;
        assert(rest.take(f.len() as int) =~= c@.subrange(i as int, i + f.len()));
        if matches_at(&c, i, &f) {
            assert(rest.skip(f.len() as int) =~= c@.skip(i + f.len()));
            push_all(&mut out, &t, 0);
            assert(t@.skip(0) =~= t@);
            let ghost tail = replace_spec(c@.skip(i + f.len()), f@, t@);
            assert(replace_spec(rest, f@, t@) == t@ + tail);
            assert(out@ + tail =~= out0 + (t@ + tail));
            i = i + f.len();
        } else {
            assert(rest.skip(1) =~= c@.skip(i + 1));
            string_push(&mut out, c[i]);
            let ghost tail = replace_spec(c@.skip(i + 1), f@, t@);
            assert(rest[0] == c@[i as int]);
            assert(replace_spec(rest, f@, t@) == seq![c@[i as int]] + tail);
            assert(out@ + tail =~= out0 + (seq![c@[i as int]] + tail));
            i = i + 1;
        }
    }
    let ghost rest = c@.skip(i as int);
    let ghost out0 = out@;
    assert(replace_spec(rest, f@, t@) == rest);
    push_all(&mut out, &c, i);
    out
}

// ---------------------------------------------------------------------------
// Big-endian bytes.

/// The eight bytes of `n`, most significant first.
pub open spec fn be_bytes(n: u64) -> Seq<u8> {
    seq![
        (n >> 56) as u8,
        (n >> 48) as u8,
        (n >> 40) as u8,
        (n >> 32) as u8,
        (n >> 24) as u8,
        (n >> 16) as u8,
        (n >> 8) as u8,
        n as u8,
    ]
}

/// The number whose big-endian bytes are the first eight of `b`.
pub open spec fn from_be(b: Seq<u8>) -> u64 {
    ((b[0] as u64) << 56) | ((b[1] as u64) << 48) | ((b[2] as u64) << 40) | ((b[3] as u64) << 32)
        | ((b[4] as u64) << 24) | ((b[5] as u64) << 16) | ((b[6] as u64) << 8) | (b[7] as u64)
}

/// Decoding the bytes of a number gives it back.
pub proof fn law_from_be_of_be_bytes(n: u64)
    ensures
        from_be(be_bytes(n)) == n,
{
    let b = be_bytes(n);
    assert(b[0] == (n >> 56) as u8 && b[1] == (n >> 48) as u8 && b[2] == (n >> 40) as u8 && b[3] == (n >> 32) as u8);
    assert(b[4] == (n >> 24) as u8 && b[5] == (n >> 16) as u8 && b[6] == (n >> 8) as u8 && b[7] == n as u8);
    assert(
        ((((n >> 56) as u8) as u64) << 56) | ((((n >> 48) as u8) as u64) << 48) | ((((n >> 40) as u8) as u64) << 40)
        | ((((n >> 32) as u8) as u64) << 32) | ((((n >> 24) as u8) as u64) << 24) | ((((n >> 16) as u8) as u64) << 16)
        | ((((n >> 8) as u8) as u64) << 8) | ((n as u8) as u64) == n
    ) by (bit_vector);
}

/// Encoding a decoded eight-byte sequence gives it back.
pub proof fn law_be_bytes_of_from_be(b: Seq<u8>)
    requires
        b.len() == 8,
    ensures
        be_bytes(from_be(b)) == b,
{
    let (b0, b1, b2, b3, b4, b5, b6, b7) = (b[0], b[1], b[2], b[3], b[4], b[5], b[6], b[7]);
    let n = from_be(b);
    assert(n == ((b0 as u64) << 56) | ((b1 as u64) << 48) | ((b2 as u64) << 40) | ((b3 as u64) << 32)
        | ((b4 as u64) << 24) | ((b5 as u64) << 16) | ((b6 as u64) << 8) | (b7 as u64));
    assert({
        let m = ((b0 as u64) << 56) | ((b1 as u64) << 48) | ((b2 as u64) << 40) | ((b3 as u64) << 32)
            | ((b4 as u64) << 24) | ((b5 as u64) << 16) | ((b6 as u64) << 8) | (b7 as u64);
        &&& (m >> 56) as u8 == b0
        &&& (m >> 48) as u8 == b1
        &&& (m >> 40) as u8 == b2
        &&& (m >> 32) as u8 == b3
        &&& (m >> 24) as u8 == b4
        &&& (m >> 16) as u8 == b5
        &&& (m >> 8) as u8 == b6
        &&& m as u8 == b7
    }) by (bit_vector);
    assert(be_bytes(n) =~= b);
}

/// The big-endian bytes of `u`, as `u.to_be_bytes()` gives them.
pub fn u64_to_array(u: u64) -> (r: [u8; 8])
    ensures
        r@ == be_bytes(u),
{
    let r = [
        (u >> 56) as u8,
        (u >> 48) as u8,
        (u >> 40) as u8,
        (u >> 32) as u8,
        (u >> 24) as u8,
        (u >> 16) as u8,
        (u >> 8) as u8,
        u as u8,
    ];
    assert(r@ =~= be_bytes(u));
    r
}

/// The number of eight big-endian bytes, as `u64::from_be_bytes` reads them.
pub fn u64_from_be(b: &[u8]) -> (r: u64)
    requires
        b@.len() == 8,
    ensures
        r == from_be(b@),
{
    ((b[0] as u64) << 56) | ((b[1] as u64) << 48) | ((b[2] as u64) << 40) | ((b[3] as u64) << 32)
        | ((b[4] as u64) << 24) | ((b[5] as u64) << 16) | ((b[6] as u64) << 8) | (b[7] as u64)
}

// ---------------------------------------------------------------------------
// Byte strings of the embedded database.

#[verifier::external_type_specification]
#[verifier::external_body]
pub struct ExIVec(sled::IVec);

/// The bytes that a `sled::IVec` holds.
pub uninterp spec fn ivec_bytes(v: sled::IVec) -> Seq<u8>;

/// `sled::IVec::from(Vec<u8>)`: an `IVec` holding the bytes of the vector.
#[verifier::external_body]
pub(crate) fn ivec_from_vec(v: Vec<u8>) -> (r: sled::IVec)
    ensures
        ivec_bytes(r) == v@,
{
    sled::IVec::from(v)
}

/// `<sled::IVec as AsRef<[u8]>>::as_ref`: the bytes the `IVec` holds.
#[verifier::external_body]
pub(crate) fn ivec_as_bytes(v: &sled::IVec) -> (r: &[u8])
    ensures
        r@ == ivec_bytes(*v),
{
    v.as_ref()
}

/// `sled::IVec::subslice`: the `len` bytes from `offset` on. It panics when
/// they do not lie within the `IVec`, so that is required.
#[verifier::external_body]
pub(crate) fn ivec_subslice(v: &sled::IVec, offset: usize, len: usize) -> (r: sled::IVec)
    requires
        offset + len <= ivec_bytes(*v).len(),
    ensures
        ivec_bytes(r) == ivec_bytes(*v).subrange(offset as int, offset + len),
{
    v.subslice(offset, len)
}

/// Reads a `u64` stored as eight big-endian bytes; `None` when the `IVec`
/// does not hold exactly eight bytes.
pub fn ivec_to_u64_checked(ivec: &sled::IVec) -> (r: Option<u64>)
    ensures
        match r {
            Some(n) => ivec_bytes(*ivec).len() == 8 && n == from_be(ivec_bytes(*ivec)),
            None => ivec_bytes(*ivec).len() != 8,
        },
{
    if ivec_as_bytes(ivec).len() == 8 {
        Some(ivec_to_u64(ivec))
    } else {
        None
    }
}

/// Reads a `u64` stored as eight big-endian bytes.
pub fn ivec_to_u64(ivec: &sled::IVec) -> (r: u64)
    requires
        ivec_bytes(*ivec).len() == 8,
    ensures
        r == from_be(ivec_bytes(*ivec)),
{
    u64_from_be(ivec_as_bytes(ivec))
}

} // verus!

verus! {

/// Points the package links of a PyPI index page at this proxy:
/// `https://files.pythonhosted.org/` becomes `<to>/pypi/`.
pub open spec fn pypi_index_rewrite_spec(content: Seq<char>, to: Seq<char>) -> Seq<char> {
    replace_spec(content, "https://files.pythonhosted.org/"@, to + "/pypi/"@)
}

pub fn pypi_index_rewrite(content: &str, to: &str) -> (r: String)
    ensures
        r@ == pypi_index_rewrite_spec(content@, to@),
{
    let mut target = String::from_str(to);
    target.append("/pypi/");
    proof {
        reveal_strlit("https://files.pythonhosted.org/");
    }
    replace_all(content, "https://files.pythonhosted.org/", target.as_str())
}

/// A page that begins with a file link has that link pointed at the proxy,
/// and the rest of the page is rewritten in the same way: every file link of
/// a page is rewritten, not only the first.
pub proof fn law_rewrite_leading_link(rest: Seq<char>, to: Seq<char>)
    ensures
        pypi_index_rewrite_spec("https://files.pythonhosted.org/"@ + rest, to)
            == (to + "/pypi/"@) + pypi_index_rewrite_spec(rest, to),
{
    reveal_strlit("https://files.pythonhosted.org/");
    let p = "https://files.pythonhosted.org/"@;
    assert((p + rest).take(p.len() as int) =~= p);
    assert((p + rest).skip(p.len() as int) =~= rest);
}

/// A character that does not begin a file link is kept, and the rest of the
/// page is rewritten after it.
pub proof fn law_rewrite_keeps_other_chars(c: char, rest: Seq<char>, to: Seq<char>)
    requires
        !((seq![c] + rest).len() >= "https://files.pythonhosted.org/"@.len()
            && (seq![c] + rest).take("https://files.pythonhosted.org/"@.len() as int) == "https://files.pythonhosted.org/"@),
    ensures
        pypi_index_rewrite_spec(seq![c] + rest, to) == seq![c] + pypi_index_rewrite_spec(rest, to),
{
    reveal_strlit("https://files.pythonhosted.org/");
    let p = "https://files.pythonhosted.org/"@;
    let s = seq![c] + rest;
    assert(s.skip(1) =~= rest);
    assert(s[0] == c);
    if s.len() < p.len() {
        assert(rest.len() < p.len());
        assert(s =~= seq![c] + rest);
    }
}

/// A page too short to hold a file link is kept as it is.
pub proof fn law_rewrite_short_page_unchanged(page: Seq<char>, to: Seq<char>)
    requires
        page.len() < "https://files.pythonhosted.org/"@.len(),
    ensures
        pypi_index_rewrite_spec(page, to) == page,
{
}

} // verus!
