//! Byte-level helpers: fixed-width fields, little-endian numbers, byte order.

use vstd::prelude::*;

verus! {

/// A 32-byte address or identifier.
pub type Address = [u8; 32];

/// Byte strings in lexicographic order: the order of the keys of a certified
/// tree, and the order pages come in.
pub open spec fn lex_lt(a: Seq<u8>, b: Seq<u8>) -> bool
    decreases a.len(),
{
    if b.len() == 0 {
        false
    } else if a.len() == 0 {
        true
    } else if a[0] != b[0] {
        a[0] < b[0]
    } else {
        lex_lt(a.drop_first(), b.drop_first())
    }
}

/// The 32 bytes of `d` that start at `off`, if `d` is long enough.
pub open spec fn field32(d: Seq<u8>, off: int) -> Option<Seq<u8>> {
    if 0 <= off && off + 32 <= d.len() {
        Some(d.subrange(off, off + 32))
    } else {
        None
    }
}

/// The little-endian number in the 8 bytes of `d` that start at `off`, if `d`
/// is long enough.
pub open spec fn field_u64(d: Seq<u8>, off: int) -> Option<u64> {
    if 0 <= off && off + 8 <= d.len() {
        Some(vstd::bytes::spec_u64_from_le_bytes(d.subrange(off, off + 8)))
    } else {
        None
    }
}

/// Nothing precedes itself.
pub proof fn lemma_lex_irreflexive(a: Seq<u8>)
    ensures
        !lex_lt(a, a),
    decreases a.len(),
{
    if a.len() > 0 {
        lemma_lex_irreflexive(a.drop_first());
    }
}

/// The byte order is transitive.
pub proof fn lemma_lex_transitive(a: Seq<u8>, b: Seq<u8>, c: Seq<u8>)
    requires
        lex_lt(a, b),
        lex_lt(b, c),
    ensures
        lex_lt(a, c),
    decreases a.len(),
{
    if a.len() > 0 && a[0] == b[0] && b[0] == c[0] {
        lemma_lex_transitive(a.drop_first(), b.drop_first(), c.drop_first());
    }
}

/// Of two different byte strings one precedes the other.
pub proof fn lemma_lex_total(a: Seq<u8>, b: Seq<u8>)
    ensures
        lex_lt(a, b) || a == b || lex_lt(b, a),
    decreases a.len(),
{
    if a.len() > 0 && b.len() > 0 && a[0] == b[0] {
        lemma_lex_total(a.drop_first(), b.drop_first());
        if a.drop_first() == b.drop_first() {
            assert(a =~= seq![a[0]] + a.drop_first());
            assert(b =~= seq![b[0]] + b.drop_first());
        }
    } else if a.len() == 0 && b.len() == 0 {
        assert(a =~= b);
    }
}

/// A common prefix does not decide the byte order.
proof fn lemma_lex_skip(a: Seq<u8>, b: Seq<u8>, n: int)
    requires
        0 <= n <= a.len(),
        n <= b.len(),
        forall|i: int| 0 <= i < n ==> a[i] == b[i],
    ensures
        lex_lt(a, b) == lex_lt(a.skip(n), b.skip(n)),
    decreases n,
{
    if n == 0 {
        assert(a.skip(0) =~= a);
        assert(b.skip(0) =~= b);
    } else {
        lemma_lex_skip(a.drop_first(), b.drop_first(), n - 1);
        assert(a.drop_first().skip(n - 1) =~= a.skip(n));
        assert(b.drop_first().skip(n - 1) =~= b.skip(n));
    }
}

/// Whether `a` precedes `b` in byte order.
pub fn precedes(a: &[u8], b: &[u8]) -> (r: bool)
    ensures
        r == lex_lt(a@, b@),
{
    let mut i: usize = 0;
    while i < a.len() && i < b.len() && a[i] == b[i]
        invariant
            i <= a@.len(),
            i <= b@.len(),
            forall|k: int| 0 <= k < i ==> a@[k] == b@[k],
        decreases a@.len() - i,
    {
        i += 1;
    }
    proof {
        lemma_lex_skip(a@, b@, i as int);
    }
    if i == b.len() {
        false
    } else if i == a.len() {
        true
    } else {
        a[i] < b[i]
    }
}

/// Whether two byte strings are equal.
pub fn same(a: &[u8], b: &[u8]) -> (r: bool)
    ensures
        r == (a@ == b@),
{
    if a.len() != b.len() {
        return false;
    }
    let mut i: usize = 0;
    while i < a.len()
        invariant
            i <= a@.len(),
            a@.len() == b@.len(),
            forall|k: int| 0 <= k < i ==> a@[k] == b@[k],
        decreases a@.len() - i,
    {
        if a[i] != b[i] {
            return false;
        }
        i += 1;
    }
    assert(a@ =~= b@);
    true
}

/// A byte string of exactly 32 bytes as an array.
pub fn array32(s: &[u8]) -> (r: Option<Address>)
    ensures
        r is Some <==> s@.len() == 32,
        r matches Some(a) ==> a@ == s@,
{
    if s.len() != 32 {
        return None;
    }
    let mut a: Address = [0u8; 32];
    let mut i: usize = 0;
    while i < 32
        invariant
            i <= 32,
            s@.len() == 32,
            forall|k: int| 0 <= k < i ==> a@[k] == s@[k],
        decreases 32 - i,
    {
        a[i] = s[i];
        i += 1;
    }
    assert(a@ =~= s@);
    Some(a)
}

/// Read a 32-byte field at `off`, or `None` if out of range.
pub fn arr32(d: &[u8], off: usize) -> (r: Option<Address>)
    ensures
        (match r {
            Some(a) => field32(d@, off as int) == Some(a@),
            None => field32(d@, off as int) is None,
        }),
{
    if d.len() < 32 || off > d.len() - 32 {
        return None;
    }
    array32(vstd::slice::slice_subrange(d, off, off + 32))
}

/// Read a little-endian `u64` at `off`, or `None` if out of range.
pub fn u64le(d: &[u8], off: usize) -> (r: Option<u64>)
    ensures
        r == field_u64(d@, off as int),
{
    if d.len() < 8 || off > d.len() - 8 {
        return None;
    }
    Some(vstd::bytes::u64_from_le_bytes(vstd::slice::slice_subrange(d, off, off + 8)))
}

} // verus!
