//! Base58 text and the bytes it stands for.

use vstd::prelude::*;

verus! {

/// The digits of base58 in the order of their values.
pub open spec fn alphabet() -> Seq<char> {
    "123456789ABCDEFGHJKLMNPQRSTUVWXYZabcdefghijkmnopqrstuvwxyz"@
}

/// Whether every character of a text is a digit of base58.
pub open spec fn is_base58(text: Seq<char>) -> bool {
    forall|i: int| 0 <= i < text.len() ==> alphabet().contains(#[trigger] text[i])
}

/// The number that base58 digits write, the most significant first.
pub open spec fn digits_value(text: Seq<char>) -> nat
    decreases text.len(),
{
    if text.len() == 0 {
        0
    } else {
        digits_value(text.drop_last()) * 58 + alphabet().index_of(text.last()) as nat
    }
}

/// The number that bytes write, the most significant first.
pub open spec fn bytes_value(b: Seq<u8>) -> nat
    decreases b.len(),
{
    if b.len() == 0 {
        0
    } else {
        bytes_value(b.drop_last()) * 256 + b.last() as nat
    }
}

/// How many items at the front of a sequence are `x`.
pub open spec fn leading<T>(s: Seq<T>, x: T) -> nat
    decreases s.len(),
{
    if s.len() == 0 || s[0] != x {
        0
    } else {
        1 + leading(s.drop_first(), x)
    }
}

/// Whether a base58 text stands for `b`: they write the same number, and as many
/// zero bytes lead the one as `1` digits lead the other.
pub open spec fn stands_for(text: Seq<char>, b: Seq<u8>) -> bool {
    &&& is_base58(text)
    &&& digits_value(text) == bytes_value(b)
    &&& leading(text, '1') == leading(b, 0u8)
}

/// The bytes that a text stands for, if there are any.
pub open spec fn base58_bytes(text: Seq<char>) -> Option<Seq<u8>> {
    if exists|b: Seq<u8>| stands_for(text, b) {
        Some(choose|b: Seq<u8>| stands_for(text, b))
    } else {
        None
    }
}

/// Bytes that write zero are all zero.
pub(crate) proof fn lemma_zero_value(b: Seq<u8>)
    requires
        bytes_value(b) == 0,
    ensures
        leading(b, 0u8) == b.len(),
        forall|i: int| 0 <= i < b.len() ==> b[i] == 0,
    decreases b.len(),
{
    if b.len() > 0 {
        lemma_zero_value(b.drop_last());
        assert(forall|i: int| 0 <= i < b.len() - 1 ==> b.drop_last()[i] == b[i]);
        assert(b.last() == 0);
        assert(forall|i: int| 0 <= i < b.len() ==> b[i] == 0);
        lemma_all_leading(b);
    }
}

/// All of a sequence of zeros leads it.
proof fn lemma_all_leading(b: Seq<u8>)
    requires
        forall|i: int| 0 <= i < b.len() ==> b[i] == 0,
    ensures
        leading(b, 0u8) == b.len(),
    decreases b.len(),
{
    if b.len() > 0 {
        lemma_all_leading(b.drop_first());
    }
}

/// A last item that is not zero leads nothing; one that follows a non-zero item
/// does not count.
proof fn lemma_leading_drop_last(b: Seq<u8>)
    requires
        b.len() > 0,
        bytes_value(b) > 0,
    ensures
        leading(b, 0u8) == leading(b.drop_last(), 0u8),
    decreases b.len(),
{
    if b.len() == 1 {
        assert(bytes_value(b.drop_last()) == 0);
        assert(b[0] != 0);
    } else if b[0] == 0 {
        let t = b.drop_first();
        lemma_value_drop_first(b);
        lemma_leading_drop_last(t);
        assert(b.drop_last().drop_first() =~= t.drop_last());
    }
}

/// A zero in front does not change the number.
proof fn lemma_value_drop_first(b: Seq<u8>)
    requires
        b.len() > 0,
        b[0] == 0,
    ensures
        bytes_value(b) == bytes_value(b.drop_first()),
    decreases b.len(),
{
    if b.len() > 1 {
        lemma_value_drop_first(b.drop_last());
        assert(b.drop_last().drop_first() =~= b.drop_first().drop_last());
    } else {
        assert(bytes_value(b.drop_last()) == 0);
    }
}

/// The number and the leading zeros fix the bytes.
proof fn lemma_bytes_unique(a: Seq<u8>, b: Seq<u8>)
    requires
        bytes_value(a) == bytes_value(b),
        leading(a, 0u8) == leading(b, 0u8),
    ensures
        a == b,
    decreases a.len(),
{
    if bytes_value(a) == 0 {
        lemma_zero_value(a);
        lemma_zero_value(b);
    } else {
        lemma_leading_drop_last(a);
        lemma_leading_drop_last(b);
        lemma_bytes_unique(a.drop_last(), b.drop_last());
        assert(a =~= a.drop_last().push(a.last()));
        assert(b =~= b.drop_last().push(b.last()));
    }
    assert(a =~= b);
}

/// A text stands for one byte string at most.
pub proof fn base58_is_unambiguous(text: Seq<char>, a: Seq<u8>, b: Seq<u8>)
    requires
        stands_for(text, a),
        stands_for(text, b),
    ensures
        a == b,
{
    lemma_bytes_unique(a, b);
}

/// Every text that stands for bytes is read as those bytes, however many there are.
pub proof fn a_text_is_read_as_what_it_stands_for(text: Seq<char>, b: Seq<u8>)
    requires
        stands_for(text, b),
    ensures
        base58_bytes(text) == Some(b),
{
    base58_is_unambiguous(text, b, choose|c: Seq<u8>| stands_for(text, c));
}

/// Nothing is read but what a text stands for, and a text with any other character
/// stands for nothing.
pub proof fn only_what_a_text_stands_for_is_read(text: Seq<char>)
    ensures
        base58_bytes(text) matches Some(b) ==> stands_for(text, b),
        (exists|i: int|
            0 <= i < text.len() && !alphabet().contains(#[trigger] text[i]))
            ==> base58_bytes(text) is None,
{
}

/// `bs58::decode(..).into_vec()` with its default alphabet: the bytes that the
/// text stands for, an error for any text with another character.
#[verifier::external_body]
fn bs58_decode(text: &str) -> (r: Option<Vec<u8>>)
    ensures
        r is Some <==> is_base58(text@),
        r matches Some(b) ==> stands_for(text@, b@),
{
    bs58::decode(text).into_vec().ok()
}

/// The bytes that a base58 text stands for, or `None` if it is none.
pub fn decode_base58(text: &str) -> (r: Option<Vec<u8>>)
    ensures
        r is Some <==> is_base58(text@),
        r is Some <==> base58_bytes(text@) is Some,
        r matches Some(b) ==> base58_bytes(text@) == Some(b@),
{
    let r = bs58_decode(text);
    proof {
        if r is Some {
            let other = choose|c: Seq<u8>| stands_for(text@, c);
            base58_is_unambiguous(text@, r->0@, other);
        }
    }
    r
}

} // verus!
