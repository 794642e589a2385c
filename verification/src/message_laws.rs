//! What is written on the wire is what is read from it.

use crate::message::{
    all_compiled_at, compact_at, compiled_at, header_at, keys_at, message_of, RawCompiledSpec,
};
use vstd::prelude::*;

verus! {

/// A number below 2^16 as a `short_u16`.
pub open spec fn compact(n: nat) -> Seq<u8> {
    if n < 128 {
        seq![n as u8]
    } else if n < 16384 {
        seq![(n % 128 + 128) as u8, (n / 128) as u8]
    } else {
        seq![(n % 128 + 128) as u8, ((n / 128) % 128 + 128) as u8, (n / 16384) as u8]
    }
}

/// A compiled instruction on the wire.
pub open spec fn compiled_wire(ix: RawCompiledSpec) -> Seq<u8> {
    seq![ix.program_id_index] + compact(ix.accounts.len()) + ix.accounts + compact(ix.data.len())
        + ix.data
}

/// Compiled instructions on the wire, one after the other.
pub open spec fn all_compiled_wire(ixs: Seq<RawCompiledSpec>) -> Seq<u8>
    decreases ixs.len(),
{
    if ixs.len() == 0 {
        Seq::empty()
    } else {
        all_compiled_wire(ixs.drop_last()) + compiled_wire(ixs.last())
    }
}

/// Keys on the wire, one after the other.
pub open spec fn keys_wire(keys: Seq<Seq<u8>>) -> Seq<u8>
    decreases keys.len(),
{
    if keys.len() == 0 {
        Seq::empty()
    } else {
        keys_wire(keys.drop_last()) + keys.last()
    }
}

/// A transaction to be written: a legacy or a v0 message behind its signatures.
pub struct WireTx {
    pub num_sigs: nat,
    /// 64 bytes for each signature.
    pub signatures: Seq<u8>,
    pub versioned: bool,
    /// The three counts of the header.
    pub header: Seq<u8>,
    pub keys: Seq<Seq<u8>>,
    pub blockhash: Seq<u8>,
    pub ixs: Seq<RawCompiledSpec>,
    /// What follows the instructions, such as address-table lookups.
    pub rest: Seq<u8>,
}

impl WireTx {
    /// Whether every field has its width and every count fits. The first byte of
    /// a legacy message is a count below 128, or it would read as a version.
    pub open spec fn valid(self) -> bool {
        &&& self.num_sigs < 0x1_0000
        &&& self.signatures.len() == 64 * self.num_sigs
        &&& self.header.len() == 3
        &&& self.versioned || self.header[0] < 128
        &&& self.keys.len() < 0x1_0000
        &&& forall|i: int| 0 <= i < self.keys.len() ==> (#[trigger] self.keys[i]).len() == 32
        &&& self.blockhash.len() == 32
        &&& self.ixs.len() < 0x1_0000
        &&& forall|i: int|
            0 <= i < self.ixs.len() ==> (#[trigger] self.ixs[i]).accounts.len() < 0x1_0000
                && self.ixs[i].data.len() < 0x1_0000
    }

    /// The version prefix of a v0 message; none of a legacy one.
    pub open spec fn prefix(self) -> Seq<u8> {
        if self.versioned {
            seq![128u8]
        } else {
            Seq::empty()
        }
    }

    /// The transaction on the wire.
    pub open spec fn wire(self) -> Seq<u8> {
        compact(self.num_sigs) + (self.signatures + (self.prefix() + (self.header + (compact(
            self.keys.len(),
        ) + (keys_wire(self.keys) + (self.blockhash + (compact(self.ixs.len()) + (
        all_compiled_wire(self.ixs) + self.rest))))))))
    }
}

/// Whether `part` lies in `d` from `i` on.
spec fn lies_at(d: Seq<u8>, i: int, part: Seq<u8>) -> bool {
    0 <= i && i + part.len() <= d.len() && d.subrange(i, i + part.len()) == part
}

/// Where two parts lie together, the second lies behind the first.
proof fn lemma_split(d: Seq<u8>, i: int, a: Seq<u8>, b: Seq<u8>)
    requires
        lies_at(d, i, a + b),
    ensures
        lies_at(d, i, a),
        lies_at(d, i + a.len(), b),
{
    let whole = d.subrange(i, i + a.len() + b.len());
    assert(whole == a + b);
    assert(d.subrange(i, i + a.len()) =~= whole.subrange(0, a.len() as int));
    assert((a + b).subrange(0, a.len() as int) =~= a);
    assert(d.subrange(i + a.len(), i + a.len() + b.len()) =~= whole.subrange(
        a.len() as int,
        (a.len() + b.len()) as int,
    ));
    assert((a + b).subrange(a.len() as int, (a.len() + b.len()) as int) =~= b);
}

/// Every byte of a part is the byte of the whole.
proof fn lemma_byte(d: Seq<u8>, i: int, part: Seq<u8>, k: int)
    requires
        lies_at(d, i, part),
        0 <= k < part.len(),
    ensures
        d[i + k] == part[k],
{
    assert(d.subrange(i, i + part.len())[k] == part[k]);
}

/// A `short_u16` reads back as the number that was written.
proof fn lemma_compact(d: Seq<u8>, i: int, n: nat)
    requires
        n < 0x1_0000,
        lies_at(d, i, compact(n)),
    ensures
        compact_at(d, i) == Some((n, i + compact(n).len())),
{
    lemma_byte(d, i, compact(n), 0);
    if n >= 128 {
        lemma_byte(d, i, compact(n), 1);
        if n >= 16384 {
            lemma_byte(d, i, compact(n), 2);
        }
    }
}

/// A compiled instruction reads back as it was written.
proof fn lemma_compiled(d: Seq<u8>, i: int, ix: RawCompiledSpec)
    requires
        ix.accounts.len() < 0x1_0000,
        ix.data.len() < 0x1_0000,
        lies_at(d, i, compiled_wire(ix)),
    ensures
        compiled_at(d, i) == Some((ix, i + compiled_wire(ix).len())),
{
    let p = seq![ix.program_id_index];
    let na = compact(ix.accounts.len());
    let nd = compact(ix.data.len());
    lemma_split(d, i, p + na + ix.accounts + nd, ix.data);
    lemma_split(d, i, p + na + ix.accounts, nd);
    lemma_split(d, i, p + na, ix.accounts);
    lemma_split(d, i, p, na);
    lemma_byte(d, i, p, 0);
    lemma_compact(d, i + 1, ix.accounts.len());
    lemma_compact(d, i + 1 + na.len() + ix.accounts.len(), ix.data.len());
}

/// Compiled instructions read back as they were written.
proof fn lemma_all_compiled(d: Seq<u8>, i: int, ixs: Seq<RawCompiledSpec>)
    requires
        forall|k: int|
            0 <= k < ixs.len() ==> (#[trigger] ixs[k]).accounts.len() < 0x1_0000
                && ixs[k].data.len() < 0x1_0000,
        lies_at(d, i, all_compiled_wire(ixs)),
    ensures
        all_compiled_at(d, i, ixs.len()) == Some((ixs, i + all_compiled_wire(ixs).len())),
    decreases ixs.len(),
{
    if ixs.len() == 0 {
        assert(ixs =~= Seq::empty());
    } else {
        let before = ixs.drop_last();
        assert forall|k: int| 0 <= k < before.len() implies (
        #[trigger] before[k]).accounts.len() < 0x1_0000 && before[k].data.len() < 0x1_0000 by {
            assert(before[k] == ixs[k]);
        }
        lemma_split(d, i, all_compiled_wire(before), compiled_wire(ixs.last()));
        lemma_all_compiled(d, i, before);
        assert(ixs[ixs.len() - 1] == ixs.last());
        lemma_compiled(d, i + all_compiled_wire(before).len(), ixs.last());
        assert(before.push(ixs.last()) =~= ixs);
    }
}

/// Keys read back as they were written.
proof fn lemma_keys(d: Seq<u8>, i: int, keys: Seq<Seq<u8>>)
    requires
        forall|k: int| 0 <= k < keys.len() ==> (#[trigger] keys[k]).len() == 32,
        lies_at(d, i, keys_wire(keys)),
    ensures
        keys_wire(keys).len() == 32 * keys.len(),
        keys_at(d, i, keys.len()) == keys,
    decreases keys.len(),
{
    if keys.len() > 0 {
        let before = keys.drop_last();
        assert forall|k: int| 0 <= k < before.len() implies (#[trigger] before[k]).len() == 32 by {
            assert(before[k] == keys[k]);
        }
        lemma_split(d, i, keys_wire(before), keys.last());
        lemma_keys(d, i, before);
        assert(keys[keys.len() - 1] == keys.last());
        assert forall|k: int| 0 <= k < keys.len() implies keys_at(d, i, keys.len())[k]
            == keys[k] by {
            if k < before.len() {
                assert(keys_at(d, i, before.len())[k] == before[k]);
            }
        }
    }
    assert(keys_at(d, i, keys.len()) =~= keys);
}

/// What was written is read: the static keys and the top-level instructions of
/// every valid transaction, legacy or v0, come back exactly.
pub proof fn reading_undoes_writing(w: WireTx)
    requires
        w.valid(),
    ensures
        message_of(w.wire()) == Some((w.keys, w.ixs)),
{
    lemma_end(w);
}

/// What was written is read, up to what follows it.
proof fn lemma_end(w: WireTx)
    requires
        w.valid(),
    ensures
        message_of(w.wire()) == Some((w.keys, w.ixs)),
        end_of(w.wire()) == w.wire().len() - w.rest.len(),
{
    let d = w.wire();
    let tail8 = all_compiled_wire(w.ixs) + w.rest;
    let tail7 = compact(w.ixs.len()) + tail8;
    let tail6 = w.blockhash + tail7;
    let tail5 = keys_wire(w.keys) + tail6;
    let tail4 = compact(w.keys.len()) + tail5;
    let tail3 = w.header + tail4;
    let tail2 = w.prefix() + tail3;
    let tail1 = w.signatures + tail2;
    assert(d.subrange(0, d.len() as int) =~= d);
    assert(lies_at(d, 0, compact(w.num_sigs) + tail1));
    lemma_split(d, 0, compact(w.num_sigs), tail1);
    lemma_compact(d, 0, w.num_sigs);
    let p1 = compact(w.num_sigs).len() as int;
    lemma_split(d, p1, w.signatures, tail2);
    let p2 = p1 + w.signatures.len();
    lemma_split(d, p2, w.prefix(), tail3);
    let p3 = p2 + w.prefix().len();
    lemma_split(d, p3, w.header, tail4);
    let p4 = p3 + 3;
    if w.versioned {
        lemma_byte(d, p2, w.prefix(), 0);
    } else {
        lemma_byte(d, p3, w.header, 0);
    }
    assert(header_at(d) == Some(p3));
    lemma_split(d, p4, compact(w.keys.len()), tail5);
    lemma_compact(d, p4, w.keys.len());
    let p5 = p4 + compact(w.keys.len()).len();
    lemma_split(d, p5, keys_wire(w.keys), tail6);
    lemma_keys(d, p5, w.keys);
    let p6 = p5 + keys_wire(w.keys).len();
    lemma_split(d, p6, w.blockhash, tail7);
    let p7 = p6 + 32;
    lemma_split(d, p7, compact(w.ixs.len()), tail8);
    lemma_compact(d, p7, w.ixs.len());
    let p8 = p7 + compact(w.ixs.len()).len();
    lemma_split(d, p8, all_compiled_wire(w.ixs), w.rest);
    lemma_all_compiled(d, p8, w.ixs);
}

/// A lying count cannot be read: where more keys are declared than bytes are left
/// for, there is no message.
pub proof fn a_lying_count_is_refused(d: Seq<u8>)
    requires
        header_at(d) is Some,
        compact_at(d, header_at(d)->0 + 3) is Some,
        ({
            let (num_keys, k) = compact_at(d, header_at(d)->0 + 3)->0;
            k + 32 * num_keys > d.len()
        }),
    ensures
        message_of(d) is None,
{
}

/// The number that groups of seven bits write, the least significant first.
pub open spec fn seven_bits(bytes: Seq<u8>) -> nat
    decreases bytes.len(),
{
    if bytes.len() == 0 {
        0
    } else {
        (bytes[0] % 128) as nat + 128 * seven_bits(bytes.drop_first())
    }
}

/// Whether bytes are a `short_u16` that writes `v`: one to three of them, the high bit
/// set in all but the last, and a number that fits 16 bits.
pub open spec fn is_compact(bytes: Seq<u8>, v: nat) -> bool {
    &&& 1 <= bytes.len() <= 3
    &&& forall|i: int| 0 <= i < bytes.len() - 1 ==> #[trigger] bytes[i] >= 128
    &&& bytes.last() < 128
    &&& v == seven_bits(bytes)
    &&& v < 0x1_0000
}

/// A count is read wherever one is written, in every form it can be written in, and
/// nowhere else.
pub proof fn a_count_is_what_its_bytes_write(d: Seq<u8>, i: int, v: nat, j: int)
    ensures
        compact_at(d, i) == Some((v, j)) <==> 0 <= i < j <= d.len() && is_compact(
            d.subrange(i, j),
            v,
        ),
{
    reveal_with_fuel(seven_bits, 4);
    if 0 <= i < j <= d.len() && j <= i + 3 {
        let b = d.subrange(i, j);
        assert(b[0] == d[i]);
        assert(b.last() == d[j - 1]);
        if j == i + 1 {
            assert(b.drop_first() =~= Seq::<u8>::empty());
        } else if j == i + 2 {
            assert(b[1] == d[i + 1]);
            assert(b.drop_first().drop_first() =~= Seq::<u8>::empty());
            assert(b.drop_first()[0] == d[i + 1]);
        } else {
            assert(b[1] == d[i + 1]);
            assert(b[2] == d[i + 2]);
            assert(b.drop_first()[0] == d[i + 1]);
            assert(b.drop_first().drop_first()[0] == d[i + 2]);
            assert(b.drop_first().drop_first().drop_first() =~= Seq::<u8>::empty());
            assert(seven_bits(b) == (d[i] % 128) as nat + 128 * ((d[i + 1] % 128) as nat + 128 * (
            (d[i + 2] % 128) as nat)));
        }
    }
}

/// Where the message of a transaction ends.
spec fn end_of(d: Seq<u8>) -> int {
    let (num_keys, k) = compact_at(d, header_at(d)->0 + 3)->0;
    let (num_ix, x) = compact_at(d, k + 32 * num_keys + 32)->0;
    let (_, end) = all_compiled_at(d, x, num_ix)->0;
    end
}

/// A count within a front of the bytes is the count of the whole.
proof fn lemma_compact_front(d: Seq<u8>, n: int, i: int)
    requires
        0 <= n <= d.len(),
        compact_at(d.take(n), i) is Some,
    ensures
        compact_at(d, i) == compact_at(d.take(n), i),
        compact_at(d, i) matches Some((_, end)) && 0 <= i < end <= n,
{
}

/// Instructions within a front of the bytes are those of the whole.
proof fn lemma_compiled_front(d: Seq<u8>, n: int, i: int, m: nat)
    requires
        0 <= i <= n <= d.len(),
        all_compiled_at(d.take(n), i, m) is Some,
    ensures
        all_compiled_at(d, i, m) == all_compiled_at(d.take(n), i, m),
        all_compiled_at(d, i, m) matches Some((_, end)) && i <= end <= n,
    decreases m,
{
    let f = d.take(n);
    if m > 0 {
        lemma_compiled_front(d, n, i, (m - 1) as nat);
        let (before, j) = all_compiled_at(f, i, (m - 1) as nat)->0;
        let (ix, k) = compiled_at(f, j)->0;
        let (num_accs, a) = compact_at(f, j + 1)->0;
        let (data_len, b) = compact_at(f, a + num_accs)->0;
        lemma_compact_front(d, n, j + 1);
        lemma_compact_front(d, n, a + num_accs);
        assert(f.subrange(a, a + num_accs) =~= d.subrange(a, a + num_accs));
        assert(f.subrange(b, b + data_len) =~= d.subrange(b, b + data_len));
    }
}

/// A message within a front of the bytes is the message of the whole.
proof fn lemma_front(d: Seq<u8>, n: int)
    requires
        0 <= n <= d.len(),
        message_of(d.take(n)) is Some,
    ensures
        message_of(d) == message_of(d.take(n)),
        end_of(d) <= n,
{
    let f = d.take(n);
    lemma_compact_front(d, n, 0);
    let h = header_at(f)->0;
    assert(header_at(d) == Some(h));
    lemma_compact_front(d, n, h + 3);
    let (num_keys, k) = compact_at(f, h + 3)->0;
    lemma_compact_front(d, n, k + 32 * num_keys + 32);
    let (num_ix, x) = compact_at(f, k + 32 * num_keys + 32)->0;
    lemma_compiled_front(d, n, x, num_ix);
    assert forall|i: int| 0 <= i < num_keys implies keys_at(f, k, num_keys)[i] == keys_at(
        d,
        k,
        num_keys,
    )[i] by {
        assert(f.subrange(k + 32 * i, k + 32 * i + 32) =~= d.subrange(
            k + 32 * i,
            k + 32 * i + 32,
        ));
    }
    assert(keys_at(f, k, num_keys) =~= keys_at(d, k, num_keys));
}

/// What follows a message is not read: it changes nothing of the keys or the
/// instructions.
pub proof fn what_follows_is_not_read(d: Seq<u8>, rest: Seq<u8>)
    requires
        message_of(d) is Some,
    ensures
        message_of(d + rest) == message_of(d),
{
    assert((d + rest).take(d.len() as int) =~= d);
    lemma_front(d + rest, d.len() as int);
}

/// A transaction that is cut short is refused, wherever the cut is: there is no part
/// of a message.
pub proof fn a_cut_message_is_refused(w: WireTx, n: int)
    requires
        w.valid(),
        w.rest.len() == 0,
        0 <= n < w.wire().len(),
    ensures
        message_of(w.wire().take(n)) is None,
{
    let d = w.wire();
    if message_of(d.take(n)) is Some {
        lemma_front(d, n);
        lemma_end(w);
    }
}

/// A message of another version than v0 is refused, whatever it holds.
pub proof fn an_unknown_version_is_refused(
    num_sigs: nat,
    signatures: Seq<u8>,
    version: u8,
    rest: Seq<u8>,
)
    requires
        num_sigs < 0x1_0000,
        signatures.len() == 64 * num_sigs,
        version > 128,
    ensures
        message_of(compact(num_sigs) + (signatures + (seq![version] + rest))) is None,
{
    let tail = signatures + (seq![version] + rest);
    let d = compact(num_sigs) + tail;
    assert(d.subrange(0, d.len() as int) =~= d);
    assert(lies_at(d, 0, compact(num_sigs) + tail));
    lemma_split(d, 0, compact(num_sigs), tail);
    lemma_compact(d, 0, num_sigs);
    let p = compact(num_sigs).len() as int;
    lemma_split(d, p, signatures, seq![version] + rest);
    lemma_split(d, p + signatures.len(), seq![version], rest);
    lemma_byte(d, p + signatures.len(), seq![version], 0);
}

} // verus!
