//! The wire form of a transaction: static account keys and top-level compiled
//! instructions.
//!
//! Every read is bounds-checked. A malformed message yields `None`, never a part
//! of one.

use crate::bytes::{array32, Address};
use crate::recognize::addresses;
use vstd::prelude::*;
use vstd::slice::{slice_subrange, slice_to_vec};

verus! {

/// A top-level compiled instruction decoded straight from the message wire form.
pub struct RawCompiled {
    pub program_id_index: u8,
    pub accounts: Vec<u8>,
    pub data: Vec<u8>,
}

/// What a compiled instruction says.
#[verifier::ext_equal]
pub struct RawCompiledSpec {
    pub program_id_index: u8,
    pub accounts: Seq<u8>,
    pub data: Seq<u8>,
}

impl View for RawCompiled {
    type V = RawCompiledSpec;

    open spec fn view(&self) -> RawCompiledSpec {
        RawCompiledSpec {
            program_id_index: self.program_id_index,
            accounts: self.accounts@,
            data: self.data@,
        }
    }
}

/// A list of compiled instructions as what they say.
pub open spec fn compiled_listed(v: Seq<RawCompiled>) -> Seq<RawCompiledSpec> {
    Seq::new(v.len(), |i: int| v[i]@)
}

/// The `short_u16` at `i` and where it ends: 1–3 bytes, 7 bits each, the least
/// significant first, the high bit set where more follow.
pub open spec fn compact_at(d: Seq<u8>, i: int) -> Option<(nat, int)> {
    if !(0 <= i < d.len()) {
        None
    } else if d[i] < 128 {
        Some((d[i] as nat, i + 1))
    } else if i + 1 >= d.len() {
        None
    } else if d[i + 1] < 128 {
        Some(((d[i] % 128 + d[i + 1] * 128) as nat, i + 2))
    } else if i + 2 >= d.len() || d[i + 2] >= 4 {
        None
    } else {
        Some(((d[i] % 128 + (d[i + 1] % 128) * 128 + d[i + 2] * 16384) as nat, i + 3))
    }
}

/// The compiled instruction at `i` and where it ends.
pub open spec fn compiled_at(d: Seq<u8>, i: int) -> Option<(RawCompiledSpec, int)> {
    match compact_at(d, i + 1) {
        Some((num_accs, a)) => match compact_at(d, a + num_accs) {
            Some((data_len, b)) if b + data_len <= d.len() => Some(
                (
                    RawCompiledSpec {
                        program_id_index: d[i],
                        accounts: d.subrange(a, a + num_accs),
                        data: d.subrange(b, b + data_len),
                    },
                    b + data_len,
                ),
            ),
            _ => None,
        },
        None => None,
    }
}

/// `n` compiled instructions from `i` on, and where they end.
pub open spec fn all_compiled_at(d: Seq<u8>, i: int, n: nat) -> Option<(Seq<RawCompiledSpec>, int)>
    decreases n,
{
    if n == 0 {
        Some((Seq::empty(), i))
    } else {
        match all_compiled_at(d, i, (n - 1) as nat) {
            Some((before, j)) => match compiled_at(d, j) {
                Some((ix, k)) => Some((before.push(ix), k)),
                None => None,
            },
            None => None,
        }
    }
}

/// Where the message starts, behind the signatures and the version prefix: only
/// legacy and v0 messages are known.
pub open spec fn header_at(d: Seq<u8>) -> Option<int> {
    match compact_at(d, 0) {
        Some((num_sigs, i)) => {
            let first = i + 64 * num_sigs;
            if first >= d.len() || d[first] > 128 {
                None
            } else if d[first] == 128 {
                Some(first + 1)
            } else {
                Some(first)
            }
        },
        None => None,
    }
}

/// `n` keys from `i` on.
pub open spec fn keys_at(d: Seq<u8>, i: int, n: nat) -> Seq<Seq<u8>> {
    Seq::new(n, |k: int| d.subrange(i + 32 * k, i + 32 * k + 32))
}

/// The static account keys and the top-level instructions of a transaction.
/// What follows the instructions is not read.
pub open spec fn message_of(d: Seq<u8>) -> Option<(Seq<Seq<u8>>, Seq<RawCompiledSpec>)> {
    match header_at(d) {
        Some(h) => match compact_at(d, h + 3) {
            Some((num_keys, k)) => match compact_at(d, k + 32 * num_keys + 32) {
                Some((num_ix, x)) => match all_compiled_at(d, x, num_ix) {
                    Some((ixs, _)) => Some((keys_at(d, k, num_keys), ixs)),
                    None => None,
                },
                None => None,
            },
            None => None,
        },
        None => None,
    }
}

/// A bounds-checked forward cursor over the transaction bytes.
pub struct Cur<'a> {
    d: &'a [u8],
    i: usize,
}

impl<'a> Cur<'a> {
    /// The bytes walked over.
    pub closed spec fn bytes(&self) -> Seq<u8> {
        self.d@
    }

    /// How many of them are read.
    pub closed spec fn at(&self) -> int {
        self.i as int
    }

    /// Whether the cursor is within the bytes.
    pub open spec fn wf(&self) -> bool {
        0 <= self.at() <= self.bytes().len() <= usize::MAX
    }

    /// A cursor at the front.
    pub fn new(d: &'a [u8]) -> (r: Self)
        ensures
            r.wf(),
            r.bytes() == d@,
            r.at() == 0,
    {
        let r = Cur { d, i: 0 };
        assert(d.len() == d@.len());
        r
    }

    /// Bytes still unread: an upper bound on how much any following field can
    /// hold, used to cap an allocation by what is there to fill it.
    pub fn remaining(&self) -> (r: usize)
        requires
            self.wf(),
        ensures
            r == self.bytes().len() - self.at(),
    {
        self.d.len().saturating_sub(self.i)
    }

    /// The next byte, if there is one, without reading past it.
    fn peek(&self) -> (r: Option<u8>)
        requires
            self.wf(),
        ensures
            r is Some <==> self.at() < self.bytes().len(),
            r matches Some(b) ==> b == self.bytes()[self.at()],
    {
        if self.i < self.d.len() {
            Some(self.d[self.i])
        } else {
            None
        }
    }

    /// Read one byte.
    pub fn u8(&mut self) -> (r: Option<u8>)
        requires
            old(self).wf(),
        ensures
            final(self).wf(),
            final(self).bytes() == old(self).bytes(),
            (match r {
                Some(b) => old(self).at() < old(self).bytes().len() && b == old(
                    self,
                ).bytes()[old(self).at()] && final(self).at() == old(self).at() + 1,
                None => old(self).at() == old(self).bytes().len() && final(self).at() == old(
                    self,
                ).at(),
            }),
    {
        if self.i < self.d.len() {
            let b = self.d[self.i];
            self.i = self.i + 1;
            Some(b)
        } else {
            None
        }
    }

    /// Read `n` bytes.
    pub fn take(&mut self, n: usize) -> (r: Option<&'a [u8]>)
        requires
            old(self).wf(),
        ensures
            final(self).wf(),
            final(self).bytes() == old(self).bytes(),
            (match r {
                Some(s) => old(self).at() + n <= old(self).bytes().len() && s@ == old(
                    self,
                ).bytes().subrange(old(self).at(), old(self).at() + n) && final(self).at() == old(
                    self,
                ).at() + n,
                None => old(self).at() + n > old(self).bytes().len() && final(self).at() == old(
                    self,
                ).at(),
            }),
    {
        if n > self.d.len() - self.i {
            return None;
        }
        let end: usize = self.i + n;
        let s = slice_subrange(self.d, self.i, end);
        self.i = end;
        Some(s)
    }

    /// Read a 32-byte field.
    pub fn arr32(&mut self) -> (r: Option<Address>)
        requires
            old(self).wf(),
        ensures
            final(self).wf(),
            final(self).bytes() == old(self).bytes(),
            (match r {
                Some(a) => old(self).at() + 32 <= old(self).bytes().len() && a@ == old(
                    self,
                ).bytes().subrange(old(self).at(), old(self).at() + 32) && final(self).at() == old(
                    self,
                ).at() + 32,
                None => old(self).at() + 32 > old(self).bytes().len() && final(self).at() == old(
                    self,
                ).at(),
            }),
    {
        match self.take(32) {
            Some(s) => array32(s),
            None => None,
        }
    }

    /// Solana `short_u16`: 1–3 bytes, 7 bits each, LSB first, high bit = more.
    pub fn compact_u16(&mut self) -> (r: Option<usize>)
        requires
            old(self).wf(),
        ensures
            final(self).wf(),
            final(self).bytes() == old(self).bytes(),
            (match r {
                Some(v) => compact_at(old(self).bytes(), old(self).at()) == Some(
                    (v as nat, final(self).at()),
                ) && v <= 0xffff,
                // What could be read of it is read.
                None => compact_at(old(self).bytes(), old(self).at()) is None && final(self).at()
                    == if old(self).at() + 3 <= old(self).bytes().len() {
                    old(self).at() + 3
                } else {
                    old(self).bytes().len() as int
                },
            }),
    {
        let mut val: u32 = 0;
        let mut shift: u32 = 0;
        let ghost start = self.at();
        let ghost d = self.bytes();
        loop
            invariant_except_break
                self.wf(),
                self.bytes() == d,
                d == old(self).bytes(),
                start == old(self).at(),
                0 <= start,
                shift == 0 || shift == 7 || shift == 14,
                shift == 0 ==> self.at() == start && val == 0,
                shift == 7 ==> self.at() == start + 1 && d[start] >= 128 && val == d[start] % 128,
                shift == 14 ==> self.at() == start + 2 && d[start] >= 128 && d[start + 1] >= 128
                    && val == d[start] % 128 + (d[start + 1] % 128) * 128,
                val < 0x4000,
            ensures
                self.wf(),
                self.bytes() == d,
                val <= 0xffff ==> compact_at(d, start) == Some((val as nat, self.at())),
                val > 0xffff ==> compact_at(d, start) is None && self.at() == start + 3,
            decreases 21 - shift,
        {
            let b = match self.u8() {
                Some(b) => b,
                None => {
                    return None;
                },
            };
            let low: u32 = (b & 0x7f) as u32;
            assert(b & 0x7f == b % 128) by (bit_vector);
            assert((b & 0x80 == 0) == (b < 128)) by (bit_vector);
            assert(low << 0 == low && low << 7 == low * 128 && low << 14 == low * 16384)
                by (bit_vector)
                requires
                    low < 128,
            ;
            val = val + (low << shift);
            if b & 0x80 == 0 {
                break;
            }
            shift = shift + 7;
            if shift >= 21 {
                return None;  // a u16 fits in at most 3 bytes
            }
        }
        if val > 0xffff {
            return None;
        }
        Some(val as usize)
    }

    /// Read a compiled instruction: program-id index, account indices, data.
    fn compiled(&mut self) -> (r: Option<RawCompiled>)
        requires
            old(self).wf(),
        ensures
            final(self).wf(),
            final(self).bytes() == old(self).bytes(),
            (match r {
                Some(ix) => compiled_at(old(self).bytes(), old(self).at()) == Some(
                    (ix@, final(self).at()),
                ),
                None => compiled_at(old(self).bytes(), old(self).at()) is None,
            }),
    {
        let program_id_index = match self.u8() {
            Some(b) => b,
            None => {
                return None;
            },
        };
        let accounts = match self.compact_u16() {
            Some(num_accs) => match self.take(num_accs) {
                Some(s) => slice_to_vec(s),
                None => {
                    return None;
                },
            },
            None => {
                return None;
            },
        };
        let data = match self.compact_u16() {
            Some(data_len) => match self.take(data_len) {
                Some(s) => slice_to_vec(s),
                None => {
                    return None;
                },
            },
            None => {
                return None;
            },
        };
        Some(RawCompiled { program_id_index, accounts, data })
    }
}

/// Where some of the instructions cannot be read, more cannot either.
proof fn lemma_all_compiled_none(d: Seq<u8>, i: int, m: nat, n: nat)
    requires
        m <= n,
        all_compiled_at(d, i, m) is None,
    ensures
        all_compiled_at(d, i, n) is None,
    decreases n,
{
    if m < n {
        lemma_all_compiled_none(d, i, m, (n - 1) as nat);
    }
}

/// The smaller of a declared count and a bound.
fn at_most(count: usize, bound: usize) -> (r: usize)
    ensures
        r == if count <= bound {
            count
        } else {
            bound
        },
{
    if count <= bound {
        count
    } else {
        bound
    }
}

/// Decode a transaction message: static account keys + top-level instructions.
/// Handles legacy and v0 (versioned) messages; v0 address-table lookups are
/// skipped here — the resolved addresses arrive beside the message.
pub fn parse_message(raw: &[u8]) -> (r: Option<(Vec<Address>, Vec<RawCompiled>)>)
    ensures
        (match r {
            Some((keys, ixs)) => message_of(raw@) == Some(
                (addresses(keys@), compiled_listed(ixs@)),
            ),
            None => message_of(raw@) is None,
        }),
{
    let mut c = Cur::new(raw);
    let ghost d = raw@;

    // Signatures: a compact-array of 64-byte signatures (skipped).
    let num_sigs = match c.compact_u16() {
        Some(n) => n,
        None => {
            return None;
        },
    };
    if c.take(num_sigs * 64).is_none() {
        return None;
    }
    // Version prefix: high bit set means versioned; only v0 is supported.
    let first = match c.peek() {
        Some(b) => b,
        None => {
            return None;
        },
    };
    assert((first & 0x80 != 0) == (first >= 128) && (first & 0x7f != 0) == (first % 128 != 0))
        by (bit_vector);
    if first & 0x80 != 0 {
        if first & 0x7f != 0 {
            return None;  // unknown message version
        }
        if c.u8().is_none() {
            return None;
        }
    }
    assert(header_at(d) == Some(c.at()));
    // Header: numRequiredSignatures, numReadonlySigned, numReadonlyUnsigned.
    if c.take(3).is_none() {
        return None;
    }
    // Static account keys. The allocation is capped by the bytes actually left
    // (32 per key): a declared count larger than the buffer just fails the read
    // below — it must not size an allocation first.
    let num_keys = match c.compact_u16() {
        Some(n) => n,
        None => {
            return None;
        },
    };
    let ghost k = c.at();
    let mut keys: Vec<Address> = Vec::with_capacity(at_most(num_keys, c.remaining() / 32));
    let mut n: usize = 0;
    while n < num_keys
        invariant
            n <= num_keys,
            c.wf(),
            c.bytes() == d,
            d == raw@,
            0 <= k,
            c.at() == k + 32 * n,
            header_at(d) is Some,
            compact_at(d, header_at(d)->0 + 3) == Some((num_keys as nat, k)),
            keys@.len() == n,
            forall|j: int|
                0 <= j < n ==> (#[trigger] keys@[j])@ == d.subrange(k + 32 * j, k + 32 * j + 32),
        decreases num_keys - n,
    {
        match c.arr32() {
            Some(a) => {
                keys.push(a);
            },
            None => {
                return None;
            },
        }
        n += 1;
    }
    assert(addresses(keys@) =~= keys_at(d, k, num_keys as nat));
    // Recent blockhash (skipped).
    if c.take(32).is_none() {
        return None;
    }
    // Compiled instructions. Each costs at least 3 bytes on the wire (program-id
    // index, an account count, a data length): the same cap as on the key list.
    let num_ix = match c.compact_u16() {
        Some(n) => n,
        None => {
            return None;
        },
    };
    let ghost x = c.at();
    let mut ixs: Vec<RawCompiled> = Vec::with_capacity(at_most(num_ix, c.remaining() / 3));
    let mut m: usize = 0;
    assert(compiled_listed(ixs@) =~= Seq::empty());
    while m < num_ix
        invariant
            m <= num_ix,
            c.wf(),
            c.bytes() == d,
            d == raw@,
            header_at(d) is Some,
            compact_at(d, header_at(d)->0 + 3) == Some((num_keys as nat, k)),
            compact_at(d, k + 32 * num_keys + 32) == Some((num_ix as nat, x)),
            all_compiled_at(d, x, m as nat) == Some((compiled_listed(ixs@), c.at())),
        decreases num_ix - m,
    {
        let ghost before = ixs@;
        match c.compiled() {
            Some(ix) => {
                ixs.push(ix);
                assert(compiled_listed(ixs@) =~= compiled_listed(before).push(ix@));
            },
            None => {
                proof {
                    lemma_all_compiled_none(d, x, (m + 1) as nat, num_ix as nat);
                }
                return None;
            },
        }
        m += 1;
    }
    Some((keys, ixs))
}

} // verus!
