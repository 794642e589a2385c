//! Parsing: a `getTransaction` reply → the recognition view of a transaction.
//!
//! The reply carries the transaction two ways: the raw binary (base58 text) of
//! the *message* — from which the account keys and the top-level instructions are
//! decoded — and the inner (CPI) instructions, already in compiled form. Compiled
//! instructions index into the account-key list (static keys ‖ loaded writable ‖
//! loaded readonly); the indices are resolved to pubkeys, so that recognition sees
//! real programs and accounts.
//!
//! A malformed or failed transaction yields `None` — never a partial fold.

use crate::base58::{base58_bytes, decode_base58};
use crate::bytes::{array32, Address};
use crate::message::{compiled_listed, message_of, parse_message, RawCompiled, RawCompiledSpec};
use crate::recognize::{addresses, instructions, Instr, InstrSpec, Tx, TxSpec};
use vstd::prelude::*;
use vstd::slice::slice_to_vec;

verus! {

// ----- the reply, as far as recognition needs it -----

/// Aggregated `getTransaction` result across providers (consensus).
#[derive(Clone, Debug)]
pub enum MultiGetTransactionResult {
    Consistent(GetTransactionResult),
    Inconsistent(Vec<GetTransactionResult>),
}

/// One provider's `getTransaction` result (`Success(None)` = signature not
/// found).
#[derive(Clone, Debug)]
pub enum GetTransactionResult {
    Success(Option<TransactionReply>),
    Failure,
}

/// The slot plus the encoded transaction.
#[derive(Clone, Debug)]
pub struct TransactionReply {
    pub slot: u64,
    pub transaction: EncodedTxWithMeta,
}

#[derive(Clone, Debug)]
pub struct EncodedTxWithMeta {
    pub meta: Option<TxMeta>,
    pub transaction: EncodedTransaction,
}

#[derive(Clone, Debug)]
pub enum EncodedTransaction {
    Binary(String, Encoding),
    LegacyBinary(String),
}

#[derive(Clone, Copy, Debug)]
pub enum Encoding {
    Base58,
    Base64,
}

#[derive(Clone, Debug)]
pub struct TxMeta {
    pub status: TxStatus,
    pub inner_instructions: Option<Vec<InnerInstructions>>,
    pub loaded_addresses: Option<LoadedAddresses>,
}

/// Only the success/failure distinction matters — a reverted tx moved nothing.
#[derive(Clone, Copy, Debug)]
pub enum TxStatus {
    Success,
    Failure,
}

#[derive(Clone, Debug)]
pub struct InnerInstructions {
    pub instructions: Vec<Instruction>,
    pub index: u8,
}

#[derive(Clone, Debug)]
pub enum Instruction {
    Compiled(CompiledInstruction),
}

#[derive(Clone, Debug)]
pub struct CompiledInstruction {
    /// In base58.
    pub data: String,
    pub accounts: Vec<u8>,
    pub program_id_index: u8,
    pub stack_height: Option<u32>,
}

#[derive(Clone, Debug)]
pub struct LoadedAddresses {
    pub writable: Vec<String>,
    pub readonly: Vec<String>,
}

/// How a transaction that could be read ended.
#[derive(Clone, Debug)]
pub enum Parsed {
    /// It executed: this is what it did.
    Executed(Tx),
    /// The chain says it reverted: it moved nothing and never will.
    Reverted,
}

// ----- what a reply says -----

/// What `f` makes of every item, where it makes something of each.
pub open spec fn each<A, B>(s: Seq<A>, f: spec_fn(A) -> Option<B>) -> Option<Seq<B>> {
    if forall|i: int| 0 <= i < s.len() ==> f(#[trigger] s[i]) is Some {
        Some(Seq::new(s.len(), |i: int| f(s[i])->0))
    } else {
        None
    }
}

/// The account key that a base58 text stands for.
pub open spec fn pubkey_of(text: Seq<char>) -> Option<Seq<u8>> {
    match base58_bytes(text) {
        Some(b) if b.len() == 32 => Some(b),
        _ => None,
    }
}

/// The bytes of an encoded transaction. Only base58 is requested, so nothing else
/// is read.
pub open spec fn binary_of(t: EncodedTransaction) -> Option<Seq<u8>> {
    match t {
        EncodedTransaction::Binary(text, Encoding::Base58) => base58_bytes(text@),
        EncodedTransaction::LegacyBinary(text) => base58_bytes(text@),
        EncodedTransaction::Binary(_, Encoding::Base64) => None,
    }
}

/// A compiled instruction with its indices resolved.
pub open spec fn resolved(
    program_id_index: u8,
    accounts: Seq<u8>,
    data: Seq<u8>,
    keys: Seq<Seq<u8>>,
) -> Option<InstrSpec> {
    let all = each(
        accounts,
        |i: u8|
            if i < keys.len() {
                Some(keys[i as int])
            } else {
                None
            },
    );
    match all {
        Some(a) if program_id_index < keys.len() => Some(
            InstrSpec { program: keys[program_id_index as int], accounts: a, data },
        ),
        _ => None,
    }
}

/// The loaded addresses: the writable ones, then the readonly ones.
pub open spec fn loaded_of(meta: TxMeta) -> Option<Seq<Seq<u8>>> {
    match meta.loaded_addresses {
        Some(la) => each(la.writable@ + la.readonly@, |s: String| pubkey_of(s@)),
        None => Some(Seq::empty()),
    }
}

/// The compiled instructions of inner groups, in their order.
pub open spec fn inner_of(groups: Seq<InnerInstructions>) -> Seq<Instruction>
    decreases groups.len(),
{
    if groups.len() == 0 {
        Seq::empty()
    } else {
        inner_of(groups.drop_last()) + groups.last().instructions@
    }
}

/// The inner instructions of a reply, in their order.
pub open spec fn all_inner_of(meta: TxMeta) -> Seq<Instruction> {
    match meta.inner_instructions {
        Some(groups) => inner_of(groups@),
        None => Seq::empty(),
    }
}

/// An inner instruction with its data decoded and its indices resolved.
pub open spec fn inner_resolved(i: Instruction, keys: Seq<Seq<u8>>) -> Option<InstrSpec> {
    match i {
        Instruction::Compiled(ci) => match base58_bytes(ci.data@) {
            Some(data) => resolved(ci.program_id_index, ci.accounts@, data, keys),
            None => None,
        },
    }
}

/// The instructions of an executed transaction, given its binary: the top-level
/// ones, then the inner ones, resolved against the static and the loaded keys.
pub open spec fn instructions_of(raw: Seq<u8>, meta: TxMeta) -> Option<Seq<InstrSpec>> {
    match (message_of(raw), loaded_of(meta)) {
        (Some((fixed, top)), Some(loaded)) => {
            let keys = fixed + loaded;
            let outer = each(
                top,
                |ix: RawCompiledSpec| resolved(ix.program_id_index, ix.accounts, ix.data, keys),
            );
            let inner = each(all_inner_of(meta), |i: Instruction| inner_resolved(i, keys));
            match (outer, inner) {
                (Some(a), Some(b)) => Some(a + b),
                _ => None,
            }
        },
        _ => None,
    }
}

/// What an executed transaction did, where the reply can be read.
pub open spec fn parse_of(reply: TransactionReply) -> Option<TxSpec> {
    match reply.transaction.meta {
        Some(meta) => match binary_of(reply.transaction.transaction) {
            Some(raw) if meta.status is Success => match instructions_of(raw, meta) {
                Some(instrs) => Some(TxSpec { instrs, slot: reply.slot }),
                None => None,
            },
            _ => None,
        },
        None => None,
    }
}

// ----- consensus + parse -----

/// Take the transaction only under provider consensus (`Consistent` + `Success` +
/// present). `Inconsistent`, an error, or a not-found signature yields `None`.
pub fn pick_consistent(result: MultiGetTransactionResult) -> (r: Option<TransactionReply>)
    ensures
        (match result {
            MultiGetTransactionResult::Consistent(GetTransactionResult::Success(reply)) => r == reply,
            _ => r is None,
        }),
{
    match result {
        MultiGetTransactionResult::Consistent(GetTransactionResult::Success(reply)) => reply,
        _ => None,
    }
}

/// Base58 pubkey text → 32 bytes.
pub fn decode_pubkey(s: &str) -> (r: Option<Address>)
    ensures
        (match r {
            Some(a) => pubkey_of(s@) == Some(a@),
            None => pubkey_of(s@) is None,
        }),
{
    match decode_base58(s) {
        Some(v) => array32(v.as_slice()),
        None => None,
    }
}

/// Decode the transaction binary. Base58 is what is requested; base64 is
/// unsupported and yields `None`.
pub fn decode_binary(t: &EncodedTransaction) -> (r: Option<Vec<u8>>)
    ensures
        (match r {
            Some(b) => binary_of(*t) == Some(b@),
            None => binary_of(*t) is None,
        }),
{
    match t {
        EncodedTransaction::Binary(text, Encoding::Base58) => decode_base58(text.as_str()),
        EncodedTransaction::LegacyBinary(text) => decode_base58(text.as_str()),
        EncodedTransaction::Binary(_, Encoding::Base64) => None,
    }
}

/// Resolve a compiled instruction's program/account indices to pubkeys.
pub fn resolve(
    program_id_index: u8,
    accounts: &[u8],
    data: Vec<u8>,
    keys: &Vec<Address>,
) -> (r: Option<Instr>)
    ensures
        (match r {
            Some(i) => resolved(program_id_index, accounts@, data@, addresses(keys@)) == Some(i@),
            None => resolved(program_id_index, accounts@, data@, addresses(keys@)) is None,
        }),
{
    let p: usize = program_id_index as usize;
    if p >= keys.len() {
        return None;
    }
    let ghost f = |i: u8|
        if i < addresses(keys@).len() {
            Some(addresses(keys@)[i as int])
        } else {
            None
        };
    let mut found: Vec<Address> = Vec::with_capacity(accounts.len());
    let mut n: usize = 0;
    while n < accounts.len()
        invariant
            n <= accounts@.len(),
            found@.len() == n,
            f == (|i: u8|
                if i < addresses(keys@).len() {
                    Some(addresses(keys@)[i as int])
                } else {
                    None
                }),
            forall|k: int| 0 <= k < n ==> f(#[trigger] accounts@[k]) == Some(found@[k]@),
        decreases accounts@.len() - n,
    {
        let i: usize = accounts[n] as usize;
        if i >= keys.len() {
            assert(f(accounts@[n as int]) is None);
            return None;
        }
        found.push(keys[i]);
        assert(f(accounts@[n as int]) == Some(found@[n as int]@));
        n += 1;
    }
    let instr = Instr { program: keys[p], accounts: found, data };
    assert(each(accounts@, f) == Some(addresses(found@))) by {
        assert(each(accounts@, f)->0 =~= addresses(found@));
    }
    Some(instr)
}

/// Something is made of every item of two sequences where it is of each.
proof fn lemma_each_add<A, B>(s: Seq<A>, t: Seq<A>, f: spec_fn(A) -> Option<B>)
    ensures
        each(s + t, f) is Some <==> each(s, f) is Some && each(t, f) is Some,
        each(s + t, f) is Some ==> each(s + t, f)->0 == each(s, f)->0 + each(t, f)->0,
{
    let st = s + t;
    if each(st, f) is Some {
        assert forall|i: int| 0 <= i < s.len() implies f(#[trigger] s[i]) is Some by {
            assert(st[i] == s[i]);
        }
        assert forall|i: int| 0 <= i < t.len() implies f(#[trigger] t[i]) is Some by {
            assert(st[i + s.len()] == t[i]);
        }
        assert(each(st, f)->0 =~= each(s, f)->0 + each(t, f)->0);
    } else if each(s, f) is Some && each(t, f) is Some {
        assert forall|i: int| 0 <= i < st.len() implies f(#[trigger] st[i]) is Some by {
            if i < s.len() {
                assert(f(s[i]) is Some);
            } else {
                assert(f(t[i - s.len()]) is Some);
            }
        }
    }
}

/// The inner instructions of some groups come before those of the rest.
proof fn lemma_inner_split(groups: Seq<InnerInstructions>, n: int)
    requires
        0 <= n <= groups.len(),
    ensures
        inner_of(groups) == inner_of(groups.take(n)) + inner_of(groups.skip(n)),
    decreases groups.len(),
{
    if n == groups.len() {
        assert(groups.take(n) =~= groups);
        assert(groups.skip(n) =~= Seq::empty());
        assert(inner_of(groups) =~= inner_of(groups) + Seq::<Instruction>::empty());
    } else {
        let before = groups.drop_last();
        lemma_inner_split(before, n);
        assert(before.take(n) =~= groups.take(n));
        assert(groups.skip(n).drop_last() =~= before.skip(n));
        assert(groups.skip(n).last() == groups.last());
        assert(inner_of(groups) =~= inner_of(groups.take(n)) + inner_of(groups.skip(n)));
    }
}

/// Append the keys that base58 texts stand for. `false` if one stands for none.
fn push_keys(keys: &mut Vec<Address>, texts: &Vec<String>) -> (r: bool)
    ensures
        r <==> each(texts@, |s: String| pubkey_of(s@)) is Some,
        r ==> addresses(final(keys)@) == addresses(old(keys)@) + each(
            texts@,
            |s: String| pubkey_of(s@),
        )->0,
{
    let ghost f = |s: String| pubkey_of(s@);
    let ghost start = keys@;
    let mut n: usize = 0;
    while n < texts.len()
        invariant
            n <= texts@.len(),
            f == (|s: String| pubkey_of(s@)),
            keys@.len() == start.len() + n,
            forall|k: int| 0 <= k < start.len() ==> keys@[k] == start[k],
            forall|k: int|
                0 <= k < n ==> f(#[trigger] texts@[k]) == Some(keys@[start.len() + k]@),
        decreases texts@.len() - n,
    {
        match decode_pubkey(texts[n].as_str()) {
            Some(a) => {
                keys.push(a);
            },
            None => {
                assert(f(texts@[n as int]) is None);
                return false;
            },
        }
        n += 1;
    }
    assert(addresses(keys@) =~= addresses(start) + each(texts@, f)->0);
    true
}

/// Resolve the top-level instructions.
fn resolve_top(top: &Vec<RawCompiled>, keys: &Vec<Address>) -> (r: Option<Vec<Instr>>)
    ensures
        ({
            let all = each(
                compiled_listed(top@),
                |ix: RawCompiledSpec|
                    resolved(ix.program_id_index, ix.accounts, ix.data, addresses(keys@)),
            );
            match r {
                Some(v) => all == Some(instructions(v@)),
                None => all is None,
            }
        }),
{
    let ghost f = |ix: RawCompiledSpec|
        resolved(ix.program_id_index, ix.accounts, ix.data, addresses(keys@));
    let mut instrs: Vec<Instr> = Vec::with_capacity(top.len());
    let mut n: usize = 0;
    while n < top.len()
        invariant
            n <= top@.len(),
            f == (|ix: RawCompiledSpec|
                resolved(ix.program_id_index, ix.accounts, ix.data, addresses(keys@))),
            instrs@.len() == n,
            forall|k: int|
                0 <= k < n ==> f(#[trigger] compiled_listed(top@)[k]) == Some(instrs@[k]@),
        decreases top@.len() - n,
    {
        let ci = &top[n];
        let data = slice_to_vec(ci.data.as_slice());
        assert(compiled_listed(top@)[n as int] == ci@);
        match resolve(ci.program_id_index, ci.accounts.as_slice(), data, keys) {
            Some(i) => {
                instrs.push(i);
            },
            None => {
                assert(f(compiled_listed(top@)[n as int]) is None);
                return None;
            },
        }
        n += 1;
    }
    assert(each(compiled_listed(top@), f)->0 =~= instructions(instrs@));
    Some(instrs)
}

/// Append the inner instructions of one group, decoded and resolved. `false` if
/// one cannot be.
fn push_group(instrs: &mut Vec<Instr>, list: &Vec<Instruction>, keys: &Vec<Address>) -> (r: bool)
    ensures
        r <==> each(list@, |i: Instruction| inner_resolved(i, addresses(keys@))) is Some,
        r ==> instructions(final(instrs)@) == instructions(old(instrs)@) + each(
            list@,
            |i: Instruction| inner_resolved(i, addresses(keys@)),
        )->0,
{
    let ghost f = |i: Instruction| inner_resolved(i, addresses(keys@));
    let ghost start = instrs@;
    let mut n: usize = 0;
    while n < list.len()
        invariant
            n <= list@.len(),
            f == (|i: Instruction| inner_resolved(i, addresses(keys@))),
            instrs@.len() == start.len() + n,
            forall|k: int| 0 <= k < start.len() ==> instrs@[k] == start[k],
            forall|k: int|
                0 <= k < n ==> f(#[trigger] list@[k]) == Some(instrs@[start.len() + k]@),
        decreases list@.len() - n,
    {
        let Instruction::Compiled(ci) = &list[n];
        let found = match decode_base58(ci.data.as_str()) {
            Some(data) => resolve(ci.program_id_index, ci.accounts.as_slice(), data, keys),
            None => None,
        };
        match found {
            Some(i) => {
                instrs.push(i);
            },
            None => {
                assert(f(list@[n as int]) is None);
                return false;
            },
        }
        n += 1;
    }
    assert(instructions(instrs@) =~= instructions(start) + each(list@, f)->0);
    true
}

/// Append the inner instructions of all groups. `false` if one cannot be decoded
/// or resolved.
fn push_inner(instrs: &mut Vec<Instr>, groups: &Vec<InnerInstructions>, keys: &Vec<Address>) -> (r:
    bool)
    ensures
        r <==> each(inner_of(groups@), |i: Instruction| inner_resolved(i, addresses(keys@)))
            is Some,
        r ==> instructions(final(instrs)@) == instructions(old(instrs)@) + each(
            inner_of(groups@),
            |i: Instruction| inner_resolved(i, addresses(keys@)),
        )->0,
{
    let ghost f = |i: Instruction| inner_resolved(i, addresses(keys@));
    let ghost start = instructions(instrs@);
    let mut n: usize = 0;
    assert(inner_of(groups@.take(0)) =~= Seq::empty());
    assert(each(inner_of(groups@.take(0)), f) is Some);
    assert(start =~= start + each(inner_of(groups@.take(0)), f)->0);
    while n < groups.len()
        invariant
            n <= groups@.len(),
            f == (|i: Instruction| inner_resolved(i, addresses(keys@))),
            each(inner_of(groups@.take(n as int)), f) is Some,
            instructions(instrs@) == start + each(inner_of(groups@.take(n as int)), f)->0,
        decreases groups@.len() - n,
    {
        let ghost done = inner_of(groups@.take(n as int));
        let ghost group = groups@[n as int].instructions@;
        proof {
            let next = groups@.take(n + 1);
            assert(next.drop_last() =~= groups@.take(n as int));
            assert(next.last() == groups@[n as int]);
            lemma_each_add(done, group, f);
            lemma_inner_split(groups@, n + 1);
            lemma_each_add(inner_of(next), inner_of(groups@.skip(n + 1)), f);
        }
        if !push_group(instrs, &groups[n].instructions, keys) {
            return false;
        }
        assert(instructions(instrs@) =~= start + (each(done, f)->0 + each(group, f)->0));
        n += 1;
    }
    assert(groups@.take(n as int) =~= groups@);
    true
}

/// Map the binary of an executed transaction and its meta to its instructions, or
/// `None` if they can't be read.
pub fn assemble(raw: &[u8], meta: &TxMeta) -> (r: Option<Vec<Instr>>)
    ensures
        (match r {
            Some(v) => instructions_of(raw@, *meta) == Some(instructions(v@)),
            None => instructions_of(raw@, *meta) is None,
        }),
{
    let (mut keys, top_level) = match parse_message(raw) {
        Some(m) => m,
        None => {
            return None;
        },
    };
    let ghost fixed = addresses(keys@);
    // Full key list = static ‖ loaded writable ‖ loaded readonly (v0 lookups).
    if let Some(la) = &meta.loaded_addresses {
        proof {
            lemma_each_add(la.writable@, la.readonly@, |s: String| pubkey_of(s@));
        }
        if !push_keys(&mut keys, &la.writable) {
            return None;
        }
        if !push_keys(&mut keys, &la.readonly) {
            return None;
        }
    }
    assert(loaded_of(*meta) is Some);
    assert(addresses(keys@) =~= fixed + loaded_of(*meta)->0);
    let mut instrs = match resolve_top(&top_level, &keys) {
        Some(v) => v,
        None => {
            return None;
        },
    };
    let ghost outer = instructions(instrs@);
    // Inner (CPI) instructions carry the `Settled` event-CPI and the transfers.
    let ghost f = |i: Instruction| inner_resolved(i, addresses(keys@));
    if let Some(groups) = &meta.inner_instructions {
        if !push_inner(&mut instrs, groups, &keys) {
            return None;
        }
    } else {
        assert(each(all_inner_of(*meta), f) is Some);
    }
    assert(instructions(instrs@) =~= outer + each(all_inner_of(*meta), f)->0);
    Some(instrs)
}

/// Map a reply to the recognition view, or `None` if it failed / can't be read.
pub fn parse(reply: &TransactionReply) -> (r: Option<Tx>)
    ensures
        (match r {
            Some(tx) => parse_of(*reply) == Some(tx@),
            None => parse_of(*reply) is None,
        }),
{
    let meta = match &reply.transaction.meta {
        Some(m) => m,
        None => {
            return None;
        },
    };
    // A failed transaction reverted — no tokens moved, nothing to recognize.
    if let TxStatus::Failure = meta.status {
        return None;
    }
    let raw = match decode_binary(&reply.transaction.transaction) {
        Some(b) => b,
        None => {
            return None;
        },
    };
    match assemble(raw.as_slice(), meta) {
        Some(instrs) => Some(Tx { instrs, slot: reply.slot }),
        None => None,
    }
}

/// Whether the chain says that a transaction reverted.
pub open spec fn is_reverted(reply: TransactionReply) -> bool {
    reply.transaction.meta matches Some(meta) && meta.status is Failure
}

/// How a transaction ended: what it did, or that it reverted, or `None` if the
/// reply can't be read.
pub fn parse_outcome(reply: &TransactionReply) -> (r: Option<Parsed>)
    ensures
        (match r {
            Some(Parsed::Executed(tx)) => parse_of(*reply) == Some(tx@),
            Some(Parsed::Reverted) => is_reverted(*reply),
            None => !is_reverted(*reply) && parse_of(*reply) is None,
        }),
{
    if let Some(meta) = &reply.transaction.meta {
        if let TxStatus::Failure = meta.status {
            return Some(Parsed::Reverted);
        }
    }
    match parse(reply) {
        Some(tx) => Some(Parsed::Executed(tx)),
        None => None,
    }
}

/// A failed transaction is never parsed: it moved nothing.
pub proof fn a_reverted_transaction_is_not_parsed(reply: TransactionReply)
    requires
        is_reverted(reply),
    ensures
        parse_of(reply) is None,
{
}

} // verus!
