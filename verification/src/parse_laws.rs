//! What a reply carries is what is parsed of it: every instruction, top-level and
//! inner, in its place and against its keys.

use crate::base58::{
    a_text_is_read_as_what_it_stands_for, only_what_a_text_stands_for_is_read, stands_for,
};
use crate::message::{message_of, RawCompiledSpec};
use crate::message_laws::{reading_undoes_writing, WireTx};
use crate::parse::{
    all_inner_of, binary_of, each, inner_of, inner_resolved, instructions_of, loaded_of, parse_of,
    pubkey_of, resolved, CompiledInstruction, EncodedTransaction, Encoding, InnerInstructions,
    Instruction, TransactionReply, TxMeta, TxStatus,
};
use crate::recognize::InstrSpec;
use vstd::prelude::*;

verus! {

/// Whether an instruction is what a compiled one says: its program and each of its
/// accounts are the keys that the indices point at, in their order, and its data is
/// the data.
pub open spec fn is_resolved(
    i: InstrSpec,
    program_id_index: u8,
    accounts: Seq<u8>,
    data: Seq<u8>,
    keys: Seq<Seq<u8>>,
) -> bool {
    &&& program_id_index < keys.len()
    &&& i.program == keys[program_id_index as int]
    &&& i.accounts.len() == accounts.len()
    &&& forall|j: int|
        0 <= j < accounts.len() ==> (#[trigger] accounts[j]) < keys.len() && i.accounts[j]
            == keys[accounts[j] as int]
    &&& i.data == data
}

/// Whether an instruction is what a top-level one says.
pub open spec fn is_top(i: InstrSpec, ix: RawCompiledSpec, keys: Seq<Seq<u8>>) -> bool {
    is_resolved(i, ix.program_id_index, ix.accounts, ix.data, keys)
}

/// Whether an instruction is what an inner one says, whose data is in base58.
pub open spec fn is_inner(i: InstrSpec, ci: CompiledInstruction, keys: Seq<Seq<u8>>) -> bool {
    stands_for(ci.data@, i.data) && is_resolved(
        i,
        ci.program_id_index,
        ci.accounts@,
        i.data,
        keys,
    )
}

/// The compiled form of instruction `k` of a group.
pub open spec fn in_group(group: InnerInstructions, k: int) -> CompiledInstruction {
    match group.instructions@[k] {
        Instruction::Compiled(ci) => ci,
    }
}

/// How many instructions the first `g` groups hold together.
pub open spec fn held_before(groups: Seq<InnerInstructions>, g: nat) -> nat
    decreases g,
{
    if g == 0 {
        0
    } else {
        held_before(groups, (g - 1) as nat) + groups[g - 1].instructions@.len()
    }
}

/// The inner groups of a reply.
pub open spec fn groups_of(meta: TxMeta) -> Seq<InnerInstructions> {
    match meta.inner_instructions {
        Some(groups) => groups@,
        None => Seq::empty(),
    }
}

/// Whether `loaded` are the addresses that a reply loads: the writable ones, then the
/// readonly ones, each 32 bytes that its base58 text stands for.
pub open spec fn are_loaded(meta: TxMeta, loaded: Seq<Seq<u8>>) -> bool {
    match meta.loaded_addresses {
        Some(la) => {
            &&& loaded.len() == la.writable@.len() + la.readonly@.len()
            &&& forall|i: int|
                0 <= i < la.writable@.len() ==> stands_for(#[trigger] la.writable@[i]@, loaded[i])
            &&& forall|i: int|
                0 <= i < la.readonly@.len() ==> stands_for(
                    #[trigger] la.readonly@[i]@,
                    loaded[la.writable@.len() + i],
                )
            &&& forall|i: int| 0 <= i < loaded.len() ==> (#[trigger] loaded[i]).len() == 32
        },
        None => loaded.len() == 0,
    }
}

/// Whether a transaction is sent as the base58 text of `raw`.
pub open spec fn is_sent(t: EncodedTransaction, raw: Seq<u8>) -> bool {
    match t {
        EncodedTransaction::Binary(text, Encoding::Base58) => stands_for(text@, raw),
        EncodedTransaction::LegacyBinary(text) => stands_for(text@, raw),
        EncodedTransaction::Binary(_, Encoding::Base64) => false,
    }
}

/// The instructions of some groups, one group after the other.
proof fn lemma_inner(groups: Seq<InnerInstructions>, g: int, k: int)
    ensures
        inner_of(groups).len() == held_before(groups, groups.len()),
        0 <= g < groups.len() && 0 <= k < groups[g].instructions@.len() ==> {
            &&& held_before(groups, g as nat) + k < inner_of(groups).len()
            &&& inner_of(groups)[held_before(groups, g as nat) + k] == groups[g].instructions@[k]
        },
    decreases groups.len(),
{
    if groups.len() > 0 {
        let before = groups.drop_last();
        lemma_inner(before, g, k);
        lemma_held(before, groups, before.len());
        if 0 <= g < before.len() {
            lemma_held(before, groups, g as nat);
        }
    }
}

/// What groups hold does not depend on what follows.
proof fn lemma_held(a: Seq<InnerInstructions>, b: Seq<InnerInstructions>, g: nat)
    requires
        g <= a.len() <= b.len(),
        forall|i: int| 0 <= i < a.len() ==> a[i] == b[i],
    ensures
        held_before(a, g) == held_before(b, g),
    decreases g,
{
    if g > 0 {
        lemma_held(a, b, (g - 1) as nat);
        assert(a[g - 1] == b[g - 1]);
    }
}

/// Something is made of every item where it is made of each.
proof fn lemma_each<A, B>(s: Seq<A>, f: spec_fn(A) -> Option<B>, r: Seq<B>)
    ensures
        each(s, f) == Some(r) <==> r.len() == s.len() && forall|i: int|
            0 <= i < s.len() ==> f(#[trigger] s[i]) == Some(r[i]),
{
    if r.len() == s.len() && forall|i: int|
        0 <= i < s.len() ==> f(#[trigger] s[i]) == Some(r[i]) {
        assert(each(s, f) is Some);
        assert(each(s, f)->0 =~= r);
    }
    if each(s, f) == Some(r) {
        assert forall|i: int| 0 <= i < s.len() implies f(#[trigger] s[i]) == Some(r[i]) by {
            assert(r[i] == f(s[i])->0);
        }
    }
}

/// What is resolved is what the indices point at, and nothing is where one points at
/// no key.
proof fn lemma_resolved(
    program_id_index: u8,
    accounts: Seq<u8>,
    data: Seq<u8>,
    keys: Seq<Seq<u8>>,
    i: InstrSpec,
)
    ensures
        resolved(program_id_index, accounts, data, keys) == Some(i) <==> is_resolved(
            i,
            program_id_index,
            accounts,
            data,
            keys,
        ),
{
    let f = |i: u8|
        if i < keys.len() {
            Some(keys[i as int])
        } else {
            None
        };
    lemma_each(accounts, f, i.accounts);
    assert forall|j: int| 0 <= j < accounts.len() implies (f(#[trigger] accounts[j]) == Some(
        i.accounts[j],
    ) <==> accounts[j] < keys.len() && i.accounts[j] == keys[accounts[j] as int]) by {}
}

/// An inner instruction is resolved to what it says.
proof fn lemma_inner_resolved(ci: CompiledInstruction, keys: Seq<Seq<u8>>, i: InstrSpec)
    ensures
        inner_resolved(Instruction::Compiled(ci), keys) == Some(i) <==> is_inner(i, ci, keys),
{
    only_what_a_text_stands_for_is_read(ci.data@);
    if stands_for(ci.data@, i.data) {
        a_text_is_read_as_what_it_stands_for(ci.data@, i.data);
    }
    lemma_resolved(ci.program_id_index, ci.accounts@, i.data, keys, i);
    if let Some(data) = crate::base58::base58_bytes(ci.data@) {
        lemma_resolved(ci.program_id_index, ci.accounts@, data, keys, i);
    }
}

/// The loaded addresses of a reply are those that its texts stand for.
proof fn lemma_loaded(meta: TxMeta, loaded: Seq<Seq<u8>>)
    ensures
        loaded_of(meta) == Some(loaded) <==> are_loaded(meta, loaded),
{
    if let Some(la) = meta.loaded_addresses {
        let texts = la.writable@ + la.readonly@;
        let f = |s: String| pubkey_of(s@);
        if are_loaded(meta, loaded) {
            assert forall|i: int| 0 <= i < texts.len() implies f(#[trigger] texts[i]) == Some(
                loaded[i],
            ) by {
                if i < la.writable@.len() {
                    assert(texts[i] == la.writable@[i]);
                } else {
                    assert(texts[i] == la.readonly@[i - la.writable@.len()]);
                }
                assert(loaded[i].len() == 32);
                a_text_is_read_as_what_it_stands_for(texts[i]@, loaded[i]);
            }
            assert(each(texts, f)->0 =~= loaded);
        }
        if loaded_of(meta) == Some(loaded) {
            assert forall|i: int| 0 <= i < texts.len() implies stands_for(
                (#[trigger] texts[i])@,
                loaded[i],
            ) && loaded[i].len() == 32 by {
                assert(f(texts[i]) is Some);
                only_what_a_text_stands_for_is_read(texts[i]@);
            }
            assert forall|i: int| 0 <= i < la.writable@.len() implies stands_for(
                #[trigger] la.writable@[i]@,
                loaded[i],
            ) by {
                assert(texts[i] == la.writable@[i]);
            }
            assert forall|i: int| 0 <= i < la.readonly@.len() implies stands_for(
                #[trigger] la.readonly@[i]@,
                loaded[la.writable@.len() + i],
            ) by {
                assert(texts[la.writable@.len() + i] == la.readonly@[i]);
            }
            assert forall|i: int| 0 <= i < loaded.len() implies (#[trigger] loaded[i]).len()
                == 32 by {
                assert(stands_for(texts[i]@, loaded[i]));
            }
        }
    } else {
        assert(loaded.len() == 0 ==> loaded =~= Seq::empty());
    }
}

/// A transaction is read as the bytes that it is sent as.
proof fn lemma_binary(t: EncodedTransaction, raw: Seq<u8>)
    ensures
        binary_of(t) == Some(raw) <==> is_sent(t, raw),
{
    match t {
        EncodedTransaction::Binary(text, Encoding::Base58) => {
            only_what_a_text_stands_for_is_read(text@);
            if stands_for(text@, raw) {
                a_text_is_read_as_what_it_stands_for(text@, raw);
            }
        },
        EncodedTransaction::LegacyBinary(text) => {
            only_what_a_text_stands_for_is_read(text@);
            if stands_for(text@, raw) {
                a_text_is_read_as_what_it_stands_for(text@, raw);
            }
        },
        EncodedTransaction::Binary(_, Encoding::Base64) => {},
    }
}

/// Whether `instrs` are all the instructions of a transaction, each in its place: the
/// top-level ones, then the inner ones of one group after the other, none left out
/// and none added.
pub open spec fn are_all(
    instrs: Seq<InstrSpec>,
    top: Seq<RawCompiledSpec>,
    groups: Seq<InnerInstructions>,
    keys: Seq<Seq<u8>>,
) -> bool {
    &&& instrs.len() == top.len() + held_before(groups, groups.len())
    &&& forall|k: int| 0 <= k < top.len() ==> is_top(instrs[k], #[trigger] top[k], keys)
    &&& forall|g: int, k: int|
        0 <= g < groups.len() && 0 <= k < groups[g].instructions@.len() ==> is_inner(
            instrs[top.len() + held_before(groups, g as nat) + k],
            #[trigger] in_group(groups[g], k),
            keys,
        )
}

/// The static keys of a message.
pub open spec fn fixed_of(raw: Seq<u8>) -> Seq<Seq<u8>> {
    let (fixed, _) = message_of(raw)->0;
    fixed
}

/// The top-level instructions of a message.
pub open spec fn top_of(raw: Seq<u8>) -> Seq<RawCompiledSpec> {
    let (_, top) = message_of(raw)->0;
    top
}

/// Which group and which of its instructions the `n`th inner one is.
proof fn lemma_place(groups: Seq<InnerInstructions>, n: int) -> (place: (int, int))
    requires
        0 <= n < held_before(groups, groups.len()),
    ensures
        0 <= place.0 < groups.len(),
        0 <= place.1 < groups[place.0].instructions@.len(),
        n == held_before(groups, place.0 as nat) + place.1,
    decreases groups.len(),
{
    let before = groups.drop_last();
    lemma_held(before, groups, before.len());
    if n < held_before(before, before.len()) {
        let place = lemma_place(before, n);
        lemma_held(before, groups, place.0 as nat);
        assert(before[place.0] == groups[place.0]);
        place
    } else {
        (before.len() as int, n - held_before(before, before.len()))
    }
}

/// The instructions of a transaction are all of them.
proof fn lemma_all(raw: Seq<u8>, meta: TxMeta, loaded: Seq<Seq<u8>>, instrs: Seq<InstrSpec>)
    requires
        message_of(raw) is Some,
        are_loaded(meta, loaded),
    ensures
        instructions_of(raw, meta) == Some(instrs) <==> are_all(
            instrs,
            top_of(raw),
            groups_of(meta),
            fixed_of(raw) + loaded,
        ),
{
    let (fixed, top) = message_of(raw)->0;
    let keys = fixed + loaded;
    let groups = groups_of(meta);
    lemma_loaded(meta, loaded);
    let f = |ix: RawCompiledSpec| resolved(ix.program_id_index, ix.accounts, ix.data, keys);
    let h = |i: Instruction| inner_resolved(i, keys);
    let inner = all_inner_of(meta);
    assert(inner =~= inner_of(groups));
    lemma_inner(groups, 0, 0);
    if instructions_of(raw, meta) == Some(instrs) {
        let a = each(top, f)->0;
        let b = each(inner, h)->0;
        assert(instrs == a + b);
        assert forall|k: int| 0 <= k < top.len() implies is_top(
            instrs[k],
            #[trigger] top[k],
            keys,
        ) by {
            assert(f(top[k]) is Some);
            assert(instrs[k] == a[k]);
            lemma_resolved(
                top[k].program_id_index,
                top[k].accounts,
                top[k].data,
                keys,
                instrs[k],
            );
        }
        assert forall|g: int, k: int|
            0 <= g < groups.len() && 0 <= k < groups[g].instructions@.len() implies is_inner(
            instrs[top.len() + held_before(groups, g as nat) + k],
            #[trigger] in_group(groups[g], k),
            keys,
        ) by {
            lemma_inner(groups, g, k);
            let n = held_before(groups, g as nat) + k;
            assert(h(inner[n]) is Some);
            assert(instrs[top.len() + n] == b[n]);
            lemma_inner_resolved(in_group(groups[g], k), keys, b[n]);
        }
    }
    if are_all(instrs, top, groups, keys) {
        assert forall|k: int| 0 <= k < top.len() implies f(#[trigger] top[k]) == Some(
            instrs[k],
        ) by {
            assert(is_top(instrs[k], top[k], keys));
            lemma_resolved(
                top[k].program_id_index,
                top[k].accounts,
                top[k].data,
                keys,
                instrs[k],
            );
        }
        assert forall|n: int| 0 <= n < inner.len() implies h(#[trigger] inner[n]) == Some(
            instrs[top.len() + n],
        ) by {
            let (g, k) = lemma_place(groups, n);
            lemma_inner(groups, g, k);
            assert(is_inner(instrs[top.len() + n], in_group(groups[g], k), keys));
            lemma_inner_resolved(in_group(groups[g], k), keys, instrs[top.len() + n]);
        }
        assert(each(top, f)->0 + each(inner, h)->0 =~= instrs);
    }
}

/// No instruction is lost and none is made up: where a reply is parsed, it executed,
/// and what is parsed are all of its instructions, top-level and inner, each in its
/// place and resolved against the static keys, the loaded writable ones and the loaded
/// readonly ones; the slot is the reply's.
pub proof fn no_instruction_is_lost(reply: TransactionReply)
    requires
        parse_of(reply) is Some,
    ensures
        reply.transaction.meta is Some,
        reply.transaction.meta->0.status == TxStatus::Success,
        parse_of(reply)->0.slot == reply.slot,
        exists|raw: Seq<u8>, loaded: Seq<Seq<u8>>| #[trigger]
            is_parsed(reply, raw, loaded, parse_of(reply)->0.instrs),
{
    let meta = reply.transaction.meta->0;
    let raw = binary_of(reply.transaction.transaction)->0;
    let loaded = loaded_of(meta)->0;
    lemma_binary(reply.transaction.transaction, raw);
    lemma_loaded(meta, loaded);
    lemma_all(raw, meta, loaded, parse_of(reply)->0.instrs);
    assert(is_parsed(reply, raw, loaded, parse_of(reply)->0.instrs));
}

/// Whether a reply that is sent as `raw` and loads `loaded` carries `instrs`.
pub open spec fn is_parsed(
    reply: TransactionReply,
    raw: Seq<u8>,
    loaded: Seq<Seq<u8>>,
    instrs: Seq<InstrSpec>,
) -> bool {
    let meta = reply.transaction.meta->0;
    &&& is_sent(reply.transaction.transaction, raw)
    &&& are_loaded(meta, loaded)
    &&& message_of(raw) is Some
    &&& are_all(instrs, top_of(raw), groups_of(meta), fixed_of(raw) + loaded)
}

/// A reply that carries a transaction is parsed as it: of every valid transaction that
/// executed, legacy or v0, sent in base58, all instructions come back.
pub proof fn a_reply_is_parsed_whole(
    reply: TransactionReply,
    w: WireTx,
    loaded: Seq<Seq<u8>>,
    instrs: Seq<InstrSpec>,
)
    requires
        reply.transaction.meta is Some,
        reply.transaction.meta->0.status == TxStatus::Success,
        w.valid(),
        is_sent(reply.transaction.transaction, w.wire()),
        are_loaded(reply.transaction.meta->0, loaded),
        are_all(instrs, w.ixs, groups_of(reply.transaction.meta->0), w.keys + loaded),
    ensures
        parse_of(reply) is Some,
        parse_of(reply)->0.instrs == instrs,
        parse_of(reply)->0.slot == reply.slot,
{
    reading_undoes_writing(w);
    lemma_binary(reply.transaction.transaction, w.wire());
    lemma_all(w.wire(), reply.transaction.meta->0, loaded, instrs);
}

/// A transaction that the chain says failed is never parsed, whatever else the reply
/// carries.
pub proof fn a_failed_transaction_is_never_parsed(reply: TransactionReply)
    requires
        reply.transaction.meta is Some,
        reply.transaction.meta->0.status == TxStatus::Failure,
    ensures
        parse_of(reply) is None,
        crate::parse::is_reverted(reply),
{
}

/// Only a transaction whose status is a failure counts as reverted: not one whose
/// status is missing.
pub proof fn only_a_failure_is_reverted(reply: TransactionReply)
    ensures
        crate::parse::is_reverted(reply) <==> reply.transaction.meta is Some
            && reply.transaction.meta->0.status == TxStatus::Failure,
{
}

} // verus!
