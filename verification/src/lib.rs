//! The single paid index of settled donations: reads pinned `Settled` events and
//! escrow births from the public chain, folds them into a book, and serves
//! certified reads.
//!
//! The single state-changing operation is the paid `ingest`: checks (no work
//! before payment) → accept cycles → `getTransaction` outcall → recognize → fold →
//! publish the new root. It is split at the outcall: [`begin_ingest`] decides what
//! happens before it, [`finish_ingest`] what happens with its reply.

use bytes::array32;
use certified::{
    births_listed, book_listed, capped, key_of, Birth, BirthSpec, Certified, CertifiedSpec,
};
use config::{chain_config, roots_of, Profile, ProfileSpec};
use gate::{verdict, Gate};
use page::is_page;
use parse::{is_reverted, parse_of, parse_outcome, Parsed, TransactionReply};
use recognize::scan_of;
use reduce::ChainId;
use rpc::{is_request, request, Request};
use state::{fold_of, keyless_payers, proves_birth, proves_reputation, Folded};
use tree::TreeHash;
use vstd::prelude::*;
use vstd::slice::slice_to_vec;
use vstd::string::*;

pub mod applied;
pub mod base58;
pub mod bytes;
pub mod certified;
pub mod config;
pub mod count;
pub mod credit_laws;
pub mod derive;
pub mod digest;
pub mod gate;
pub mod ingest_laws;
pub mod message;
pub mod message_laws;
pub mod order_laws;
pub mod page;
pub mod parse;
pub mod parse_laws;
pub mod profile;
pub mod profile_laws;
pub mod reading_laws;
pub mod recognition_laws;
pub mod recognize;
pub mod reduce;
pub mod rpc;
pub mod state;
pub mod state_laws;
pub mod text;
pub mod tree;

verus! {

/// Longest signature accepted by an ingest: a 64-byte signature is at most 88
/// base58 characters, and anything longer can never resolve to a finalized
/// transaction.
pub const MAX_SIGNATURE_LEN: usize = 88;

/// Largest births page.
pub const MAX_BIRTHS_PAGE: usize = 10_000;

/// Largest book page. Half of the births page, because an entry is roughly twice
/// the size.
pub const MAX_BOOK_PAGE: usize = 5_000;

/// Outcome of a paid `ingest`.
#[derive(Clone, Copy, Debug)]
pub enum IngestResult {
    /// Folded in: counts of settlements, births, and cross-check anomalies. All
    /// zero when the transaction was read fine but held nothing this index
    /// recognizes — including a *reverted* one, which is retired here.
    Applied { settlements: u64, births: u64, anomalies: u64 },
    /// Signature already folded in.
    Duplicate,
    /// Attached cycles below the ingest price — rejected before any work.
    Underpaid,
    /// Canister balance below the cycle floor — refused to touch the reserve.
    LowBalance,
    /// No finalized transaction under consensus, or the reply could not be read.
    /// The signature is left untouched and stays foldable by anyone, forever.
    NotFound,
    /// The transaction sits at or past the cutover slot — it belongs to the next
    /// generation's book, and the signature stays free for the successor to fold.
    AfterCutover,
    /// The transaction settles an address with no private key whose birth this
    /// index has not recorded. Nothing is folded and nothing is marked: fold that
    /// escrow's birth, then submit this signature again.
    UnknownBirth,
}

/// One enumerated birth, for the successor generation's seed.
#[derive(Clone, Debug)]
pub struct BirthEntry {
    pub escrow: Vec<u8>,
    pub donor: Vec<u8>,
    pub slot: u64,
}

/// One enumerated book entry, for the successor generation. The key is surfaced as
/// its three parts: the successor has to rebuild the key to rebuild the tree.
#[derive(Clone, Debug)]
pub struct BookEntry {
    pub chain: Vec<u8>,
    pub donor: Vec<u8>,
    pub recipient: Vec<u8>,
    pub reputation: u128,
}

/// The capacity gauge. All state is heap-resident and the book only grows, so
/// these numbers say how much of this generation is left.
#[derive(Clone, Copy, Debug)]
pub struct StateStats {
    pub heap_bytes: u64,
    pub book_keys: u64,
    pub births: u64,
}

/// A recorded escrow birth.
#[derive(Clone, Debug)]
pub struct BirthView {
    pub donor: Vec<u8>,
    pub slot: u64,
}

impl BirthView {
    /// What is surfaced of a birth.
    pub fn from(b: Birth) -> (r: Self)
        ensures
            r.donor@ == b.donor@,
            r.slot == b.slot,
    {
        BirthView { donor: slice_to_vec(&b.donor), slot: b.slot }
    }
}

/// What happens to a signature before any outcall.
#[derive(Clone, Debug)]
pub enum Begin {
    /// It is answered for free: nothing is accepted, nothing is fetched.
    Answer(IngestResult),
    /// Accept `accept` cycles, then make the request with `attach` cycles attached.
    Fetch { accept: u128, attach: u128, request: Request },
}

/// The answer that a signature gets without an outcall, if it gets one.
pub open spec fn free_answer(
    s: CertifiedSpec,
    signature: Seq<u8>,
    attached: u128,
    balance: u128,
    p: ProfileSpec,
) -> Option<IngestResult> {
    if signature.len() > MAX_SIGNATURE_LEN {
        Some(IngestResult::NotFound)
    } else {
        match verdict(
            s.applied.contains(signature),
            attached,
            balance,
            p.ingest_price,
            p.cycle_floor,
        ) {
            Gate::Duplicate => Some(IngestResult::Duplicate),
            Gate::Underpaid => Some(IngestResult::Underpaid),
            Gate::LowBalance => Some(IngestResult::LowBalance),
            Gate::Proceed => if signature.len() == 0 {
                Some(IngestResult::NotFound)
            } else {
                None
            },
        }
    }
}

/// The first half of an ingest, up to the outcall. Order: length → already
/// applied → attached ≥ `ingest_price` → balance ≥ `cycle_floor` → **accept
/// cycles** → outcall. Nothing is fetched before payment.
pub fn begin_ingest(
    s: &Certified,
    signature: &str,
    attached: u128,
    balance: u128,
    p: &Profile,
) -> (r: Begin)
    requires
        s.wf(),
        p.rpc_providers <= 255,
    ensures
        (match r {
            Begin::Answer(a) => free_answer(s@, signature.spec_bytes(), attached, balance, p@)
                == Some(a),
            Begin::Fetch { accept, attach, request } => {
                &&& free_answer(s@, signature.spec_bytes(), attached, balance, p@) is None
                &&& accept == p.ingest_price
                &&& attach == p.attach_cycles
                &&& is_request(request, signature@, p@)
            },
        }),
{
    let bytes = signature.as_bytes();
    // An over-long signature is malformed. Reject it for free.
    if bytes.len() > MAX_SIGNATURE_LEN {
        return Begin::Answer(IngestResult::NotFound);
    }
    match gate::gate(
        state::is_applied(s, bytes),
        attached,
        balance,
        p.ingest_price,
        p.cycle_floor,
    ) {
        Gate::Duplicate => Begin::Answer(IngestResult::Duplicate),
        Gate::Underpaid => Begin::Answer(IngestResult::Underpaid),
        Gate::LowBalance => Begin::Answer(IngestResult::LowBalance),
        Gate::Proceed => {
            // An empty signature can never resolve to a transaction and is never
            // marked applied, so it would retry forever at full price. Free.
            if bytes.len() == 0 {
                return Begin::Answer(IngestResult::NotFound);
            }
            Begin::Fetch {
                accept: p.ingest_price,
                attach: p.attach_cycles,
                request: request(signature, p),
            }
        },
    }
}

/// The outcome of a fold as it is answered.
pub open spec fn answer_of(f: Folded) -> IngestResult {
    match f {
        Folded::Applied(a) => IngestResult::Applied {
            settlements: a.settlements,
            births: a.births,
            anomalies: a.anomalies,
        },
        Folded::Duplicate => IngestResult::Duplicate,
        Folded::UnknownBirth => IngestResult::UnknownBirth,
    }
}

/// The state after the reply to an ingest, and the answer. The boundary of the
/// generation is decided off the reply's own slot, before it is read; a reverted
/// transaction is retired; a reply that can't be read leaves no trace.
pub open spec fn finish_of(
    s: CertifiedSpec,
    signature: Seq<u8>,
    reply: Option<TransactionReply>,
    p: ProfileSpec,
) -> (CertifiedSpec, IngestResult) {
    match reply {
        None => (s, IngestResult::NotFound),
        Some(r) => if p.cutover_slot matches Some(cutover) && r.slot >= cutover {
            (s, IngestResult::AfterCutover)
        } else if is_reverted(r) {
            if signature.len() == 0 || s.applied.contains(signature) {
                (s, IngestResult::Duplicate)
            } else {
                (
                    s.marked(signature),
                    IngestResult::Applied { settlements: 0, births: 0, anomalies: 0 },
                )
            }
        } else {
            match parse_of(r) {
                Some(tx) => {
                    let recognized = scan_of(tx, roots_of(p)).recognized();
                    let (t, f) = fold_of(
                        s,
                        signature,
                        recognized,
                        keyless_payers(recognized.settlements),
                    );
                    (t, answer_of(f))
                },
                None => (s, IngestResult::NotFound),
            }
        },
    }
}

/// The second half of an ingest: what the reply to the outcall does to the state
/// and what is answered. Also returns the combined root to publish, which there is
/// wherever the root may have moved.
pub fn finish_ingest(
    s: &mut Certified,
    signature: &str,
    reply: Option<TransactionReply>,
    p: &Profile,
) -> (r: (IngestResult, Option<TreeHash>))
    requires
        old(s).wf(),
    ensures
        final(s).wf(),
        (final(s)@, r.0) == finish_of(old(s)@, signature.spec_bytes(), reply, p@),
        (match r.1 {
            Some(root) => root@ == final(s)@.root(),
            None => final(s)@.root() == old(s)@.root(),
        }),
{
    let reply = match reply {
        Some(reply) => reply,
        None => {
            return (IngestResult::NotFound, None);
        },
    };
    if let Some(cutover) = p.cutover_slot {
        if reply.slot >= cutover {
            return (IngestResult::AfterCutover, None);
        }
    }
    let sig_bytes = slice_to_vec(signature.as_bytes());
    match parse_outcome(&reply) {
        Some(Parsed::Executed(tx)) => {
            let cfg = chain_config(p);
            let (folded, root) = state::apply(s, sig_bytes, &tx, &cfg);
            let answer = match folded {
                Folded::Applied(a) => IngestResult::Applied {
                    settlements: a.settlements,
                    births: a.births,
                    anomalies: a.anomalies,
                },
                Folded::Duplicate => IngestResult::Duplicate,
                Folded::UnknownBirth => IngestResult::UnknownBirth,
            };
            (answer, root)
        },
        // Read fine; the chain says it reverted. Finalized and permanent, so it is
        // retired rather than left to be fetched again forever.
        Some(Parsed::Reverted) => {
            if state::retire(s, sig_bytes) {
                (IngestResult::Applied { settlements: 0, births: 0, anomalies: 0 }, None)
            } else {
                (IngestResult::Duplicate, None)
            }
        },
        None => (IngestResult::NotFound, None),
    }
}

/// A 32-byte address from a blob argument, or `None` on wrong length.
pub fn to32(v: Vec<u8>) -> (r: Option<[u8; 32]>)
    ensures
        r is Some <==> v@.len() == 32,
        r matches Some(a) ==> a@ == v@,
{
    array32(v.as_slice())
}

/// Reputation at `(chain, donor, recipient)` (0 if absent) plus a witness that
/// reconstructs to the combined root. Empty witness on a malformed (non-32B) key.
pub fn get_reputation(s: &Certified, chain: Vec<u8>, donor: Vec<u8>, recipient: Vec<u8>) -> (r: (
    u128,
    Vec<u8>,
))
    requires
        s.wf(),
    ensures
        chain@.len() == 32 && donor@.len() == 32 && recipient@.len() == 32 ==> {
            let key = key_of(chain@, donor@, recipient@);
            &&& r.0 == s@.reputation(key)
            &&& proves_reputation(s@, r.1@, key)
            &&& r.1@.len() > 0
        },
        !(chain@.len() == 32 && donor@.len() == 32 && recipient@.len() == 32) ==> r.0 == 0
            && r.1@.len() == 0,
{
    match (to32(chain), to32(donor), to32(recipient)) {
        (Some(c), Some(d), Some(e)) => {
            let r = state::reputation_witness(s, ChainId(c), d, e);
            proof {
                state::witness_of_reputation_is_not_empty(s@, r.1@, key_of(c@, d@, e@));
            }
            r
        },
        _ => (0, Vec::new()),
    }
}

/// A birth (if recorded) plus a witness reconstructing to the combined root. Empty
/// witness on a malformed (non-32B) escrow.
pub fn get_birth(s: &Certified, escrow: Vec<u8>) -> (r: (Option<BirthView>, Vec<u8>))
    requires
        s.wf(),
    ensures
        escrow@.len() == 32 ==> {
            &&& r.0 is Some <==> s@.births.contains_key(escrow@)
            &&& r.0 matches Some(b) ==> b.donor@ == s@.births[escrow@].donor && b.slot
                == s@.births[escrow@].slot
            &&& proves_birth(s@, r.1@, escrow@)
            &&& r.1@.len() > 0
        },
        escrow@.len() != 32 ==> r.0 is None && r.1@.len() == 0,
{
    match to32(escrow) {
        Some(e) => {
            let (b, w) = state::birth_witness(s, e);
            proof {
                state::witness_of_birth_is_not_empty(s@, w@, e@);
            }
            match b {
                Some(b) => (Some(BirthView::from(b)), w),
                None => (None, w),
            }
        },
        None => (None, Vec::new()),
    }
}

/// The certificate over the certified data, plus the combined root it commits to.
pub fn get_certificate(s: &Certified, certificate: Option<Vec<u8>>) -> (r: (
    Option<Vec<u8>>,
    Vec<u8>,
))
    ensures
        r.0 == certificate,
        r.1@ == s@.root(),
        r.1@.len() == 32,
{
    (certificate, state::combined_root(s))
}

/// Count of applied signatures (empty signatures are never marked).
pub fn get_applied_count(s: &Certified) -> (r: u64)
    requires
        s.wf(),
    ensures
        r == s@.applied.len(),
{
    state::applied_count(s)
}

/// Count of cross-check anomalies (event vs executed transfer).
pub fn get_anomaly_count(s: &Certified) -> (r: u64)
    ensures
        r == s@.anomalies,
{
    state::anomaly_count(s)
}

/// A requested limit within `1..=max`. At least one, so that a zero limit cannot
/// answer "empty" forever and stall a walk short of the end.
pub open spec fn page_limit(limit: u32, max: usize) -> nat {
    if limit == 0 {
        1
    } else if limit > max {
        max as nat
    } else {
        limit as nat
    }
}

fn clamp_limit(limit: u32, max: usize) -> (r: usize)
    requires
        max >= 1,
    ensures
        r == page_limit(limit, max),
{
    let n: usize = limit as usize;
    if n < 1 {
        1
    } else if n > max {
        max
    } else {
        n
    }
}

/// A page of births as it is read: each escrow with its birth.
pub open spec fn birth_entries(v: Seq<BirthEntry>) -> Seq<(Seq<u8>, BirthSpec)> {
    Seq::new(v.len(), |i: int| (v[i].escrow@, BirthSpec { donor: v[i].donor@, slot: v[i].slot }))
}

/// A page of the book as it is read: each key with its reputation.
pub open spec fn book_entries(v: Seq<BookEntry>) -> Seq<(Seq<u8>, u128)> {
    Seq::new(
        v.len(),
        |i: int| (key_of(v[i].chain@, v[i].donor@, v[i].recipient@), v[i].reputation),
    )
}

/// Where a page starts.
pub open spec fn cursor_of(start_after: Option<Vec<u8>>) -> Option<Seq<u8>> {
    match start_after {
        Some(c) => Some(c@),
        None => None,
    }
}

/// One page of recorded births in escrow order, starting strictly after
/// `start_after`. `None` means the cursor was not a 32-byte address; an empty
/// vector means the walk is done. The two are told apart deliberately — a
/// malformed cursor answered with "empty" would read as "done" and silently
/// truncate the successor's seed.
pub fn get_births_page(s: &Certified, start_after: Option<Vec<u8>>, limit: u32) -> (r: Option<
    Vec<BirthEntry>,
>)
    requires
        s.wf(),
    ensures
        r is None <==> (start_after matches Some(c) && c@.len() != 32),
        r matches Some(page) ==> is_page(
            birth_entries(page@),
            s@.births,
            cursor_of(start_after),
            page_limit(limit, MAX_BIRTHS_PAGE),
        ),
        r matches Some(page) ==> forall|i: int|
            0 <= i < page@.len() ==> (#[trigger] page@[i]).escrow@.len() == 32
                && page@[i].donor@.len() == 32,
{
    let cursor = match start_after {
        Some(v) => match to32(v) {
            Some(c) => Some(c),
            None => {
                return None;
            },
        },
        None => None,
    };
    let page = state::births_page(s, cursor, clamp_limit(limit, MAX_BIRTHS_PAGE));
    let mut out: Vec<BirthEntry> = Vec::with_capacity(page.len());
    let mut n: usize = 0;
    while n < page.len()
        invariant
            n <= page@.len(),
            out@.len() == n,
            forall|k: int|
                0 <= k < n ==> #[trigger] birth_entries(out@)[k] == births_listed(page@)[k],
            forall|k: int|
                0 <= k < n ==> (#[trigger] out@[k]).escrow@.len() == 32 && out@[k].donor@.len()
                    == 32,
        decreases page@.len() - n,
    {
        let (escrow, b) = page[n];
        let ghost before = out@;
        out.push(
            BirthEntry {
                escrow: slice_to_vec(&escrow),
                donor: slice_to_vec(&b.donor),
                slot: b.slot,
            },
        );
        assert forall|k: int| 0 <= k < n + 1 implies #[trigger] birth_entries(out@)[k]
            == births_listed(page@)[k] by {
            if k < n {
                assert(birth_entries(out@)[k] == birth_entries(before)[k]);
            }
        }
        n += 1;
    }
    assert(birth_entries(out@) =~= births_listed(page@));
    Some(out)
}

/// One page of the book in key order, starting strictly after `start_after`, which
/// is `chain ‖ donor ‖ recipient` of the previous page's last entry. `None` means
/// the cursor was not a 96-byte key; an empty vector means the walk is done.
pub fn get_book_page(s: &Certified, start_after: Option<Vec<u8>>, limit: u32) -> (r: Option<
    Vec<BookEntry>,
>)
    requires
        s.wf(),
    ensures
        r is None <==> (start_after matches Some(c) && c@.len() != 96),
        r matches Some(page) ==> is_page(
            book_entries(page@),
            s@.book,
            cursor_of(start_after),
            page_limit(limit, MAX_BOOK_PAGE),
        ),
        // Each part of a key is surfaced as it stands in the key, so that the point
        // query on the three parts reads the same reputation.
        r matches Some(page) ==> forall|i: int|
            0 <= i < page@.len() ==> {
                let e = #[trigger] page@[i];
                &&& e.chain@.len() == 32
                &&& e.donor@.len() == 32
                &&& e.recipient@.len() == 32
                &&& e.reputation == s@.reputation(key_of(e.chain@, e.donor@, e.recipient@))
            },
{
    let max: usize = clamp_limit(limit, MAX_BOOK_PAGE);
    let page = match &start_after {
        Some(c) => {
            if c.len() != 96 {
                return None;
            }
            state::book_page(s, Some(c.as_slice()), max)
        },
        None => state::book_page(s, None, max),
    };
    let mut out: Vec<BookEntry> = Vec::with_capacity(page.len());
    let mut n: usize = 0;
    while n < page.len()
        invariant
            n <= page@.len(),
            out@.len() == n,
            forall|k: int|
                0 <= k < n ==> #[trigger] book_entries(out@)[k] == book_listed(page@)[k],
            forall|k: int|
                0 <= k < n ==> (#[trigger] out@[k]).chain@.len() == 32 && out@[k].donor@.len()
                    == 32 && out@[k].recipient@.len() == 32,
        decreases page@.len() - n,
    {
        let (chain, donor, recipient, reputation) = page[n];
        let ghost before = out@;
        out.push(
            BookEntry {
                chain: slice_to_vec(&chain.0),
                donor: slice_to_vec(&donor),
                recipient: slice_to_vec(&recipient),
                reputation,
            },
        );
        assert forall|k: int| 0 <= k < n + 1 implies #[trigger] book_entries(out@)[k]
            == book_listed(page@)[k] by {
            if k < n {
                assert(book_entries(out@)[k] == book_entries(before)[k]);
            }
        }
        n += 1;
    }
    assert(book_entries(out@) =~= book_listed(page@));
    assert forall|i: int| 0 <= i < out@.len() implies ({
        let e = #[trigger] out@[i];
        e.reputation == s@.reputation(key_of(e.chain@, e.donor@, e.recipient@))
    }) by {
        assert(s@.book.contains_key(book_entries(out@)[i].0));
    }
    Some(out)
}

/// The capacity gauge: heap bytes, book keys, births.
pub fn get_state_stats(s: &Certified, heap_pages: u64) -> (r: StateStats)
    requires
        s.wf(),
    ensures
        r == (StateStats {
            heap_bytes: capped((heap_pages * 65_536) as nat),
            book_keys: capped(s@.book.dom().len()),
            births: capped(s@.births.dom().len()),
        }),
{
    let (heap_bytes, book_keys, births) = state::state_stats(s, state::heap_bytes(heap_pages));
    StateStats { heap_bytes, book_keys, births }
}

} // verus!
