//! Certified state: two keyed-Merkle trees (book, births) under one combined
//! root, the signatures already folded in, and a diagnostic anomaly count.
//!
//! Book leaf: `(chain ‖ donor ‖ recipient) → u128le(reputation)`.
//! Birth leaf: `escrow → donor ‖ u64le(slot)`.
//! The trees are the only storage: a value is read off the same leaf that its
//! witness proves.

use crate::applied::AppliedSet;
use crate::bytes::array32;
use crate::page::{is_page, lemma_page_of_values, page_bounds};
use crate::reduce::{fold_one, ChainId, Overflow, Settled, SettledSpec};
use crate::tree::{
    discloses, entries, fork, fork_digest, fork_hash, labeled, labeled_digest,
    labeled_hash, pairs, pruned, shape, shape_inserted, tree_get, tree_insert, tree_iter, tree_new,
    tree_root, tree_witness, witness_of, TreeHash, Shape, Witness,
};
use ic_certified_map::{HashTree, RbTree};
use vstd::bytes::{
    lemma_auto_spec_u128_to_from_le_bytes, lemma_auto_spec_u64_to_from_le_bytes,
    spec_u128_from_le_bytes, spec_u128_to_le_bytes, spec_u64_from_le_bytes, spec_u64_to_le_bytes,
    u128_from_le_bytes, u128_to_le_bytes, u64_from_le_bytes, u64_to_le_bytes,
};
use vstd::prelude::*;
use vstd::slice::slice_subrange;
use vstd::string::*;

verus! {

/// A recorded escrow birth.
#[derive(Clone, Copy, Debug, PartialEq, Eq)]
pub struct Birth {
    pub donor: [u8; 32],
    pub slot: u64,
}

/// What a birth says.
pub struct BirthSpec {
    pub donor: Seq<u8>,
    pub slot: u64,
}

impl View for Birth {
    type V = BirthSpec;

    open spec fn view(&self) -> BirthSpec {
        BirthSpec { donor: self.donor@, slot: self.slot }
    }
}

/// A book key: `chain ‖ donor ‖ recipient`.
pub open spec fn key_of(chain: Seq<u8>, donor: Seq<u8>, recipient: Seq<u8>) -> Seq<u8> {
    chain + donor + recipient
}

/// A count as a `u64`, capped at its greatest value.
pub open spec fn capped(n: nat) -> u64 {
    if n <= u64::MAX {
        n as u64
    } else {
        u64::MAX
    }
}

/// The state of the index.
#[verifier::ext_equal]
pub struct CertifiedSpec {
    /// Reputation by book key.
    pub book: Map<Seq<u8>, u128>,
    /// Births by escrow.
    pub births: Map<Seq<u8>, BirthSpec>,
    /// Signatures folded in.
    pub applied: Set<Seq<u8>>,
    /// Cross-check anomalies counted so far.
    pub anomalies: u64,
    /// The nodes of the book tree.
    pub book_shape: Shape,
    /// The nodes of the births tree.
    pub births_shape: Shape,
}

impl CertifiedSpec {
    /// The state before the first ingest.
    pub open spec fn empty() -> CertifiedSpec {
        CertifiedSpec {
            book: Map::empty(),
            births: Map::empty(),
            applied: Set::empty(),
            anomalies: 0,
            book_shape: Shape::Nil,
            births_shape: Shape::Nil,
        }
    }

    /// Reputation under a book key: zero where there is none.
    pub open spec fn reputation(self, key: Seq<u8>) -> u128 {
        if self.book.contains_key(key) {
            self.book[key]
        } else {
            0
        }
    }

    /// The state with `total` under a book key.
    pub open spec fn credited(self, key: Seq<u8>, total: u128) -> CertifiedSpec {
        CertifiedSpec {
            book: self.book.insert(key, total),
            book_shape: shape_inserted(self.book_shape, key, spec_u128_to_le_bytes(total)),
            ..self
        }
    }

    /// The state with a settlement folded in, or `None` where the sum does not
    /// fit.
    pub open spec fn settled(self, s: SettledSpec) -> Option<CertifiedSpec> {
        let key = key_of(s.chain, s.donor, s.recipient);
        if self.reputation(key) + s.gross <= u128::MAX {
            Some(self.credited(key, (self.reputation(key) + s.gross) as u128))
        } else {
            None
        }
    }

    /// The state with a birth recorded.
    pub open spec fn born(self, escrow: Seq<u8>, b: BirthSpec) -> CertifiedSpec {
        CertifiedSpec {
            births: self.births.insert(escrow, b),
            births_shape: shape_inserted(
                self.births_shape,
                escrow,
                b.donor + spec_u64_to_le_bytes(b.slot),
            ),
            ..self
        }
    }

    /// A settlement paid by an escrow whose birth is recorded is its funding
    /// donor's; any other is the payer's own.
    pub open spec fn attributed(self, s: SettledSpec) -> SettledSpec {
        if self.births.contains_key(s.donor) {
            SettledSpec { donor: self.births[s.donor].donor, ..s }
        } else {
            s
        }
    }

    /// The state with `n` more anomalies.
    pub open spec fn with_anomalies(self, n: u64) -> CertifiedSpec {
        CertifiedSpec { anomalies: capped((self.anomalies + n) as nat), ..self }
    }

    /// The state with a signature folded in. An empty one never is.
    pub open spec fn marked(self, signature: Seq<u8>) -> CertifiedSpec {
        if signature.len() == 0 {
            self
        } else {
            CertifiedSpec { applied: self.applied.insert(signature), ..self }
        }
    }

    /// The labeled hash of the book tree.
    pub open spec fn book_leaf(self) -> Seq<u8> {
        labeled_digest("book".spec_bytes(), self.book_shape.subtree_digest())
    }

    /// The labeled hash of the births tree.
    pub open spec fn births_leaf(self) -> Seq<u8> {
        labeled_digest("births".spec_bytes(), self.births_shape.subtree_digest())
    }

    /// The combined root of both trees.
    pub open spec fn root(self) -> Seq<u8> {
        fork_digest(self.book_leaf(), self.births_leaf())
    }

    /// Whether a hash tree proves what the book holds under `key`: the book
    /// branch discloses it, the births branch is pruned.
    pub open spec fn is_book_witness(self, w: Witness, key: Seq<u8>) -> bool {
        exists|sub: Witness|
            {
                &&& w == #[trigger] book_branch(sub, self.births_leaf())
                &&& sub.digest() == self.book_shape.subtree_digest()
                &&& discloses(sub, self.book.map_values(|v: u128| spec_u128_to_le_bytes(v)), key)
            }
    }

    /// Whether a hash tree proves what is recorded of the birth of `escrow`: the
    /// births branch discloses it, the book branch is pruned.
    pub open spec fn is_birth_witness(self, w: Witness, escrow: Seq<u8>) -> bool {
        exists|sub: Witness|
            {
                &&& w == #[trigger] births_branch(self.book_leaf(), sub)
                &&& sub.digest() == self.births_shape.subtree_digest()
                &&& discloses(
                    sub,
                    self.births.map_values(|b: BirthSpec| b.donor + spec_u64_to_le_bytes(b.slot)),
                    escrow,
                )
            }
    }
}

/// A hash tree of the book branch, its sibling pruned.
pub open spec fn book_branch(sub: Witness, births_leaf: Seq<u8>) -> Witness {
    Witness::Fork(
        Box::new(Witness::Labeled("book".spec_bytes(), Box::new(sub))),
        Box::new(Witness::Pruned(births_leaf)),
    )
}

/// A hash tree of the births branch, its sibling pruned.
pub open spec fn births_branch(book_leaf: Seq<u8>, sub: Witness) -> Witness {
    Witness::Fork(
        Box::new(Witness::Pruned(book_leaf)),
        Box::new(Witness::Labeled("births".spec_bytes(), Box::new(sub))),
    )
}

/// Book key bytes: `chain ‖ donor ‖ recipient`.
pub fn book_key(chain: ChainId, donor: [u8; 32], recipient: [u8; 32]) -> (k: Vec<u8>)
    ensures
        k@ == key_of(chain.0@, donor@, recipient@),
        k@.len() == 96,
{
    let mut k: Vec<u8> = Vec::with_capacity(96);
    k.extend_from_slice(&chain.0);
    k.extend_from_slice(&donor);
    k.extend_from_slice(&recipient);
    assert(k@ =~= key_of(chain.0@, donor@, recipient@));
    k
}

/// The accumulated `u128` under a book leaf, or `0` if the key is absent or the
/// leaf has another width.
pub fn leaf_value(leaf: Option<&Vec<u8>>) -> (v: u128)
    ensures
        (match leaf {
            Some(l) => v == if l@.len() == 16 {
                spec_u128_from_le_bytes(l@)
            } else {
                0
            },
            None => v == 0,
        }),
{
    match leaf {
        Some(l) => if l.len() == 16 {
            u128_from_le_bytes(l.as_slice())
        } else {
            0
        },
        None => 0,
    }
}

/// The birth in a leaf `donor ‖ u64le(slot)`.
pub open spec fn birth_in(leaf: Seq<u8>) -> BirthSpec {
    BirthSpec {
        donor: leaf.subrange(0, 32),
        slot: spec_u64_from_le_bytes(leaf.subrange(32, 40)),
    }
}

/// A birth leaf: `donor(32) ‖ u64le(slot)`. `None` on any other width.
pub fn birth_leaf(leaf: &[u8]) -> (r: Option<Birth>)
    ensures
        r is Some <==> leaf@.len() == 40,
        r matches Some(b) ==> b@ == birth_in(leaf@),
{
    if leaf.len() != 40 {
        return None;
    }
    match array32(slice_subrange(leaf, 0, 32)) {
        Some(donor) => Some(
            Birth { donor, slot: u64_from_le_bytes(slice_subrange(leaf, 32, 40)) },
        ),
        None => None,
    }
}

/// A page of births as it is read: each escrow with its birth.
pub open spec fn births_listed(v: Seq<([u8; 32], Birth)>) -> Seq<(Seq<u8>, BirthSpec)> {
    Seq::new(v.len(), |i: int| (v[i].0@, v[i].1@))
}

/// A page of the book as it is read: each key with its reputation.
pub open spec fn book_listed(v: Seq<(ChainId, [u8; 32], [u8; 32], u128)>) -> Seq<
    (Seq<u8>, u128),
> {
    Seq::new(v.len(), |i: int| (key_of(v[i].0.0@, v[i].1@, v[i].2@), v[i].3))
}

/// The derived, certified state of the index.
pub struct Certified {
    /// The book: `(chain ‖ donor ‖ recipient) → u128le`.
    book_tree: RbTree<Vec<u8>, Vec<u8>>,
    /// Populated book keys: the tree cannot be asked its size.
    book_keys: u64,
    /// Births: `escrow → donor ‖ u64le(slot)`.
    births_tree: RbTree<Vec<u8>, Vec<u8>>,
    /// Recorded births.
    births_count: u64,
    /// Exactly-once: signatures already folded in. Empty ones never are.
    applied: AppliedSet,
    /// Diagnostic count of cross-check anomalies. Not certified.
    anomalies: u64,
}

impl View for Certified {
    type V = CertifiedSpec;

    closed spec fn view(&self) -> CertifiedSpec {
        CertifiedSpec {
            book: entries(self.book_tree).map_values(|v: Seq<u8>| spec_u128_from_le_bytes(v)),
            births: entries(self.births_tree).map_values(|v: Seq<u8>| birth_in(v)),
            applied: self.applied@,
            anomalies: self.anomalies,
            book_shape: shape(self.book_tree),
            births_shape: shape(self.births_tree),
        }
    }
}

impl Certified {
    /// Every leaf has its width, the counts are the counts of the keys, and no
    /// empty signature is marked.
    pub closed spec fn wf(&self) -> bool {
        &&& forall|k: Seq<u8>| #[trigger]
            entries(self.book_tree).contains_key(k) ==> k.len() == 96 && entries(
                self.book_tree,
            )[k].len() == 16
        &&& entries(self.book_tree).dom().finite()
        &&& self.book_keys == capped(entries(self.book_tree).dom().len())
        &&& forall|k: Seq<u8>| #[trigger]
            entries(self.births_tree).contains_key(k) ==> k.len() == 32 && entries(
                self.births_tree,
            )[k].len() == 40
        &&& entries(self.births_tree).dom().finite()
        &&& self.births_count == capped(entries(self.births_tree).dom().len())
        &&& self.applied.wf()
        &&& !self.applied@.contains(Seq::empty())
    }

    /// What holds of every state: keys and escrows have their widths, the maps
    /// are finite, and the empty signature is not among those folded in.
    pub proof fn state_invariant(&self)
        requires
            self.wf(),
        ensures
            self@.book.dom().finite(),
            self@.births.dom().finite(),
            forall|k: Seq<u8>| #[trigger] self@.book.contains_key(k) ==> k.len() == 96,
            forall|k: Seq<u8>| #[trigger]
                self@.births.contains_key(k) ==> k.len() == 32 && self@.births[k].donor.len() == 32,
            !self@.applied.contains(Seq::empty()),
    {
        assert(self@.book.dom() =~= entries(self.book_tree).dom());
        assert(self@.births.dom() =~= entries(self.births_tree).dom());
        assert forall|k: Seq<u8>| #[trigger] self@.book.contains_key(k) implies k.len() == 96 by {
            assert(entries(self.book_tree).contains_key(k));
        }
        assert forall|k: Seq<u8>| #[trigger] self@.births.contains_key(k) implies k.len() == 32
            && self@.births[k].donor.len() == 32 by {
            assert(entries(self.births_tree).contains_key(k));
        }
    }

    /// An empty state.
    pub fn new() -> (r: Self)
        ensures
            r.wf(),
            r@ == CertifiedSpec::empty(),
    {
        let r = Self {
            book_tree: tree_new(),
            book_keys: 0,
            births_tree: tree_new(),
            births_count: 0,
            applied: AppliedSet::new(),
            anomalies: 0,
        };
        assert(r@ =~= CertifiedSpec::empty());
        r
    }

    /// Fold a settlement into the leaf under the law of the book. An overflow is
    /// refused before anything is written.
    pub fn apply_settlement(&mut self, s: Settled) -> (r: Result<(), Overflow>)
        requires
            old(self).wf(),
        ensures
            final(self).wf(),
            (match r {
                Ok(_) => old(self)@.settled(s@) == Some(final(self)@),
                Err(_) => old(self)@.settled(s@) is None && final(self)@ == old(self)@,
            }),
    {
        let key = book_key(s.chain, s.donor, s.recipient);
        let ghost k = key@;
        let ghost m = entries(self.book_tree);
        let leaf = tree_get(&self.book_tree, key.as_slice());
        let is_new = leaf.is_none();
        let acc: u128 = leaf_value(leaf);
        assert(acc == old(self)@.reputation(k)) by {
            if m.contains_key(k) {
                assert(old(self)@.book.contains_key(k));
            }
        }
        let next: u128 = match fold_one(acc, s.gross) {
            Ok(v) => v,
            Err(e) => {
                return Err(e);
            },
        };
        if is_new {
            self.book_keys = self.book_keys.saturating_add(1);
        }
        let value = u128_to_le_bytes(next);
        tree_insert(&mut self.book_tree, key, value);
        proof {
            lemma_auto_spec_u128_to_from_le_bytes();
            assert(self@.book =~= old(self)@.book.insert(k, next));
            assert(self@ =~= old(self)@.credited(k, next));
            assert(entries(self.book_tree).dom() =~= m.dom().insert(k));
        }
        Ok(())
    }

    /// Record an escrow birth. Recording an escrow again overwrites the leaf and
    /// does not move the count; recording the same birth again changes nothing, not
    /// even a root.
    pub fn record_birth(&mut self, escrow: [u8; 32], b: Birth)
        requires
            old(self).wf(),
        ensures
            final(self).wf(),
            final(self)@ == old(self)@.born(escrow@, b@),
            old(self)@.births.contains_key(escrow@) && old(self)@.births[escrow@] == b@
                ==> final(self)@ == old(self)@,
    {
        let key = vstd::slice::slice_to_vec(&escrow);
        let ghost m = entries(self.births_tree);
        if tree_get(&self.births_tree, key.as_slice()).is_none() {
            self.births_count = self.births_count.saturating_add(1);
        }
        let mut v: Vec<u8> = Vec::with_capacity(40);
        v.extend_from_slice(&b.donor);
        let slot = u64_to_le_bytes(b.slot);
        v.extend_from_slice(slot.as_slice());
        let ghost leaf = v@;
        proof {
            lemma_auto_spec_u64_to_from_le_bytes();
            assert(leaf =~= b.donor@ + spec_u64_to_le_bytes(b.slot));
            assert(leaf.subrange(0, 32) =~= b.donor@);
            assert(leaf.subrange(32, 40) =~= spec_u64_to_le_bytes(b.slot));
        }
        tree_insert(&mut self.births_tree, key, v);
        proof {
            assert(birth_in(leaf) == b@);
            assert(self@.births =~= old(self)@.births.insert(escrow@, b@));
            assert(self@ =~= old(self)@.born(escrow@, b@));
            assert(entries(self.births_tree).dom() =~= m.dom().insert(escrow@));
            if old(self)@.births.contains_key(escrow@) && old(self)@.births[escrow@] == b@ {
                assert(m.contains_key(escrow@));
                assert(m[escrow@] =~= m[escrow@].subrange(0, 32) + m[escrow@].subrange(32, 40));
                assert(m[escrow@] == leaf);
                assert(self@.births =~= old(self)@.births);
                assert(self@ =~= old(self)@);
            }
        }
    }

    /// The recorded birth of `escrow`, read straight off the certified leaf.
    pub fn birth(&self, escrow: &[u8; 32]) -> (r: Option<Birth>)
        requires
            self.wf(),
        ensures
            r is Some <==> self@.births.contains_key(escrow@),
            r matches Some(b) ==> b@ == self@.births[escrow@],
    {
        match tree_get(&self.births_tree, escrow.as_slice()) {
            Some(v) => birth_leaf(v.as_slice()),
            None => None,
        }
    }

    /// One page of recorded births in escrow order, starting strictly after
    /// `start_after` (or at the beginning). At most `limit` entries.
    pub fn births_page(&self, start_after: Option<[u8; 32]>, limit: usize) -> (r: Vec<
        ([u8; 32], Birth),
    >)
        requires
            self.wf(),
        ensures
            is_page(
                births_listed(r@),
                self@.births,
                (match start_after {
                    Some(c) => Some(c@),
                    None => None,
                }),
                limit as nat,
            ),
    {
        let list = tree_iter(&self.births_tree);
        let ghost m = entries(self.births_tree);
        let ghost from: Option<Seq<u8>> = match start_after {
            Some(c) => Some(c@),
            None => None,
        };
        let (start, end) = match &start_after {
            Some(c) => page_bounds(&list, Some(c.as_slice()), limit, Ghost(m)),
            None => page_bounds(&list, None, limit, Ghost(m)),
        };
        let ghost page = pairs(list@).subrange(start as int, end as int);
        let mut out: Vec<([u8; 32], Birth)> = Vec::new();
        let mut i: usize = start;
        while i < end
            invariant
                self.wf(),
                m == entries(self.births_tree),
                start <= i <= end <= list@.len(),
                page == pairs(list@).subrange(start as int, end as int),
                is_page(page, m, from, limit as nat),
                out@.len() == i - start,
                forall|j: int|
                    0 <= j < out@.len() ==> #[trigger] births_listed(out@)[j] == (
                        page[j].0,
                        birth_in(page[j].1),
                    ),
            decreases end - i,
        {
            let (k, v) = list[i];
            let ghost e = page[i - start];
            assert(e == (k@, v@));
            assert(m.contains_key(e.0) && m[e.0] == e.1);
            let ghost before = out@;
            match (array32(k.as_slice()), birth_leaf(v.as_slice())) {
                (Some(escrow), Some(b)) => {
                    out.push((escrow, b));
                    assert forall|j: int| 0 <= j < out@.len() implies #[trigger] births_listed(
                        out@,
                    )[j] == (page[j].0, birth_in(page[j].1)) by {
                        if j < before.len() {
                            assert(births_listed(out@)[j] == births_listed(before)[j]);
                        }
                    }
                },
                _ => {
                    assert(false);
                },
            }
            i += 1;
        }
        proof {
            let f = |v: Seq<u8>| birth_in(v);
            lemma_page_of_values(page, births_listed(out@), m, f, from, limit as nat);
        }
        out
    }

    /// Number of recorded births: one half of the capacity gauge.
    pub fn births_count(&self) -> (r: u64)
        requires
            self.wf(),
        ensures
            r == capped(self@.births.dom().len()),
    {
        assert(self@.births.dom() =~= entries(self.births_tree).dom());
        self.births_count
    }

    /// One page of book entries in key order, starting strictly after
    /// `start_after` (or at the beginning). At most `limit` entries.
    pub fn book_page(&self, start_after: Option<&[u8]>, limit: usize) -> (r: Vec<
        (ChainId, [u8; 32], [u8; 32], u128),
    >)
        requires
            self.wf(),
        ensures
            is_page(
                book_listed(r@),
                self@.book,
                (match start_after {
                    Some(c) => Some(c@),
                    None => None,
                }),
                limit as nat,
            ),
    {
        let list = tree_iter(&self.book_tree);
        let ghost m = entries(self.book_tree);
        let ghost from: Option<Seq<u8>> = match start_after {
            Some(c) => Some(c@),
            None => None,
        };
        let (start, end) = page_bounds(&list, start_after, limit, Ghost(m));
        let ghost page = pairs(list@).subrange(start as int, end as int);
        let mut out: Vec<(ChainId, [u8; 32], [u8; 32], u128)> = Vec::new();
        let mut i: usize = start;
        while i < end
            invariant
                self.wf(),
                m == entries(self.book_tree),
                start <= i <= end <= list@.len(),
                page == pairs(list@).subrange(start as int, end as int),
                is_page(page, m, from, limit as nat),
                out@.len() == i - start,
                forall|j: int|
                    0 <= j < out@.len() ==> #[trigger] book_listed(out@)[j] == (
                        page[j].0,
                        spec_u128_from_le_bytes(page[j].1),
                    ),
            decreases end - i,
        {
            let (k, v) = list[i];
            let ghost e = page[i - start];
            assert(e == (k@, v@));
            assert(m.contains_key(e.0) && m[e.0] == e.1);
            let ghost before = out@;
            match (
                array32(slice_subrange(k.as_slice(), 0, 32)),
                array32(slice_subrange(k.as_slice(), 32, 64)),
                array32(slice_subrange(k.as_slice(), 64, 96)),
            ) {
                (Some(chain), Some(donor), Some(recipient)) => {
                    out.push((ChainId(chain), donor, recipient, leaf_value(Some(v))));
                    assert(key_of(chain@, donor@, recipient@) =~= k@);
                    assert forall|j: int| 0 <= j < out@.len() implies #[trigger] book_listed(
                        out@,
                    )[j] == (page[j].0, spec_u128_from_le_bytes(page[j].1)) by {
                        if j < before.len() {
                            assert(book_listed(out@)[j] == book_listed(before)[j]);
                        }
                    }
                },
                _ => {
                    assert(false);
                },
            }
            i += 1;
        }
        proof {
            let f = |v: Seq<u8>| spec_u128_from_le_bytes(v);
            lemma_page_of_values(page, book_listed(out@), m, f, from, limit as nat);
        }
        out
    }

    /// Number of populated book keys: the other half of the capacity gauge.
    pub fn book_keys(&self) -> (r: u64)
        requires
            self.wf(),
        ensures
            r == capped(self@.book.dom().len()),
    {
        assert(self@.book.dom() =~= entries(self.book_tree).dom());
        self.book_keys
    }

    /// Attribute a settlement's real donor: a settlement whose payer is a known
    /// escrow is credited to the escrow's funding donor; otherwise the payer
    /// stands.
    pub fn attribute(&self, event: Settled) -> (r: Settled)
        requires
            self.wf(),
        ensures
            r@ == self@.attributed(event@),
    {
        match self.birth(&event.donor) {
            Some(b) => Settled { donor: b.donor, ..event },
            None => event,
        }
    }

    /// Whether a signature has already been folded in.
    pub fn is_applied(&self, signature: &[u8]) -> (r: bool)
        requires
            self.wf(),
        ensures
            r == self@.applied.contains(signature@),
    {
        self.applied.contains(signature)
    }

    /// Mark a non-empty signature applied. Empty signatures are never marked.
    /// Returns `true` if newly inserted.
    pub fn mark_applied(&mut self, signature: Vec<u8>) -> (r: bool)
        requires
            old(self).wf(),
        ensures
            final(self).wf(),
            final(self)@ == old(self)@.marked(signature@),
            r == (signature@.len() > 0 && !old(self)@.applied.contains(signature@)),
    {
        if signature.is_empty() {
            return false;
        }
        let ghost s = signature@;
        let r = self.applied.insert(signature);
        assert(self@ =~= old(self)@.marked(s));
        r
    }

    /// How many signatures are folded in.
    pub fn applied_count(&self) -> (r: u64)
        requires
            self.wf(),
        ensures
            r == self@.applied.len(),
            self@.applied.finite(),
    {
        self.applied.len() as u64
    }

    /// Record cross-check anomalies from one transaction (saturating).
    pub fn add_anomalies(&mut self, n: u64)
        requires
            old(self).wf(),
        ensures
            final(self).wf(),
            final(self)@ == old(self)@.with_anomalies(n),
    {
        self.anomalies = self.anomalies.saturating_add(n);
        assert(self@ =~= old(self)@.with_anomalies(n));
    }

    /// Cross-check anomalies counted so far.
    pub fn anomaly_count(&self) -> (r: u64)
        ensures
            r == self@.anomalies,
    {
        self.anomalies
    }

    /// Reputation at a key (0 if absent), read straight off the certified leaf.
    pub fn reputation(&self, chain: ChainId, donor: [u8; 32], recipient: [u8; 32]) -> (r: u128)
        requires
            self.wf(),
        ensures
            r == self@.reputation(key_of(chain.0@, donor@, recipient@)),
    {
        let key = book_key(chain, donor, recipient);
        assert(self@.book.contains_key(key@) <==> entries(self.book_tree).contains_key(key@));
        leaf_value(tree_get(&self.book_tree, key.as_slice()))
    }

    /// The labeled hash of the book sub-tree.
    fn book_leaf(&self) -> (h: TreeHash)
        ensures
            h@ == self@.book_leaf(),
    {
        labeled_hash("book".as_bytes(), &tree_root(&self.book_tree))
    }

    /// The labeled hash of the births sub-tree.
    fn births_leaf(&self) -> (h: TreeHash)
        ensures
            h@ == self@.births_leaf(),
    {
        labeled_hash("births".as_bytes(), &tree_root(&self.births_tree))
    }

    /// The combined root: a labeled fork of the two sub-trees.
    pub fn combined_root(&self) -> (h: TreeHash)
        ensures
            h@ == self@.root(),
    {
        fork_hash(&self.book_leaf(), &self.births_leaf())
    }

    /// The root of the book tree.
    pub fn book_root(&self) -> (h: TreeHash)
        ensures
            h@ == self@.book_shape.subtree_digest(),
    {
        tree_root(&self.book_tree)
    }

    /// The root of the births tree.
    pub fn births_root(&self) -> (h: TreeHash)
        ensures
            h@ == self@.births_shape.subtree_digest(),
    {
        tree_root(&self.births_tree)
    }

    /// Witness for a book key: the book sub-witness under its label, forked with
    /// the pruned births sub-tree. It reconstructs to the combined root.
    pub fn book_witness(&self, chain: ChainId, donor: [u8; 32], recipient: [u8; 32]) -> (w: HashTree<
        '_,
    >)
        requires
            self.wf(),
        ensures
            witness_of(w).digest() == self@.root(),
            self@.is_book_witness(witness_of(w), key_of(chain.0@, donor@, recipient@)),
    {
        let key = book_key(chain, donor, recipient);
        let sub = tree_witness(&self.book_tree, key.as_slice());
        let ghost inner = witness_of(sub);
        let w = fork(labeled("book".as_bytes(), sub), pruned(self.births_leaf()));
        proof {
            lemma_auto_spec_u128_to_from_le_bytes();
            let stored = self@.book.map_values(|v: u128| spec_u128_to_le_bytes(v));
            assert(stored =~= entries(self.book_tree)) by {
                assert forall|k: Seq<u8>| #[trigger] entries(self.book_tree).contains_key(
                    k,
                ) implies stored[k] == entries(self.book_tree)[k] by {
                    assert(self@.book.contains_key(k));
                    assert(entries(self.book_tree)[k].len() == 16);
                }
            }
            assert(witness_of(w) == book_branch(inner, self@.births_leaf()));
            reveal_with_fuel(Witness::digest, 3);
        }
        w
    }

    /// Witness for a birth: the pruned book sub-tree forked with the births
    /// sub-witness under its label. It reconstructs to the combined root.
    pub fn birth_witness(&self, escrow: [u8; 32]) -> (w: HashTree<'_>)
        requires
            self.wf(),
        ensures
            witness_of(w).digest() == self@.root(),
            self@.is_birth_witness(witness_of(w), escrow@),
    {
        let sub = tree_witness(&self.births_tree, &escrow);
        let ghost inner = witness_of(sub);
        let w = fork(pruned(self.book_leaf()), labeled("births".as_bytes(), sub));
        proof {
            lemma_auto_spec_u64_to_from_le_bytes();
            let stored = self@.births.map_values(
                |b: BirthSpec| b.donor + spec_u64_to_le_bytes(b.slot),
            );
            assert(stored =~= entries(self.births_tree)) by {
                assert forall|k: Seq<u8>| #[trigger] entries(self.births_tree).contains_key(
                    k,
                ) implies stored[k] == entries(self.births_tree)[k] by {
                    assert(self@.births.contains_key(k));
                    let leaf = entries(self.births_tree)[k];
                    assert(leaf.subrange(0, 32) + leaf.subrange(32, 40) =~= leaf);
                }
            }
            assert(witness_of(w) == births_branch(self@.book_leaf(), inner));
            reveal_with_fuel(Witness::digest, 3);
        }
        w
    }
}

impl Default for Certified {
    fn default() -> (r: Self)
        ensures
            r.wf(),
            r@ == CertifiedSpec::empty(),
    {
        Self::new()
    }
}

} // verus!
