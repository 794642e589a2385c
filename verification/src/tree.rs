//! The certified trees of `ic_certified_map`: a red-black map whose every node
//! commits to its subtree, and the hash trees that witness one key of it.

use crate::bytes::lex_lt;
use crate::digest::sha256_of;
use ic_certified_map::{AsHashTree, HashTree, RbTree};
use vstd::prelude::*;
use vstd::string::*;

verus! {

/// A SHA-256 hash of a (sub-)tree.
pub type TreeHash = [u8; 32];

#[verifier::external_type_specification]
#[verifier::external_body]
#[verifier::reject_recursive_types(K)]
#[verifier::reject_recursive_types(V)]
pub struct ExRbTree<K, V>(ic_certified_map::RbTree<K, V>);

#[verifier::external_type_specification]
#[verifier::external_body]
pub struct ExHashTree<'a>(ic_certified_map::HashTree<'a>);

// ----- hash trees -----

/// What a hash tree is made of.
pub enum Witness {
    /// Nothing: the tree of an empty map.
    Empty,
    /// Two branches.
    Fork(Box<Witness>, Box<Witness>),
    /// A labeled branch.
    Labeled(Seq<u8>, Box<Witness>),
    /// A disclosed value.
    Leaf(Seq<u8>),
    /// A branch replaced by its digest.
    Pruned(Seq<u8>),
}

/// What is disclosed in a hash tree.
pub uninterp spec fn witness_of(t: HashTree<'_>) -> Witness;

/// The domain separator of a kind of node: its length, then its bytes.
pub open spec fn domain(name: &str) -> Seq<u8> {
    seq![name.spec_bytes().len() as u8] + name.spec_bytes()
}

/// The digest of two branches.
pub open spec fn fork_digest(l: Seq<u8>, r: Seq<u8>) -> Seq<u8> {
    sha256_of(domain("ic-hashtree-fork") + l + r)
}

/// The digest of a labeled branch.
pub open spec fn labeled_digest(label: Seq<u8>, content: Seq<u8>) -> Seq<u8> {
    sha256_of(domain("ic-hashtree-labeled") + label + content)
}

/// The digest of a value.
pub open spec fn leaf_digest(value: Seq<u8>) -> Seq<u8> {
    sha256_of(domain("ic-hashtree-leaf") + value)
}

/// The digest of an empty tree.
pub open spec fn empty_digest() -> Seq<u8> {
    sha256_of(domain("ic-hashtree-empty"))
}

impl Witness {
    /// The root hash a verifier reconstructs from a hash tree.
    pub open spec fn digest(self) -> Seq<u8>
        decreases self,
    {
        match self {
            Witness::Empty => empty_digest(),
            Witness::Fork(l, r) => fork_digest(l.digest(), r.digest()),
            Witness::Labeled(label, t) => labeled_digest(label, t.digest()),
            Witness::Leaf(v) => leaf_digest(v),
            Witness::Pruned(h) => h,
        }
    }

    /// The labeled branches of a hash tree, reached through its forks.
    pub open spec fn labels(self) -> Map<Seq<u8>, Witness>
        decreases self,
    {
        match self {
            Witness::Fork(l, r) => l.labels().union_prefer_right(r.labels()),
            Witness::Labeled(label, t) => Map::empty().insert(label, *t),
            _ => Map::empty(),
        }
    }

    /// The CBOR form of a hash tree: an array that starts with the kind of the
    /// node.
    pub open spec fn cbor(self) -> Seq<u8>
        decreases self,
    {
        match self {
            Witness::Empty => cbor_head(4, 1) + seq![0u8],
            Witness::Fork(l, r) => cbor_head(4, 3) + seq![1u8] + l.cbor() + r.cbor(),
            Witness::Labeled(label, t) => cbor_head(4, 3) + seq![2u8] + cbor_bytes(label)
                + t.cbor(),
            Witness::Leaf(v) => cbor_head(4, 2) + seq![3u8] + cbor_bytes(v),
            Witness::Pruned(h) => cbor_head(4, 2) + seq![4u8] + cbor_bytes(h),
        }
    }
}

/// The big-endian bytes of `n` in `width` bytes.
pub open spec fn big_endian(n: nat, width: nat) -> Seq<u8>
    decreases width,
{
    if width == 0 {
        Seq::empty()
    } else {
        big_endian(n / 256, (width - 1) as nat).push((n % 256) as u8)
    }
}

/// The head of a CBOR item: its major type and its argument, as short as it can
/// be.
pub open spec fn cbor_head(major: nat, n: nat) -> Seq<u8> {
    if n < 24 {
        seq![(32 * major + n) as u8]
    } else if n < 0x100 {
        seq![(32 * major + 24) as u8] + big_endian(n, 1)
    } else if n < 0x1_0000 {
        seq![(32 * major + 25) as u8] + big_endian(n, 2)
    } else if n < 0x1_0000_0000 {
        seq![(32 * major + 26) as u8] + big_endian(n, 4)
    } else {
        seq![(32 * major + 27) as u8] + big_endian(n, 8)
    }
}

/// A CBOR byte string.
pub open spec fn cbor_bytes(b: Seq<u8>) -> Seq<u8> {
    cbor_head(2, b.len()) + b
}

/// `ic_certified_map::fork_hash`: SHA-256 over the separator of forks and both
/// hashes.
#[verifier::external_body]
pub(crate) fn fork_hash(l: &TreeHash, r: &TreeHash) -> (h: TreeHash)
    ensures
        h@ == fork_digest(l@, r@),
{
    ic_certified_map::fork_hash(l, r)
}

/// `ic_certified_map::labeled_hash`: SHA-256 over the separator of labels, the
/// label and the hash of what it labels.
#[verifier::external_body]
pub(crate) fn labeled_hash(label: &[u8], content: &TreeHash) -> (h: TreeHash)
    ensures
        h@ == labeled_digest(label@, content@),
{
    ic_certified_map::labeled_hash(label, content)
}

/// `ic_certified_map::fork`: the hash tree of two branches.
#[verifier::external_body]
pub(crate) fn fork<'a>(l: HashTree<'a>, r: HashTree<'a>) -> (t: HashTree<'a>)
    ensures
        witness_of(t) == Witness::Fork(Box::new(witness_of(l)), Box::new(witness_of(r))),
{
    ic_certified_map::fork(l, r)
}

/// `ic_certified_map::labeled`: the hash tree of a labeled branch.
#[verifier::external_body]
pub(crate) fn labeled<'a>(label: &'a [u8], t: HashTree<'a>) -> (r: HashTree<'a>)
    ensures
        witness_of(r) == Witness::Labeled(label@, Box::new(witness_of(t))),
{
    ic_certified_map::labeled(label, t)
}

/// `ic_certified_map::HashTree::Pruned`: the hash tree that stands for a branch
/// by its digest.
#[verifier::external_body]
pub(crate) fn pruned<'a>(h: TreeHash) -> (r: HashTree<'a>)
    ensures
        witness_of(r) == Witness::Pruned(h@),
{
    HashTree::Pruned(h)
}

/// `ciborium::into_writer` on a hash tree, whose serialization
/// `ic_certified_map` defines: the standard CBOR form of a hash tree. Writing to
/// a vector does not fail.
#[verifier::external_body]
pub(crate) fn cbor(t: &HashTree<'_>) -> (r: Vec<u8>)
    ensures
        r@ == witness_of(*t).cbor(),
{
    let mut buf = Vec::new();
    let _ = ciborium::into_writer(t, &mut buf);
    buf
}

// ----- certified maps -----

/// The nodes of a certified map. Which shape a map has depends on the order its
/// keys were inserted in.
pub enum Shape {
    Nil,
    Node { red: bool, left: Box<Shape>, key: Seq<u8>, value: Seq<u8>, right: Box<Shape> },
}

impl Shape {
    /// The hash that a non-empty subtree commits to.
    pub open spec fn subtree_digest(self) -> Seq<u8>
        decreases self,
    {
        match self {
            Shape::Nil => empty_digest(),
            Shape::Node { red, left, key, value, right } => {
                let entry = labeled_digest(key, leaf_digest(value));
                let tail = if *right is Nil {
                    entry
                } else {
                    fork_digest(entry, right.subtree_digest())
                };
                if *left is Nil {
                    tail
                } else {
                    fork_digest(left.subtree_digest(), tail)
                }
            },
        }
    }
}

/// The entries of a certified map.
pub uninterp spec fn entries(t: RbTree<Vec<u8>, Vec<u8>>) -> Map<Seq<u8>, Seq<u8>>;

/// The nodes of a certified map.
pub uninterp spec fn shape(t: RbTree<Vec<u8>, Vec<u8>>) -> Shape;

/// The nodes after an insertion, which depend on the nodes before it and on the
/// entry alone.
pub uninterp spec fn shape_inserted(s: Shape, key: Seq<u8>, value: Seq<u8>) -> Shape;

/// Whether `lo` is the greatest key of `m` below `key`.
pub open spec fn is_predecessor(m: Map<Seq<u8>, Seq<u8>>, key: Seq<u8>, lo: Seq<u8>) -> bool {
    &&& m.contains_key(lo)
    &&& lex_lt(lo, key)
    &&& forall|k: Seq<u8>| #[trigger] m.contains_key(k) && lex_lt(k, key) ==> !lex_lt(lo, k)
}

/// Whether `hi` is the smallest key of `m` above `key`.
pub open spec fn is_successor(m: Map<Seq<u8>, Seq<u8>>, key: Seq<u8>, hi: Seq<u8>) -> bool {
    &&& m.contains_key(hi)
    &&& lex_lt(key, hi)
    &&& forall|k: Seq<u8>| #[trigger] m.contains_key(k) && lex_lt(key, k) ==> !lex_lt(k, hi)
}

/// What a hash tree discloses of `key` in `m`: its value and nothing else, or,
/// where it is absent, exactly the labels next to it, with their values pruned.
pub open spec fn discloses(w: Witness, m: Map<Seq<u8>, Seq<u8>>, key: Seq<u8>) -> bool {
    if m.contains_key(key) {
        w.labels() == Map::empty().insert(key, Witness::Leaf(m[key]))
    } else {
        forall|k: Seq<u8>|
            {
                &&& #[trigger] w.labels().contains_key(k) <==> is_predecessor(m, key, k)
                    || is_successor(m, key, k)
                &&& w.labels().contains_key(k) ==> w.labels()[k] == Witness::Pruned(
                    leaf_digest(m[k]),
                )
            }
    }
}

/// Whether `list` holds the entries of `m`, each once, in the order of the keys.
pub open spec fn in_key_order(list: Seq<(Seq<u8>, Seq<u8>)>, m: Map<Seq<u8>, Seq<u8>>) -> bool {
    &&& forall|i: int, j: int|
        0 <= i < j < list.len() ==> lex_lt(#[trigger] list[i].0, #[trigger] list[j].0)
    &&& forall|i: int|
        0 <= i < list.len() ==> m.contains_key(#[trigger] list[i].0) && m[list[i].0] == list[i].1
    &&& forall|k: Seq<u8>| #[trigger]
        m.contains_key(k) ==> exists|i: int| 0 <= i < list.len() && (#[trigger] list[i]).0 == k
}

/// The entries handed out by reference.
pub open spec fn pairs(v: Seq<(&Vec<u8>, &Vec<u8>)>) -> Seq<(Seq<u8>, Seq<u8>)> {
    Seq::new(v.len(), |i: int| (v[i].0@, v[i].1@))
}

/// `ic_certified_map::RbTree::new`: a map without entries or nodes.
#[verifier::external_body]
pub(crate) fn tree_new() -> (t: RbTree<Vec<u8>, Vec<u8>>)
    ensures
        entries(t).dom() == Set::<Seq<u8>>::empty(),
        shape(t) == Shape::Nil,
{
    RbTree::new()
}

/// `ic_certified_map::RbTree::get`: the value under a key.
#[verifier::external_body]
pub(crate) fn tree_get<'a>(t: &'a RbTree<Vec<u8>, Vec<u8>>, key: &[u8]) -> (r: Option<
    &'a Vec<u8>,
>)
    ensures
        r is Some <==> entries(*t).contains_key(key@),
        r matches Some(v) ==> v@ == entries(*t)[key@],
{
    t.get(key)
}

/// `ic_certified_map::RbTree::insert`: sets the value under a key. The nodes
/// after it are fixed by the nodes before it, the key and the value. Setting the
/// value that is already there leaves the nodes as they are: on the way back
/// nothing is out of balance.
#[verifier::external_body]
pub(crate) fn tree_insert(t: &mut RbTree<Vec<u8>, Vec<u8>>, key: Vec<u8>, value: Vec<u8>)
    ensures
        entries(*final(t)) == entries(*old(t)).insert(key@, value@),
        shape(*final(t)) == shape_inserted(shape(*old(t)), key@, value@),
        entries(*old(t)).contains_key(key@) && entries(*old(t))[key@] == value@ ==> shape(
            *final(t),
        ) == shape(*old(t)),
{
    t.insert(key, value)
}

/// `ic_certified_map::RbTree::iter`, read to its end: the entries in the order of
/// their keys.
#[verifier::external_body]
pub(crate) fn tree_iter<'a>(t: &'a RbTree<Vec<u8>, Vec<u8>>) -> (r: Vec<
    (&'a Vec<u8>, &'a Vec<u8>),
>)
    ensures
        in_key_order(pairs(r@), entries(*t)),
{
    t.iter().collect()
}

/// `ic_certified_map::RbTree::root_hash`: the hash the map commits to.
#[verifier::external_body]
pub(crate) fn tree_root(t: &RbTree<Vec<u8>, Vec<u8>>) -> (h: TreeHash)
    ensures
        h@ == shape(*t).subtree_digest(),
{
    t.root_hash()
}

/// `ic_certified_map::RbTree::witness`: a hash tree that reconstructs to the root
/// of the map and discloses the entry under `key`, or proves that there is none.
#[verifier::external_body]
pub(crate) fn tree_witness<'a>(t: &'a RbTree<Vec<u8>, Vec<u8>>, key: &[u8]) -> (w: HashTree<'a>)
    ensures
        witness_of(w).digest() == shape(*t).subtree_digest(),
        discloses(witness_of(w), entries(*t), key@),
{
    t.witness(key)
}

} // verus!
