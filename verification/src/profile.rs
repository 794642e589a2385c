//! Reading a profile: `key = value` lines with `#` comments, addresses in base58.
//!
//! Placeholders (any text that is no address) are baked as unset: a zero address,
//! a factory left out. On the frozen `mainnet` profile a placeholder is an error.

use crate::bytes::{same, Address};
use crate::config::{check, first_fault, Incoherent, Profile, ProfileSpec};
use crate::digest::{sha256, sha256_of};
use crate::parse::{decode_pubkey, pubkey_of};
use crate::recognize::addresses;
use crate::text::{
    find, first_of, front_of, rest_of, same_text, starts_with, trim_both, trim_front, trimmed,
    trimmed_front, Edge,
};
use vstd::prelude::*;
use vstd::string::*;

verus! {

/// The keys of a profile.
#[derive(Clone, Copy, Debug, PartialEq, Eq, Structural)]
pub enum Key {
    IngestPrice,
    MinGross,
    CycleFloor,
    AttachCycles,
    ResponseMaxBytes,
    Consensus,
    RpcNodes,
    RpcRequestBytes,
    RpcProviders,
    CutoverSlot,
    Id,
    Splitter,
    Usdc,
    Factories,
}

/// How a key is written.
pub open spec fn key_text(k: Key) -> Seq<char> {
    match k {
        Key::IngestPrice => "ingest_price"@,
        Key::MinGross => "min_gross"@,
        Key::CycleFloor => "cycle_floor"@,
        Key::AttachCycles => "attach_cycles"@,
        Key::ResponseMaxBytes => "response_max_bytes"@,
        Key::Consensus => "consensus"@,
        Key::RpcNodes => "rpc_nodes"@,
        Key::RpcRequestBytes => "rpc_request_bytes"@,
        Key::RpcProviders => "rpc_providers"@,
        Key::CutoverSlot => "cutover_slot"@,
        Key::Id => "id"@,
        Key::Splitter => "splitter"@,
        Key::Usdc => "usdc"@,
        Key::Factories => "factories"@,
    }
}

/// How a key is written.
pub fn key_name(k: Key) -> (r: &'static str)
    ensures
        r@ == key_text(k),
{
    match k {
        Key::IngestPrice => "ingest_price",
        Key::MinGross => "min_gross",
        Key::CycleFloor => "cycle_floor",
        Key::AttachCycles => "attach_cycles",
        Key::ResponseMaxBytes => "response_max_bytes",
        Key::Consensus => "consensus",
        Key::RpcNodes => "rpc_nodes",
        Key::RpcRequestBytes => "rpc_request_bytes",
        Key::RpcProviders => "rpc_providers",
        Key::CutoverSlot => "cutover_slot",
        Key::Id => "id",
        Key::Splitter => "splitter",
        Key::Usdc => "usdc",
        Key::Factories => "factories",
    }
}

/// Why a profile is refused.
#[derive(Clone, Copy, Debug, PartialEq, Eq, Structural)]
pub enum ConfigError {
    /// No line sets the key.
    Missing(Key),
    /// The value of the key is not an integer.
    NotANumber(Key),
    /// The cluster is none of `mainnet`, `devnet`, `testnet`.
    UnknownCluster,
    /// The frozen profile must carry only real addresses.
    BadAddress(Key),
    /// The frozen profile must pin a factory.
    NoFactories,
    /// The recognition roots of the frozen profile must be distinct.
    CollidingRoots,
    /// The numbers do not fit together.
    Incoherent(Incoherent),
}

// ----- lines and values -----

/// The value that a line sets for a key: what follows `key =`, up to a comment,
/// without white space and quotes around it.
pub open spec fn value_in(line: Seq<char>, key: Seq<char>) -> Option<Seq<char>> {
    let t = trim_both(line, Edge::Space);
    let rest = trim_front(t.skip(key.len() as int), Edge::Space);
    if key.is_prefix_of(t) && rest.len() > 0 && rest[0] == '=' {
        let value = rest.skip(1);
        Some(
            trim_both(
                trim_both(value.take(first_of(value, '#') as int), Edge::Space),
                Edge::Quotes,
            ),
        )
    } else {
        None
    }
}

/// The value that the first line to set a key sets.
pub open spec fn value_of(text: Seq<char>, key: Seq<char>) -> Option<Seq<char>>
    decreases text.len(),
{
    let n = first_of(text, '\n');
    match value_in(text.take(n as int), key) {
        Some(v) => Some(v),
        None => if n < text.len() {
            value_of(text.skip(n as int + 1), key)
        } else {
            None
        },
    }
}

/// The value that a line sets for a key.
fn line_value<'a>(line: &'a str, key: &str) -> (r: Option<&'a str>)
    ensures
        (match r {
            Some(v) => value_in(line@, key@) == Some(v@),
            None => value_in(line@, key@) is None,
        }),
{
    let t = trimmed(line, Edge::Space);
    if !starts_with(t, key) {
        return None;
    }
    let rest = trimmed_front(rest_of(t, key.unicode_len()), Edge::Space);
    if rest.unicode_len() == 0 || rest.get_char(0) != '=' {
        return None;
    }
    let value = rest_of(rest, 1);
    Some(trimmed(trimmed(front_of(value, find(value, '#')), Edge::Space), Edge::Quotes))
}

/// The value of a key, or `None` if no line sets it.
pub fn read_value<'a>(text: &'a str, key: &str) -> (r: Option<&'a str>)
    ensures
        (match r {
            Some(v) => value_of(text@, key@) == Some(v@),
            None => value_of(text@, key@) is None,
        }),
{
    let mut rest: &'a str = text;
    loop
        invariant
            value_of(text@, key@) == value_of(rest@, key@),
        decreases rest@.len(),
    {
        let n = find(rest, '\n');
        let found = line_value(front_of(rest, n), key);
        if found.is_some() {
            return found;
        }
        if n >= rest.unicode_len() {
            return None;
        }
        rest = rest_of(rest, n + 1);
    }
}

// ----- numbers -----

/// A text without the digit separators.
pub open spec fn without_separators(s: Seq<char>) -> Seq<char>
    decreases s.len(),
{
    if s.len() == 0 {
        s
    } else if s.last() == '_' {
        without_separators(s.drop_last())
    } else {
        without_separators(s.drop_last()).push(s.last())
    }
}

/// Whether a text is one or more decimal digits.
pub open spec fn is_decimal(s: Seq<char>) -> bool {
    s.len() > 0 && forall|i: int| 0 <= i < s.len() ==> '0' <= #[trigger] s[i] <= '9'
}

/// The number that decimal digits write.
pub open spec fn decimal_value(s: Seq<char>) -> nat
    decreases s.len(),
{
    if s.len() == 0 {
        0
    } else {
        decimal_value(s.drop_last()) * 10 + (s.last() as nat - '0' as nat) as nat
    }
}

/// A number with its sign, if it has one, left off.
pub open spec fn unsigned(s: Seq<char>) -> Seq<char> {
    if s.len() > 0 && s[0] == '+' {
        s.skip(1)
    } else {
        s
    }
}

/// The number that a value writes, tolerating `_` digit separators and a leading
/// `+`.
pub open spec fn number_of(raw: Seq<char>) -> Option<u128> {
    let digits = unsigned(without_separators(raw));
    if is_decimal(digits) && decimal_value(digits) <= u128::MAX {
        Some(decimal_value(digits) as u128)
    } else {
        None
    }
}

/// More digits write no smaller number.
proof fn lemma_decimal_grows(s: Seq<char>, n: int)
    requires
        0 <= n <= s.len(),
    ensures
        decimal_value(s.take(n)) <= decimal_value(s),
    decreases s.len(),
{
    if n == s.len() {
        assert(s.take(n) =~= s);
    } else {
        lemma_decimal_grows(s.drop_last(), n);
        assert(s.drop_last().take(n) =~= s.take(n));
    }
}

/// The characters of a value that are no digit separators.
fn separated(raw: &str) -> (r: Vec<char>)
    ensures
        r@ == without_separators(raw@),
{
    let len = raw.unicode_len();
    let mut out: Vec<char> = Vec::new();
    let mut i: usize = 0;
    assert(raw@.take(0) =~= Seq::empty());
    while i < len
        invariant
            i <= len,
            len == raw@.len(),
            out@ == without_separators(raw@.take(i as int)),
        decreases len - i,
    {
        let c = raw.get_char(i);
        assert(raw@.take(i + 1).drop_last() =~= raw@.take(i as int));
        if c != '_' {
            out.push(c);
        }
        i += 1;
    }
    assert(raw@.take(i as int) =~= raw@);
    out
}

/// The number that a value writes, tolerating `_` digit separators, or `None`.
pub fn read_number(raw: &str) -> (r: Option<u128>)
    ensures
        r == number_of(raw@),
{
    let chars = separated(raw);
    let start: usize = if chars.len() > 0 && chars[0] == '+' {
        1
    } else {
        0
    };
    let ghost digits = unsigned(chars@);
    assert(digits =~= chars@.skip(start as int));
    if chars.len() == start {
        return None;
    }
    let mut acc: u128 = 0;
    let mut i: usize = start;
    assert(digits.take(0) =~= Seq::empty());
    while i < chars.len()
        invariant
            start <= i <= chars@.len(),
            digits == chars@.skip(start as int),
            digits == unsigned(without_separators(raw@)),
            acc == decimal_value(digits.take(i - start)),
            forall|k: int| 0 <= k < i - start ==> '0' <= #[trigger] digits[k] <= '9',
        decreases chars@.len() - i,
    {
        let c = chars[i];
        assert(digits[i - start] == c);
        if c < '0' || c > '9' {
            return None;
        }
        let d: u128 = (c as u32 - '0' as u32) as u128;
        proof {
            assert(digits.take(i - start + 1).drop_last() =~= digits.take(i - start));
            assert(digits.take(i - start + 1).last() == c);
            lemma_decimal_grows(digits, i - start + 1);
        }
        acc =
        match acc.checked_mul(10) {
            Some(v) => match v.checked_add(d) {
                Some(w) => w,
                None => {
                    return None;
                },
            },
            None => {
                return None;
            },
        };
        i += 1;
    }
    assert(digits.take(i - start) =~= digits);
    Some(acc)
}

// ----- factories -----

/// The first line that starts with `factories`.
pub open spec fn factories_line(text: Seq<char>) -> Option<Seq<char>>
    decreases text.len(),
{
    let n = first_of(text, '\n');
    let line = text.take(n as int);
    if "factories"@.is_prefix_of(trim_front(line, Edge::Space)) {
        Some(line)
    } else if n < text.len() {
        factories_line(text.skip(n as int + 1))
    } else {
        None
    }
}

/// What stands between the first `[` of a line and the next `]`, if both are
/// there.
pub open spec fn bracketed(line: Seq<char>) -> Seq<char> {
    let a = first_of(line, '[');
    let inner = line.skip(a as int + 1);
    let b = first_of(inner, ']');
    if a < line.len() && b < inner.len() {
        inner.take(b as int)
    } else {
        Seq::empty()
    }
}

/// One element of a list, without white space and quotes around it; none where
/// nothing is left.
pub open spec fn element(s: Seq<char>) -> Seq<Seq<char>> {
    let e = trim_both(trim_both(s, Edge::Space), Edge::Quotes);
    if e.len() == 0 {
        Seq::empty()
    } else {
        seq![e]
    }
}

/// The elements of a comma-separated list.
pub open spec fn elements(s: Seq<char>) -> Seq<Seq<char>>
    decreases s.len(),
{
    let n = first_of(s, ',');
    if n < s.len() {
        element(s.take(n as int)) + elements(s.skip(n as int + 1))
    } else {
        element(s)
    }
}

/// The addresses among texts; a placeholder is left out.
pub open spec fn addresses_among(texts: Seq<Seq<char>>) -> Seq<Seq<u8>>
    decreases texts.len(),
{
    if texts.len() == 0 {
        Seq::empty()
    } else {
        match pubkey_of(texts.last()) {
            Some(a) => addresses_among(texts.drop_last()).push(a),
            None => addresses_among(texts.drop_last()),
        }
    }
}

/// The first line that starts with `factories`.
fn read_factories_line<'a>(text: &'a str) -> (r: Option<&'a str>)
    ensures
        (match r {
            Some(l) => factories_line(text@) == Some(l@),
            None => factories_line(text@) is None,
        }),
{
    let mut rest: &'a str = text;
    loop
        invariant
            factories_line(text@) == factories_line(rest@),
        decreases rest@.len(),
    {
        let n = find(rest, '\n');
        let line = front_of(rest, n);
        if starts_with(trimmed_front(line, Edge::Space), "factories") {
            return Some(line);
        }
        if n >= rest.unicode_len() {
            return None;
        }
        rest = rest_of(rest, n + 1);
    }
}

/// What stands between the brackets of a line.
fn read_bracketed<'a>(line: &'a str) -> (r: &'a str)
    ensures
        r@ == bracketed(line@),
{
    let a = find(line, '[');
    if a >= line.unicode_len() {
        let r = front_of(line, 0);
        assert(r@ =~= Seq::empty());
        return r;
    }
    let inner = rest_of(line, a + 1);
    let b = find(inner, ']');
    if b >= inner.unicode_len() {
        let r = front_of(line, 0);
        assert(r@ =~= Seq::empty());
        return r;
    }
    front_of(inner, b)
}

/// Texts as what they say.
pub open spec fn texts_listed(v: Seq<&str>) -> Seq<Seq<char>> {
    Seq::new(v.len(), |i: int| v[i]@)
}

/// The bracketed `factories = ["a", "b"]` list as its quoted elements.
fn read_elements<'a>(list: &'a str) -> (r: Vec<&'a str>)
    ensures
        texts_listed(r@) == elements(list@),
{
    let mut out: Vec<&'a str> = Vec::new();
    let mut rest: &'a str = list;
    assert(elements(list@) =~= texts_listed(out@) + elements(rest@));
    loop
        invariant
            elements(list@) == texts_listed(out@) + elements(rest@),
        decreases rest@.len(),
    {
        let n = find(rest, ',');
        let e = trimmed(trimmed(front_of(rest, n), Edge::Space), Edge::Quotes);
        let last = n >= rest.unicode_len();
        proof {
            if last {
                assert(rest@.take(n as int) =~= rest@);
            }
        }
        let ghost before = texts_listed(out@);
        if e.unicode_len() > 0 {
            out.push(e);
            assert(texts_listed(out@) =~= before + seq![e@]);
        }
        assert(texts_listed(out@) =~= before + element(rest@.take(n as int)));
        if last {
            assert(elements(list@) =~= texts_listed(out@));
            return out;
        }
        let tail = rest_of(rest, n + 1);
        assert(before + (element(rest@.take(n as int)) + elements(tail@)) =~= texts_listed(out@)
            + elements(tail@));
        rest = tail;
    }
}

/// The addresses among texts, and whether there was a placeholder.
fn read_addresses(texts: &Vec<&str>) -> (r: (Vec<Address>, bool))
    ensures
        addresses(r.0@) == addresses_among(texts_listed(texts@)),
        r.1 <==> exists|i: int|
            0 <= i < texts@.len() && pubkey_of(#[trigger] texts_listed(texts@)[i]) is None,
{
    let ghost all = texts_listed(texts@);
    let mut out: Vec<Address> = Vec::new();
    let mut unset: bool = false;
    let mut n: usize = 0;
    assert(all.take(0) =~= Seq::empty());
    assert(addresses(out@) =~= Seq::empty());
    while n < texts.len()
        invariant
            n <= texts@.len(),
            all == texts_listed(texts@),
            addresses(out@) == addresses_among(all.take(n as int)),
            unset <==> exists|i: int| 0 <= i < n && pubkey_of(#[trigger] all[i]) is None,
        decreases texts@.len() - n,
    {
        let ghost before = out@;
        assert(all.take(n + 1).drop_last() =~= all.take(n as int));
        assert(all.take(n + 1).last() == texts@[n as int]@);
        assert(all[n as int] == texts@[n as int]@);
        match decode_pubkey(texts[n]) {
            Some(a) => {
                out.push(a);
                assert(addresses(out@) =~= addresses(before).push(a@));
            },
            None => {
                unset = true;
                assert(pubkey_of(all[n as int]) is None);
            },
        }
        n += 1;
    }
    assert(all.take(n as int) =~= all);
    (out, unset)
}

// ----- the profile -----

/// The first of two faults.
pub open spec fn or_fault(a: Option<ConfigError>, b: Option<ConfigError>) -> Option<ConfigError> {
    if a is Some {
        a
    } else {
        b
    }
}

/// What is wrong with a number.
pub open spec fn number_fault(text: Seq<char>, k: Key) -> Option<ConfigError> {
    match value_of(text, key_text(k)) {
        Some(v) => if number_of(v) is None {
            Some(ConfigError::NotANumber(k))
        } else {
            None
        },
        None => Some(ConfigError::Missing(k)),
    }
}

/// A number of a text that sets it.
pub open spec fn number_at(text: Seq<char>, k: Key) -> u128 {
    number_of(value_of(text, key_text(k))->0)->0
}

/// The code of a cluster.
pub open spec fn cluster_code(id: Seq<char>) -> Option<u8> {
    if id == "mainnet"@ {
        Some(0u8)
    } else if id == "devnet"@ {
        Some(1u8)
    } else if id == "testnet"@ {
        Some(2u8)
    } else {
        None
    }
}

/// The identity of a chain: `sha256("crown-chain:v1:" ‖ id)`.
pub open spec fn chain_id_of(cluster: u8) -> Seq<u8> {
    let id = if cluster == 0 {
        "mainnet".spec_bytes()
    } else if cluster == 1 {
        "devnet".spec_bytes()
    } else {
        "testnet".spec_bytes()
    };
    sha256_of("crown-chain:v1:".spec_bytes() + id)
}

/// What is wrong with the cluster.
pub open spec fn cluster_fault(text: Seq<char>) -> Option<ConfigError> {
    match value_of(text, key_text(Key::Id)) {
        Some(id) => if cluster_code(id) is None {
            Some(ConfigError::UnknownCluster)
        } else {
            None
        },
        None => Some(ConfigError::Missing(Key::Id)),
    }
}

/// What is wrong with an address.
pub open spec fn address_fault(text: Seq<char>, k: Key, strict: bool) -> Option<ConfigError> {
    match value_of(text, key_text(k)) {
        Some(v) => if strict && pubkey_of(v) is None {
            Some(ConfigError::BadAddress(k))
        } else {
            None
        },
        None => Some(ConfigError::Missing(k)),
    }
}

/// An address of a text that sets it: zero for a placeholder.
pub open spec fn address_at(text: Seq<char>, k: Key) -> Seq<u8> {
    match pubkey_of(value_of(text, key_text(k))->0) {
        Some(a) => a,
        None => Seq::new(32, |i: int| 0u8),
    }
}

/// The elements of the factory list of a text that has one.
pub open spec fn factory_texts(text: Seq<char>) -> Seq<Seq<char>> {
    elements(bracketed(factories_line(text)->0))
}

/// What is wrong with the factory list.
pub open spec fn factories_fault(text: Seq<char>, strict: bool) -> Option<ConfigError> {
    if factories_line(text) is None {
        Some(ConfigError::Missing(Key::Factories))
    } else if strict && exists|i: int|
        0 <= i < factory_texts(text).len() && pubkey_of(#[trigger] factory_texts(text)[i]) is None {
        Some(ConfigError::BadAddress(Key::Factories))
    } else {
        None
    }
}

/// Whether the recognition roots are distinct: the splitter is not the mint, and
/// no factory is either of them or listed twice.
pub open spec fn distinct_roots(p: ProfileSpec) -> bool {
    &&& p.splitter != p.usdc
    &&& forall|i: int|
        0 <= i < p.factories.len() ==> #[trigger] p.factories[i] != p.splitter && p.factories[i]
            != p.usdc
    &&& forall|i: int, j: int|
        0 <= i < j < p.factories.len() ==> #[trigger] p.factories[i] != #[trigger] p.factories[j]
}

/// What is wrong with the recognition roots of the frozen profile.
pub open spec fn roots_fault(p: ProfileSpec, strict: bool) -> Option<ConfigError> {
    if strict && p.factories.len() == 0 {
        Some(ConfigError::NoFactories)
    } else if strict && !distinct_roots(p) {
        Some(ConfigError::CollidingRoots)
    } else {
        None
    }
}

/// What is wrong with the numbers of a profile.
pub open spec fn coherence_fault(p: ProfileSpec) -> Option<ConfigError> {
    match first_fault(p) {
        Some(e) => Some(ConfigError::Incoherent(e)),
        None => None,
    }
}

/// What is wrong with a text: the first fault in the order the keys are read.
pub open spec fn text_fault(text: Seq<char>, strict: bool) -> Option<ConfigError> {
    or_fault(
        numbers_fault(text),
        or_fault(
            cluster_fault(text),
            or_fault(
                address_fault(text, Key::Splitter, strict),
                or_fault(address_fault(text, Key::Usdc, strict), factories_fault(text, strict)),
            ),
        ),
    )
}

/// What is wrong with the numbers of a text.
pub open spec fn numbers_fault(text: Seq<char>) -> Option<ConfigError> {
    or_fault(
        number_fault(text, Key::IngestPrice),
        or_fault(
            number_fault(text, Key::MinGross),
            or_fault(
                number_fault(text, Key::CycleFloor),
                or_fault(
                    number_fault(text, Key::AttachCycles),
                    or_fault(
                        number_fault(text, Key::ResponseMaxBytes),
                        or_fault(
                            number_fault(text, Key::Consensus),
                            or_fault(
                                number_fault(text, Key::RpcNodes),
                                or_fault(
                                    number_fault(text, Key::RpcRequestBytes),
                                    or_fault(
                                        number_fault(text, Key::RpcProviders),
                                        number_fault(text, Key::CutoverSlot),
                                    ),
                                ),
                            ),
                        ),
                    ),
                ),
            ),
        ),
    )
}

/// The boundary of a generation: a slot of zero means that there is none.
pub open spec fn cutover_of(slot: u64) -> Option<u64> {
    if slot == 0 {
        None
    } else {
        Some(slot)
    }
}

/// The profile that a text without faults writes. A number too wide for its field
/// keeps its low bits.
pub open spec fn profile_of(name: Seq<char>, text: Seq<char>) -> ProfileSpec {
    let cluster = cluster_code(value_of(text, key_text(Key::Id))->0)->0;
    ProfileSpec {
        name,
        ingest_price: number_at(text, Key::IngestPrice),
        min_gross: number_at(text, Key::MinGross),
        cycle_floor: number_at(text, Key::CycleFloor),
        attach_cycles: number_at(text, Key::AttachCycles),
        response_max_bytes: (number_at(text, Key::ResponseMaxBytes) % 0x1_0000_0000_0000_0000)
            as u64,
        consensus: (number_at(text, Key::Consensus) % 0x100) as u8,
        cluster,
        chain_id: chain_id_of(cluster),
        splitter: address_at(text, Key::Splitter),
        usdc: address_at(text, Key::Usdc),
        factories: addresses_among(factory_texts(text)),
        rpc_nodes: number_at(text, Key::RpcNodes),
        rpc_request_bytes: number_at(text, Key::RpcRequestBytes),
        rpc_providers: number_at(text, Key::RpcProviders),
        cutover_slot: cutover_of(
            (number_at(text, Key::CutoverSlot) % 0x1_0000_0000_0000_0000) as u64,
        ),
    }
}

/// What is wrong with a profile: with its text, with its recognition roots where
/// it is the frozen one, or with its numbers.
pub open spec fn profile_fault(name: Seq<char>, text: Seq<char>) -> Option<ConfigError> {
    let strict = name == "mainnet"@;
    or_fault(
        text_fault(text, strict),
        or_fault(
            roots_fault(profile_of(name, text), strict),
            coherence_fault(profile_of(name, text)),
        ),
    )
}

/// A number of a text.
fn read_number_at(text: &str, k: Key) -> (r: Result<u128, ConfigError>)
    ensures
        (match r {
            Ok(n) => number_fault(text@, k) is None && n == number_at(text@, k),
            Err(e) => number_fault(text@, k) == Some(e),
        }),
{
    match read_value(text, key_name(k)) {
        Some(v) => match read_number(v) {
            Some(n) => Ok(n),
            None => Err(ConfigError::NotANumber(k)),
        },
        None => Err(ConfigError::Missing(k)),
    }
}

/// A required address: zero for a placeholder, which is an error where `strict`.
fn read_address_at(text: &str, k: Key, strict: bool) -> (r: Result<Address, ConfigError>)
    ensures
        (match r {
            Ok(a) => address_fault(text@, k, strict) is None && a@ == address_at(text@, k),
            Err(e) => address_fault(text@, k, strict) == Some(e),
        }),
{
    match read_value(text, key_name(k)) {
        Some(v) => match decode_pubkey(v) {
            Some(a) => Ok(a),
            None => {
                if strict {
                    return Err(ConfigError::BadAddress(k));
                }
                let zero: Address = [0u8; 32];
                assert(zero@ =~= Seq::new(32, |i: int| 0u8));
                Ok(zero)
            },
        },
        None => Err(ConfigError::Missing(k)),
    }
}

/// The code of a text's cluster.
fn read_cluster(text: &str) -> (r: Result<u8, ConfigError>)
    ensures
        (match r {
            Ok(c) => cluster_fault(text@) is None && cluster_code(
                value_of(text@, key_text(Key::Id))->0,
            ) == Some(c),
            Err(e) => cluster_fault(text@) == Some(e),
        }),
{
    match read_value(text, key_name(Key::Id)) {
        Some(id) => if same_text(id, "mainnet") {
            Ok(0)
        } else if same_text(id, "devnet") {
            Ok(1)
        } else if same_text(id, "testnet") {
            Ok(2)
        } else {
            Err(ConfigError::UnknownCluster)
        },
        None => Err(ConfigError::Missing(Key::Id)),
    }
}

/// The identity of a chain: `sha256("crown-chain:v1:" ‖ id)`.
pub fn derive_chain_id(cluster: u8) -> (r: [u8; 32])
    requires
        cluster < 3,
    ensures
        r@ == chain_id_of(cluster),
{
    let mut data: Vec<u8> = Vec::new();
    data.extend_from_slice("crown-chain:v1:".as_bytes());
    let id = match cluster {
        0 => "mainnet",
        1 => "devnet",
        _ => "testnet",
    };
    data.extend_from_slice(id.as_bytes());
    assert(data@ =~= "crown-chain:v1:".spec_bytes() + id.spec_bytes());
    sha256(data.as_slice())
}

/// The factory list of a text.
fn read_factories(text: &str, strict: bool) -> (r: Result<Vec<Address>, ConfigError>)
    ensures
        (match r {
            Ok(v) => factories_fault(text@, strict) is None && addresses(v@) == addresses_among(
                factory_texts(text@),
            ),
            Err(e) => factories_fault(text@, strict) == Some(e),
        }),
{
    match read_factories_line(text) {
        Some(line) => {
            let texts = read_elements(read_bracketed(line));
            assert(texts_listed(texts@) == factory_texts(text@));
            let (found, unset) = read_addresses(&texts);
            if strict && unset {
                return Err(ConfigError::BadAddress(Key::Factories));
            }
            Ok(found)
        },
        None => Err(ConfigError::Missing(Key::Factories)),
    }
}

/// Whether the recognition roots are distinct.
fn roots_distinct(p: &Profile) -> (r: bool)
    ensures
        r == distinct_roots(p@),
{
    if same(&p.splitter, &p.usdc) {
        return false;
    }
    let mut i: usize = 0;
    while i < p.factories.len()
        invariant
            i <= p.factories@.len(),
            p@.splitter != p@.usdc,
            forall|k: int|
                0 <= k < i ==> #[trigger] p@.factories[k] != p@.splitter && p@.factories[k]
                    != p@.usdc,
            forall|k: int, j: int|
                0 <= k < i && k < j < p.factories@.len() ==> #[trigger] p@.factories[k]
                    != #[trigger] p@.factories[j],
        decreases p.factories@.len() - i,
    {
        assert(p@.factories[i as int] == p.factories@[i as int]@);
        if same(&p.factories[i], &p.splitter) || same(&p.factories[i], &p.usdc) {
            return false;
        }
        let mut j: usize = i + 1;
        while j < p.factories.len()
            invariant
                i < j <= p.factories@.len(),
                forall|k: int|
                    i < k < j ==> p@.factories[i as int] != #[trigger] p@.factories[k],
            decreases p.factories@.len() - j,
        {
            assert(p@.factories[j as int] == p.factories@[j as int]@);
            if same(&p.factories[i], &p.factories[j]) {
                assert(p@.factories[i as int] == p@.factories[j as int]);
                return false;
            }
            j += 1;
        }
        i += 1;
    }
    true
}

/// Read a profile, or say why it is refused.
pub fn bake(name: &str, text: &str) -> (r: Result<Profile, ConfigError>)
    ensures
        (match r {
            Ok(p) => profile_fault(name@, text@) is None && p@ == profile_of(name@, text@),
            Err(e) => profile_fault(name@, text@) == Some(e),
        }),
{
    // The frozen profile: placeholders are an error.
    let strict = same_text(name, "mainnet");
    let ingest_price: u128 = match read_number_at(text, Key::IngestPrice) {
        Ok(n) => n,
        Err(e) => {
            return Err(e);
        },
    };
    let min_gross: u128 = match read_number_at(text, Key::MinGross) {
        Ok(n) => n,
        Err(e) => {
            return Err(e);
        },
    };
    let cycle_floor: u128 = match read_number_at(text, Key::CycleFloor) {
        Ok(n) => n,
        Err(e) => {
            return Err(e);
        },
    };
    let attach_cycles: u128 = match read_number_at(text, Key::AttachCycles) {
        Ok(n) => n,
        Err(e) => {
            return Err(e);
        },
    };
    let response_max_bytes: u64 = match read_number_at(text, Key::ResponseMaxBytes) {
        Ok(n) => (n % 0x1_0000_0000_0000_0000) as u64,
        Err(e) => {
            return Err(e);
        },
    };
    let consensus: u8 = match read_number_at(text, Key::Consensus) {
        Ok(n) => (n % 0x100) as u8,
        Err(e) => {
            return Err(e);
        },
    };
    let rpc_nodes: u128 = match read_number_at(text, Key::RpcNodes) {
        Ok(n) => n,
        Err(e) => {
            return Err(e);
        },
    };
    let rpc_request_bytes: u128 = match read_number_at(text, Key::RpcRequestBytes) {
        Ok(n) => n,
        Err(e) => {
            return Err(e);
        },
    };
    let rpc_providers: u128 = match read_number_at(text, Key::RpcProviders) {
        Ok(n) => n,
        Err(e) => {
            return Err(e);
        },
    };
    let slot: u64 = match read_number_at(text, Key::CutoverSlot) {
        Ok(n) => (n % 0x1_0000_0000_0000_0000) as u64,
        Err(e) => {
            return Err(e);
        },
    };
    assert(numbers_fault(text@) is None);
    let cluster: u8 = match read_cluster(text) {
        Ok(c) => c,
        Err(e) => {
            return Err(e);
        },
    };
    let splitter = match read_address_at(text, Key::Splitter, strict) {
        Ok(a) => a,
        Err(e) => {
            return Err(e);
        },
    };
    let usdc = match read_address_at(text, Key::Usdc, strict) {
        Ok(a) => a,
        Err(e) => {
            return Err(e);
        },
    };
    let factories = match read_factories(text, strict) {
        Ok(v) => v,
        Err(e) => {
            return Err(e);
        },
    };
    assert(text_fault(text@, strict) is None);
    let p = Profile {
        name: name.to_owned(),
        ingest_price,
        min_gross,
        cycle_floor,
        attach_cycles,
        response_max_bytes,
        consensus,
        cluster,
        chain_id: derive_chain_id(cluster),
        splitter,
        usdc,
        factories,
        rpc_nodes,
        rpc_request_bytes,
        rpc_providers,
        cutover_slot: if slot == 0 {
            None
        } else {
            Some(slot)
        },
    };
    assert(p@ =~= profile_of(name@, text@));
    if strict && p.factories.len() == 0 {
        return Err(ConfigError::NoFactories);
    }
    if strict && !roots_distinct(&p) {
        return Err(ConfigError::CollidingRoots);
    }
    match check(&p) {
        Ok(_) => Ok(p),
        Err(e) => Err(ConfigError::Incoherent(e)),
    }
}

/// The frozen profile carries only real and distinct recognition roots, and at
/// least one factory: no placeholder gets past it.
pub proof fn a_frozen_profile_pins_real_distinct_roots(text: Seq<char>)
    requires
        profile_fault("mainnet"@, text) is None,
    ensures
        ({
            let p = profile_of("mainnet"@, text);
            &&& p.factories.len() > 0
            &&& distinct_roots(p)
            &&& pubkey_of(value_of(text, key_text(Key::Splitter))->0) == Some(p.splitter)
            &&& pubkey_of(value_of(text, key_text(Key::Usdc))->0) == Some(p.usdc)
            &&& p.factories.len() == factory_texts(text).len()
        }),
{
    lemma_all_addresses(factory_texts(text));
}

/// Where every text is an address, none is left out.
proof fn lemma_all_addresses(texts: Seq<Seq<char>>)
    requires
        forall|i: int| 0 <= i < texts.len() ==> pubkey_of(#[trigger] texts[i]) is Some,
    ensures
        addresses_among(texts).len() == texts.len(),
    decreases texts.len(),
{
    if texts.len() > 0 {
        let before = texts.drop_last();
        assert forall|i: int| 0 <= i < before.len() implies pubkey_of(#[trigger] before[i])
            is Some by {
            assert(before[i] == texts[i]);
        }
        lemma_all_addresses(before);
        assert(texts[texts.len() - 1] == texts.last());
    }
}

/// Every profile that is read is coherent, so an ingest under it never costs more
/// than it charges.
pub proof fn a_profile_that_is_read_is_coherent(name: Seq<char>, text: Seq<char>)
    requires
        profile_fault(name, text) is None,
    ensures
        first_fault(profile_of(name, text)) is None,
{
}

} // verus!
