//! What a profile text writes is what is read of it: keys, numbers, addresses, the
//! list of factories, and the identity of the chain.

use crate::base58::{a_text_is_read_as_what_it_stands_for, alphabet, stands_for};
use crate::config::{first_fault, ProfileSpec};
use crate::digest::sha256_of;
use crate::parse::pubkey_of;
use crate::profile::{
    address_at, address_fault, addresses_among, bracketed, decimal_value, distinct_roots, element,
    elements, factories_fault, factories_line, factory_texts, is_decimal, key_text, number_at,
    number_fault, number_of, numbers_fault, profile_fault, profile_of, text_fault, unsigned,
    value_in, value_of, without_separators, ConfigError, Key,
};
use crate::rpc::{cluster_of, SolanaCluster};
use crate::text::{first_of, is_space, lemma_first_of, trim_back, trim_both, trim_front, Edge};
use vstd::prelude::*;
use vstd::string::*;
use vstd::utf8::{encode_utf8, encode_utf8_decode_utf8};

verus! {

// ----- trimming -----

/// Whether every character of a text is of an edge.
pub open spec fn all_edge(s: Seq<char>, edge: Edge) -> bool {
    forall|i: int| 0 <= i < s.len() ==> edge.holds(#[trigger] s[i])
}

/// Whether a text neither starts nor ends with an edge.
pub open spec fn bare(s: Seq<char>, edge: Edge) -> bool {
    s.len() > 0 ==> !edge.holds(s[0]) && !edge.holds(s.last())
}

/// Trimming takes off exactly the edge in front.
proof fn lemma_trim_front(a: Seq<char>, m: Seq<char>, edge: Edge)
    requires
        all_edge(a, edge),
        m.len() > 0 ==> !edge.holds(m[0]),
    ensures
        trim_front(a + m, edge) == m,
    decreases a.len(),
{
    if a.len() == 0 {
        assert(a + m =~= m);
    } else {
        assert((a + m)[0] == a[0]);
        assert((a + m).drop_first() =~= a.drop_first() + m);
        assert(all_edge(a.drop_first(), edge)) by {
            assert forall|i: int| 0 <= i < a.drop_first().len() implies edge.holds(
                #[trigger] a.drop_first()[i],
            ) by {
                assert(edge.holds(a[i + 1]));
            }
        }
        lemma_trim_front(a.drop_first(), m, edge);
    }
}

/// Trimming the back keeps what ends in no edge, and trims what follows it.
proof fn lemma_trim_back(m: Seq<char>, b: Seq<char>, edge: Edge)
    requires
        m.len() > 0 ==> !edge.holds(m.last()),
    ensures
        m.len() > 0 ==> trim_back(m + b, edge) == m + trim_back(b, edge),
        all_edge(b, edge) ==> trim_back(m + b, edge) == m,
        all_edge(b, edge) ==> trim_back(b, edge).len() == 0,
    decreases b.len(),
{
    if b.len() == 0 {
        assert(m + b =~= m);
        assert(m + trim_back(b, edge) =~= m);
    } else {
        assert((m + b).last() == b.last());
        assert((m + b).drop_last() =~= m + b.drop_last());
        assert(all_edge(b, edge) ==> edge.holds(b[b.len() - 1]));
        assert(all_edge(b, edge) ==> all_edge(b.drop_last(), edge)) by {
            if all_edge(b, edge) {
                assert forall|i: int| 0 <= i < b.drop_last().len() implies edge.holds(
                    #[trigger] b.drop_last()[i],
                ) by {
                    assert(edge.holds(b[i]));
                }
            }
        }
        lemma_trim_back(m, b.drop_last(), edge);
    }
}

/// Trimming takes off exactly the edges around a text.
pub proof fn trimming_takes_the_edges_off(
    a: Seq<char>,
    m: Seq<char>,
    b: Seq<char>,
    edge: Edge,
)
    requires
        all_edge(a, edge),
        bare(m, edge),
        all_edge(b, edge),
    ensures
        trim_both(a + m + b, edge) == m,
{
    if m.len() == 0 {
        let ab = a + b;
        assert(a + m + b =~= ab + Seq::<char>::empty());
        assert(all_edge(ab, edge)) by {
            assert forall|i: int| 0 <= i < ab.len() implies edge.holds(#[trigger] ab[i]) by {
                if i < a.len() {
                    assert(ab[i] == a[i]);
                } else {
                    assert(ab[i] == b[i - a.len()]);
                }
            }
        }
        lemma_trim_front(ab, Seq::empty(), edge);
        assert(m =~= Seq::empty());
    } else {
        assert(a + m + b =~= a + (m + b));
        assert((m + b)[0] == m[0]);
        lemma_trim_front(a, m + b, edge);
        lemma_trim_back(m, b, edge);
    }
}

/// White space is what Unicode says it is.
pub proof fn white_space_is_that_of_unicode(c: char)
    ensures
        is_space(c) <==> {
            let u = c as u32;
            ||| 0x9 <= u <= 0xd
            ||| u == 0x20
            ||| u == 0x85
            ||| u == 0xa0
            ||| u == 0x1680
            ||| 0x2000 <= u <= 0x200a
            ||| u == 0x2028
            ||| u == 0x2029
            ||| u == 0x202f
            ||| u == 0x205f
            ||| u == 0x3000
        },
{
}

/// The first place of a character is where it stands with none before it.
proof fn lemma_first(a: Seq<char>, c: char, b: Seq<char>)
    requires
        forall|i: int| 0 <= i < a.len() ==> #[trigger] a[i] != c,
    ensures
        first_of(a + seq![c] + b, c) == a.len(),
        first_of(a, c) == a.len(),
{
    let s = a + seq![c] + b;
    assert forall|k: int| 0 <= k < a.len() implies s[k] != c by {
        assert(s[k] == a[k]);
    }
    assert(s[a.len() as int] == c);
    lemma_first_of(s, c, a.len());
    lemma_first_of(a, c, a.len());
}

// ----- lines -----

/// Whether a character does not occur in a text.
pub open spec fn lacks(s: Seq<char>, c: char) -> bool {
    forall|i: int| 0 <= i < s.len() ==> #[trigger] s[i] != c
}

/// A line sets its key to what it writes: whatever white space stands around the key,
/// the `=` and the value, and whatever comment follows; quotes around the value are
/// taken off.
pub proof fn a_line_sets_its_key(
    indent: Seq<char>,
    key: Seq<char>,
    gap: Seq<char>,
    space: Seq<char>,
    open: Seq<char>,
    value: Seq<char>,
    close: Seq<char>,
    tail: Seq<char>,
    comment: Seq<char>,
    commented: bool,
)
    requires
        all_edge(indent, Edge::Space),
        all_edge(gap, Edge::Space),
        all_edge(space, Edge::Space),
        all_edge(tail, Edge::Space),
        all_edge(open, Edge::Quotes),
        all_edge(close, Edge::Quotes),
        key.len() > 0,
        !is_space(key[0]),
        bare(value, Edge::Quotes),
        lacks(value, '#'),
        bare(open + value + close, Edge::Space),
        (open + value + close).len() > 0,
    ensures
        value_in(
            indent + (key + (gap + (seq!['='] + (space + ((open + value + close) + (tail
                + if commented {
                seq!['#'] + comment
            } else {
                Seq::empty()
            })))))),
            key,
        ) == Some(value),
{
    let raw = open + value + close;
    let rest = if commented {
        seq!['#'] + comment
    } else {
        Seq::empty()
    };
    let end = tail + rest;
    let front = key + (gap + (seq!['='] + (space + raw)));
    let line = indent + (key + (gap + (seq!['='] + (space + (raw + end)))));
    assert(line =~= indent + (front + end));
    assert((front + end)[0] == key[0]);
    lemma_trim_front(indent, front + end, Edge::Space);
    assert(front.last() == raw.last());
    lemma_trim_back(front, end, Edge::Space);
    let cut = trim_back(end, Edge::Space);
    let t = trim_both(line, Edge::Space);
    assert(t == front + cut);
    // What is left of the end is nothing, or starts with the comment behind its space.
    if commented {
        let x = tail + seq!['#'];
        assert(end =~= x + comment);
        assert(x.last() == '#');
        lemma_trim_back(x, comment, Edge::Space);
    } else {
        assert(end =~= Seq::<char>::empty() + tail);
        assert(end =~= tail);
        lemma_trim_back(Seq::empty(), tail, Edge::Space);
    }
    assert(t.subrange(0, key.len() as int) =~= key);
    let behind = t.skip(key.len() as int);
    let from_sign = seq!['='] + (space + (raw + cut));
    assert(behind =~= gap + from_sign);
    assert(from_sign[0] == '=');
    lemma_trim_front(gap, from_sign, Edge::Space);
    let v = from_sign.skip(1);
    assert(v =~= space + (raw + cut));
    assert forall|i: int| 0 <= i < raw.len() implies #[trigger] raw[i] != '#' by {
        if i < open.len() {
            assert(raw[i] == open[i]);
        } else if i < open.len() + value.len() {
            assert(raw[i] == value[i - open.len()]);
        } else {
            assert(raw[i] == close[i - open.len() - value.len()]);
        }
    }
    let kept = if commented {
        space + (raw + tail)
    } else {
        space + raw
    };
    assert forall|i: int| 0 <= i < kept.len() implies #[trigger] kept[i] != '#' by {
        if i < space.len() {
            assert(kept[i] == space[i]);
        } else if i < space.len() + raw.len() {
            assert(kept[i] == raw[i - space.len()]);
        } else {
            assert(kept[i] == tail[i - space.len() - raw.len()]);
        }
    }
    if commented {
        let after = trim_back(comment, Edge::Space);
        assert(v =~= kept + seq!['#'] + after);
        lemma_first(kept, '#', after);
        assert(v.take(first_of(v, '#') as int) =~= kept);
        assert(kept =~= space + raw + tail);
        trimming_takes_the_edges_off(space, raw, tail, Edge::Space);
    } else {
        assert(v =~= kept);
        lemma_first(kept, '#', Seq::empty());
        assert(v.take(first_of(v, '#') as int) =~= kept);
        assert(kept =~= space + raw + Seq::<char>::empty());
        trimming_takes_the_edges_off(space, raw, Seq::empty(), Edge::Space);
    }
    trimming_takes_the_edges_off(open, value, close, Edge::Quotes);
}

/// A line that does not start with a key does not set it.
pub proof fn a_line_that_starts_otherwise_sets_nothing(line: Seq<char>, key: Seq<char>, i: int)
    requires
        line.len() > 0,
        !is_space(line[0]),
        0 <= i < key.len(),
        i < line.len(),
        line[i] != key[i],
    ensures
        value_in(line, key) is None,
{
    assert(line =~= Seq::<char>::empty() + line);
    lemma_trim_front(Seq::empty(), line, Edge::Space);
    lemma_back_is_a_front(line, Edge::Space);
    let t = trim_both(line, Edge::Space);
    if key.is_prefix_of(t) {
        assert(t.subrange(0, key.len() as int)[i] == key[i]);
    }
}

/// Trimming the back leaves a front.
proof fn lemma_back_is_a_front(s: Seq<char>, edge: Edge)
    ensures
        trim_back(s, edge).len() <= s.len(),
        forall|i: int| 0 <= i < trim_back(s, edge).len() ==> trim_back(s, edge)[i] == s[i],
    decreases s.len(),
{
    if s.len() > 0 && edge.holds(s.last()) {
        let before = s.drop_last();
        lemma_back_is_a_front(before, edge);
        assert forall|i: int| 0 <= i < trim_back(s, edge).len() implies trim_back(s, edge)[i]
            == s[i] by {
            assert(trim_back(before, edge)[i] == before[i]);
        }
    }
}

/// The first line that sets a key wins, and a line that does not is passed over.
pub proof fn the_first_line_that_sets_a_key_wins(
    line: Seq<char>,
    rest: Seq<char>,
    key: Seq<char>,
)
    requires
        lacks(line, '\n'),
    ensures
        value_in(line, key) is Some ==> value_of(line + seq!['\n'] + rest, key) == value_in(
            line,
            key,
        ),
        value_in(line, key) is None ==> value_of(line + seq!['\n'] + rest, key) == value_of(
            rest,
            key,
        ),
        value_of(line, key) == value_in(line, key),
{
    let text = line + seq!['\n'] + rest;
    lemma_first(line, '\n', rest);
    assert(text.take(line.len() as int) =~= line);
    assert(text.skip(line.len() as int + 1) =~= rest);
    assert(line.take(line.len() as int) =~= line);
}

// ----- keys -----

/// The name of each key in a profile.
pub open spec fn name_of(k: Key) -> Seq<char> {
    match k {
        Key::IngestPrice => "ingest_price"@,
        Key::MinGross => "min_gross"@,
        Key::CycleFloor => "cycle_floor"@,
        Key::AttachCycles => "attach_cycles"@,
        Key::ResponseMaxBytes => "response_max_bytes"@,
        Key::Consensus => "consensus"@,
        Key::RpcNodes => "rpc_nodes"@,
        Key::RpcRequestBytes => "rpc_request_bytes"@,
        Key::RpcProviders => "rpc_providers"@,
        Key::CutoverSlot => "cutover_slot"@,
        Key::Id => "id"@,
        Key::Splitter => "splitter"@,
        Key::Usdc => "usdc"@,
        Key::Factories => "factories"@,
    }
}

/// The characters of every name.
proof fn lemma_names()
    ensures
        forall|k: Key| #[trigger] name_of(k).len() >= 2,
        forall|k: Key| !is_space((#[trigger] name_of(k))[0]),
        forall|k: Key| lacks(#[trigger] name_of(k), '\n'),
        forall|k: Key| lacks(#[trigger] name_of(k), '['),
        forall|k: Key| key_text(k) == #[trigger] name_of(k),
{
    reveal_strlit("ingest_price");
    reveal_strlit("min_gross");
    reveal_strlit("cycle_floor");
    reveal_strlit("attach_cycles");
    reveal_strlit("response_max_bytes");
    reveal_strlit("consensus");
    reveal_strlit("rpc_nodes");
    reveal_strlit("rpc_request_bytes");
    reveal_strlit("rpc_providers");
    reveal_strlit("cutover_slot");
    reveal_strlit("id");
    reveal_strlit("splitter");
    reveal_strlit("usdc");
    reveal_strlit("factories");
}

/// Where two names differ: at a place that both have.
proof fn lemma_names_differ(k: Key, l: Key) -> (i: int)
    requires
        k != l,
    ensures
        0 <= i < name_of(k).len(),
        i < name_of(l).len(),
        name_of(k)[i] != name_of(l)[i],
{
    reveal_strlit("ingest_price");
    reveal_strlit("min_gross");
    reveal_strlit("cycle_floor");
    reveal_strlit("attach_cycles");
    reveal_strlit("response_max_bytes");
    reveal_strlit("consensus");
    reveal_strlit("rpc_nodes");
    reveal_strlit("rpc_request_bytes");
    reveal_strlit("rpc_providers");
    reveal_strlit("cutover_slot");
    reveal_strlit("id");
    reveal_strlit("splitter");
    reveal_strlit("usdc");
    reveal_strlit("factories");
    if name_of(k)[0] != name_of(l)[0] {
        0
    } else if name_of(k)[1] != name_of(l)[1] {
        1
    } else {
        4
    }
}

/// One line of a profile: a key, and its value with or without quotes.
pub struct Line {
    pub key: Key,
    pub value: Seq<char>,
    pub quoted: bool,
}

impl Line {
    /// The value as it is written.
    pub open spec fn raw(self) -> Seq<char> {
        if self.quoted {
            seq!['"'] + self.value + seq!['"']
        } else {
            self.value
        }
    }

    /// The line as it is written.
    pub open spec fn text(self) -> Seq<char> {
        name_of(self.key) + (seq![' '] + (seq!['='] + (seq![' '] + self.raw())))
    }

    /// Whether the value is one that a line can write: on one line, no comment in it,
    /// no quotes at its ends, and no white space there that quotes do not keep.
    pub open spec fn valid(self) -> bool {
        &&& lacks(self.value, '\n')
        &&& lacks(self.value, '#')
        &&& bare(self.value, Edge::Quotes)
        &&& self.quoted || self.value.len() > 0 && bare(self.value, Edge::Space)
    }
}

/// Lines as they are written, one under the other.
pub open spec fn text_of(lines: Seq<Line>) -> Seq<char>
    decreases lines.len(),
{
    if lines.len() == 0 {
        Seq::empty()
    } else {
        lines[0].text() + seq!['\n'] + text_of(lines.drop_first())
    }
}

/// A line sets its own key and no other.
proof fn lemma_line(line: Line, k: Key)
    requires
        line.valid(),
    ensures
        value_in(line.text(), name_of(k)) == if line.key == k {
            Some(line.value)
        } else {
            None
        },
        lacks(line.text(), '\n'),
        line.text().len() > 0,
        !is_space(line.text()[0]),
        line.text()[0] == name_of(line.key)[0],
{
    lemma_names();
    let t = line.text();
    let name = name_of(line.key);
    let q = if line.quoted {
        seq!['"']
    } else {
        Seq::empty()
    };
    assert(line.raw() =~= q + line.value + q);
    assert forall|i: int| 0 <= i < t.len() implies #[trigger] t[i] != '\n' by {
        let n = name.len();
        if i < n {
            assert(t[i] == name[i]);
        } else if i >= n + 3 {
            let raw = line.raw();
            assert(t[i] == raw[i - n - 3]);
            let j = i - n - 3 - q.len();
            if 0 <= j < line.value.len() {
                assert(raw[i - n - 3] == line.value[j]);
            }
        }
    }
    assert(t[0] == name[0]);
    if line.key == k {
        let one = seq![' '];
        a_line_sets_its_key(
            Seq::empty(),
            name,
            one,
            one,
            q,
            line.value,
            q,
            Seq::empty(),
            Seq::empty(),
            false,
        );
        let none = Seq::<char>::empty();
        assert(none + (name + (one + (seq!['='] + (one + ((q + line.value + q) + (none + none))))))
            =~= t);
    } else {
        let i = lemma_names_differ(k, line.key);
        assert(t[i] == name[i]);
        a_line_that_starts_otherwise_sets_nothing(t, name_of(k), i);
    }
}

/// Nothing is read of a text without lines.
proof fn lemma_no_lines(key: Seq<char>)
    requires
        key.len() > 0,
    ensures
        value_of(Seq::empty(), key) is None,
{
    let none = Seq::<char>::empty();
    assert(none.take(0) =~= none);
    lemma_trim_front(none, none, Edge::Space);
    assert(none + none =~= none);
    assert(trim_both(none, Edge::Space) =~= none);
}

/// A profile reads back key by key, in whatever order its lines stand: the value of a
/// key is what the first line of that key writes, and there is none where no line is
/// of that key.
pub proof fn a_profile_reads_back_key_by_key(lines: Seq<Line>, i: int, k: Key)
    requires
        forall|j: int| 0 <= j < lines.len() ==> (#[trigger] lines[j]).valid(),
        0 <= i <= lines.len(),
        forall|j: int| 0 <= j < i ==> (#[trigger] lines[j]).key != k,
        i < lines.len() ==> lines[i].key == k,
    ensures
        value_of(text_of(lines), name_of(k)) == if i < lines.len() {
            Some(lines[i].value)
        } else {
            None
        },
    decreases lines.len(),
{
    lemma_names();
    if lines.len() == 0 {
        lemma_no_lines(name_of(k));
    } else {
        let rest = lines.drop_first();
        assert(lines[0].valid());
        lemma_line(lines[0], k);
        the_first_line_that_sets_a_key_wins(lines[0].text(), text_of(rest), name_of(k));
        if i > 0 {
            assert(lines[0].key != k);
            assert forall|j: int| 0 <= j < rest.len() implies (#[trigger] rest[j]).valid() by {
                assert(lines[j + 1].valid());
            }
            assert forall|j: int| 0 <= j < i - 1 implies (#[trigger] rest[j]).key != k by {
                assert(lines[j + 1].key != k);
            }
            a_profile_reads_back_key_by_key(rest, i - 1, k);
        }
    }
}

// ----- numbers -----

/// A decimal digit.
pub open spec fn digit(n: nat) -> char {
    (n + '0' as nat) as char
}

/// A number in decimal.
pub open spec fn decimal(n: nat) -> Seq<char>
    decreases n,
{
    if n < 10 {
        seq![digit(n)]
    } else {
        decimal(n / 10).push(digit(n % 10))
    }
}

/// A decimal number is digits that write it.
proof fn lemma_decimal(n: nat)
    ensures
        is_decimal(decimal(n)),
        decimal_value(decimal(n)) == n,
        without_separators(decimal(n)) == decimal(n),
        forall|i: int| 0 <= i < decimal(n).len() ==> '0' <= #[trigger] decimal(n)[i] <= '9',
    decreases n,
{
    reveal_with_fuel(decimal_value, 2);
    reveal_with_fuel(without_separators, 2);
    if n < 10 {
        let s = decimal(n);
        assert(s.drop_last() =~= Seq::<char>::empty());
        assert(without_separators(s) =~= s);
    } else {
        lemma_decimal(n / 10);
        let before = decimal(n / 10);
        let s = decimal(n);
        assert(s.drop_last() =~= before);
        assert(s.last() == digit(n % 10));
        assert forall|i: int| 0 <= i < s.len() implies '0' <= #[trigger] s[i] <= '9' by {
            if i < before.len() {
                assert(s[i] == before[i]);
            }
        }
    }
}

/// A number reads back as it was written, with or without a plus sign; one that does
/// not fit is none.
pub proof fn a_number_reads_back(n: nat)
    ensures
        n <= u128::MAX ==> number_of(decimal(n)) == Some(n as u128),
        n <= u128::MAX ==> number_of(seq!['+'] + decimal(n)) == Some(n as u128),
        n > u128::MAX ==> number_of(decimal(n)) is None,
{
    lemma_decimal(n);
    let d = decimal(n);
    assert('0' <= d[0] <= '9');
    assert(unsigned(d) == d);
    let s = seq!['+'] + d;
    lemma_separators(seq!['+'], d);
    reveal_with_fuel(without_separators, 2);
    let plus = seq!['+'];
    assert(plus.drop_last() =~= Seq::<char>::empty());
    assert(without_separators(plus) =~= plus);
    assert(without_separators(s) == s);
    assert(unsigned(s) =~= d);
}

/// Separators are taken out of two texts as out of both together.
proof fn lemma_separators(a: Seq<char>, b: Seq<char>)
    ensures
        without_separators(a + b) == without_separators(a) + without_separators(b),
    decreases b.len(),
{
    if b.len() == 0 {
        assert(a + b =~= a);
        assert(without_separators(a) =~= without_separators(a) + without_separators(b));
    } else {
        lemma_separators(a, b.drop_last());
        assert((a + b).drop_last() =~= a + b.drop_last());
        assert((a + b).last() == b.last());
        assert(without_separators(a + b) =~= without_separators(a) + without_separators(b));
    }
}

/// A digit separator changes no number, wherever it stands.
pub proof fn a_separator_changes_no_number(a: Seq<char>, b: Seq<char>)
    ensures
        number_of(a + seq!['_'] + b) == number_of(a + b),
{
    let u = seq!['_'];
    reveal_with_fuel(without_separators, 2);
    assert(u.drop_last() =~= Seq::<char>::empty());
    assert(without_separators(u) =~= Seq::<char>::empty());
    lemma_separators(a + u, b);
    lemma_separators(a, u);
    lemma_separators(a, b);
    assert(without_separators(a) + Seq::<char>::empty() =~= without_separators(a));
}

/// A sign behind the digits, or no digit at all, is no number.
pub proof fn a_number_has_digits_and_no_sign_behind_them(n: nat, rest: Seq<char>)
    ensures
        number_of(decimal(n) + seq!['+'] + rest) is None,
        number_of(Seq::empty()) is None,
        number_of(seq!['+']) is None,
{
    lemma_decimal(n);
    let d = decimal(n);
    let plus = seq!['+'];
    reveal_with_fuel(without_separators, 2);
    assert(plus.drop_last() =~= Seq::<char>::empty());
    assert(without_separators(plus) =~= plus);
    assert(unsigned(plus) =~= Seq::<char>::empty());
    lemma_separators(d + plus, rest);
    lemma_separators(d, plus);
    let w = without_separators(d + plus + rest);
    assert(w[0] == d[0]);
    assert('0' <= d[0] <= '9');
    assert(w[d.len() as int] == '+');
}

/// A text with any other character is no number.
pub proof fn anything_else_is_no_number(s: Seq<char>, i: int)
    requires
        0 <= i < s.len(),
        !('0' <= s[i] <= '9'),
        s[i] != '_',
        s[i] != '+',
    ensures
        number_of(s) is None,
{
    let a = s.take(i);
    let c = seq![s[i]];
    let b = s.skip(i + 1);
    assert(s =~= a + c + b);
    reveal_with_fuel(without_separators, 2);
    assert(c.drop_last() =~= Seq::<char>::empty());
    assert(without_separators(c) =~= c);
    lemma_separators(a + c, b);
    lemma_separators(a, c);
    let w = without_separators(s);
    let n = without_separators(a).len();
    assert(w[n as int] == s[i]);
    let d = unsigned(w);
    if w[0] == '+' {
        assert(n > 0);
        assert(d[n - 1] == s[i]);
    } else {
        assert(d[n as int] == s[i]);
    }
}

// ----- factories -----

/// An element of a list, in quotes.
pub open spec fn quoted(t: Seq<char>) -> Seq<char> {
    seq!['"'] + t + seq!['"']
}

/// Texts as a list: each in quotes, a comma and a space between them.
pub open spec fn listed(texts: Seq<Seq<char>>) -> Seq<char>
    decreases texts.len(),
{
    if texts.len() == 0 {
        Seq::empty()
    } else if texts.len() == 1 {
        quoted(texts[0])
    } else {
        quoted(texts[0]) + seq![','] + (seq![' '] + listed(texts.drop_first()))
    }
}

/// Whether a text is one that an element of a list can write.
pub open spec fn is_item(t: Seq<char>) -> bool {
    &&& t.len() > 0
    &&& bare(t, Edge::Quotes)
    &&& lacks(t, ',')
    &&& lacks(t, ']')
    &&& lacks(t, '#')
    &&& lacks(t, '\n')
}

/// One element reads back.
proof fn lemma_element(lead: Seq<char>, t: Seq<char>)
    requires
        all_edge(lead, Edge::Space),
        is_item(t),
    ensures
        element(lead + quoted(t)) == seq![t],
        lacks(lead + quoted(t), ','),
        lacks(quoted(t), ','),
        lacks(quoted(t), ']'),
        lacks(quoted(t), '#'),
        lacks(quoted(t), '\n'),
{
    let q = quoted(t);
    let s = lead + q;
    assert forall|i: int| 0 <= i < q.len() implies {
        let c = #[trigger] q[i];
        c != ',' && c != ']' && c != '#' && c != '\n'
    } by {
        if 0 < i < q.len() - 1 {
            assert(q[i] == t[i - 1]);
        }
    }
    assert forall|i: int| 0 <= i < s.len() implies #[trigger] s[i] != ',' by {
        if i < lead.len() {
            assert(s[i] == lead[i]);
        } else {
            assert(s[i] == q[i - lead.len()]);
        }
    }
    assert(s =~= lead + q + Seq::<char>::empty());
    trimming_takes_the_edges_off(lead, q, Seq::empty(), Edge::Space);
    trimming_takes_the_edges_off(seq!['"'], t, seq!['"'], Edge::Quotes);
}

/// A list reads back as its elements.
proof fn lemma_listed(lead: Seq<char>, texts: Seq<Seq<char>>)
    requires
        all_edge(lead, Edge::Space),
        forall|i: int| 0 <= i < texts.len() ==> is_item(#[trigger] texts[i]),
    ensures
        elements(lead + listed(texts)) == texts,
        lacks(listed(texts), ']'),
        lacks(listed(texts), '#'),
        lacks(listed(texts), '\n'),
    decreases texts.len(),
{
    let s = lead + listed(texts);
    if texts.len() == 0 {
        assert(s =~= lead);
        assert forall|i: int| 0 <= i < lead.len() implies #[trigger] lead[i] != ',' by {
            assert(Edge::Space.holds(lead[i]));
        }
        lemma_first(lead, ',', Seq::empty());
        let none = Seq::<char>::empty();
        assert(lead =~= lead + none + none);
        trimming_takes_the_edges_off(lead, none, none, Edge::Space);
        assert(none =~= none + none + none);
        trimming_takes_the_edges_off(none, none, none, Edge::Quotes);
        assert(elements(s) =~= texts);
    } else if texts.len() == 1 {
        lemma_element(lead, texts[0]);
        lemma_first(s, ',', Seq::empty());
        assert(elements(s) =~= texts);
    } else {
        let rest = texts.drop_first();
        assert forall|i: int| 0 <= i < rest.len() implies is_item(#[trigger] rest[i]) by {
            assert(is_item(texts[i + 1]));
        }
        lemma_element(lead, texts[0]);
        let one = seq![' '];
        lemma_listed(one, rest);
        let q = quoted(texts[0]);
        let tail = one + listed(rest);
        assert(s =~= (lead + q) + seq![','] + tail);
        lemma_first(lead + q, ',', tail);
        assert(s.take((lead + q).len() as int) =~= lead + q);
        assert(s.skip((lead + q).len() as int + 1) =~= tail);
        assert(elements(s) =~= texts);
        let l = listed(texts);
        assert forall|i: int| 0 <= i < l.len() implies {
            let c = #[trigger] l[i];
            c != ']' && c != '#' && c != '\n'
        } by {
            if i < q.len() {
                assert(l[i] == q[i]);
            } else if i >= q.len() + 2 {
                assert(l[i] == listed(rest)[i - q.len() - 2]);
            }
        }
    }
}

/// The factories of a profile as their line writes them.
pub open spec fn bracketed_list(texts: Seq<Seq<char>>) -> Seq<char> {
    seq!['['] + listed(texts) + seq![']']
}

/// The line of the factories is found behind lines of other keys.
proof fn lemma_factories_line(lines: Seq<Line>, i: int)
    requires
        forall|j: int| 0 <= j < lines.len() ==> (#[trigger] lines[j]).valid(),
        0 <= i < lines.len(),
        forall|j: int| 0 <= j < i ==> (#[trigger] lines[j]).key != Key::Factories,
        lines[i].key == Key::Factories,
    ensures
        factories_line(text_of(lines)) == Some(lines[i].text()),
    decreases lines.len(),
{
    lemma_names();
    let t = lines[0].text();
    assert(lines[0].valid());
    lemma_line(lines[0], Key::Factories);
    let rest = lines.drop_first();
    let text = text_of(lines);
    lemma_first(t, '\n', text_of(rest));
    assert(text.take(t.len() as int) =~= t);
    assert(text.skip(t.len() as int + 1) =~= text_of(rest));
    assert(t =~= Seq::<char>::empty() + t);
    lemma_trim_front(Seq::empty(), t, Edge::Space);
    let name = name_of(Key::Factories);
    if i == 0 {
        assert(t.subrange(0, name.len() as int) =~= name);
    } else {
        let d = lemma_names_differ(Key::Factories, lines[0].key);
        assert(t[d] == name_of(lines[0].key)[d]);
        if name.is_prefix_of(t) {
            assert(t.subrange(0, name.len() as int)[d] == name[d]);
        }
        assert forall|j: int| 0 <= j < rest.len() implies (#[trigger] rest[j]).valid() by {
            assert(lines[j + 1].valid());
        }
        assert forall|j: int| 0 <= j < i - 1 implies (#[trigger] rest[j]).key
            != Key::Factories by {
            assert(lines[j + 1].key != Key::Factories);
        }
        lemma_factories_line(rest, i - 1);
    }
}

/// The list of factories reads back: every element, in its order.
pub proof fn the_list_of_factories_reads_back(
    lines: Seq<Line>,
    i: int,
    texts: Seq<Seq<char>>,
)
    requires
        forall|j: int| 0 <= j < lines.len() ==> (#[trigger] lines[j]).valid(),
        0 <= i < lines.len(),
        forall|j: int| 0 <= j < i ==> (#[trigger] lines[j]).key != Key::Factories,
        lines[i] == (Line {
            key: Key::Factories,
            value: bracketed_list(texts),
            quoted: false,
        }),
        forall|j: int| 0 <= j < texts.len() ==> is_item(#[trigger] texts[j]),
    ensures
        factories_line(text_of(lines)) is Some,
        factory_texts(text_of(lines)) == texts,
{
    lemma_names();
    lemma_factories_line(lines, i);
    lemma_listed(Seq::empty(), texts);
    let l = listed(texts);
    assert(Seq::<char>::empty() + l =~= l);
    let line = lines[i].text();
    let front = name_of(Key::Factories) + (seq![' '] + (seq!['='] + seq![' ']));
    let behind = l + seq![']'];
    assert(line =~= front + seq!['['] + behind);
    assert forall|j: int| 0 <= j < front.len() implies #[trigger] front[j] != '[' by {
        if j < name_of(Key::Factories).len() {
            assert(front[j] == name_of(Key::Factories)[j]);
        }
    }
    lemma_first(front, '[', behind);
    assert(line.skip(front.len() as int + 1) =~= behind);
    assert(behind =~= l + seq![']'] + Seq::<char>::empty());
    lemma_first(l, ']', Seq::empty());
    assert(behind.take(l.len() as int) =~= l);
    assert(bracketed(line) == l);
}

// ----- addresses -----

/// Whether a text is the base58 of a 32-byte address.
pub open spec fn is_address(text: Seq<char>, a: Seq<u8>) -> bool {
    stands_for(text, a) && a.len() == 32
}

/// An address text is one that a profile can write.
proof fn lemma_address(text: Seq<char>, a: Seq<u8>)
    requires
        is_address(text, a),
    ensures
        pubkey_of(text) == Some(a),
        is_item(text),
{
    a_text_is_read_as_what_it_stands_for(text, a);
    if text.len() == 0 {
        assert(crate::base58::digits_value(text) == 0);
        crate::base58::lemma_zero_value(a);
    }
    reveal_strlit("123456789ABCDEFGHJKLMNPQRSTUVWXYZabcdefghijkmnopqrstuvwxyz");
    assert forall|i: int| 0 <= i < text.len() implies {
        let c = #[trigger] text[i];
        c != '"' && c != ',' && c != ']' && c != '#' && c != '\n'
    } by {
        assert(alphabet().contains(text[i]));
        let k = choose|k: int| 0 <= k < alphabet().len() && alphabet()[k] == text[i];
        assert(alphabet().len() == 58);
    }
}

/// Factories are pinned one by one, in their order: every address of a list, and
/// nothing for a placeholder.
pub proof fn factories_are_pinned_one_by_one(
    a: Seq<Seq<char>>,
    b: Seq<Seq<char>>,
    text: Seq<char>,
    address: Seq<u8>,
)
    ensures
        addresses_among(a + b) == addresses_among(a) + addresses_among(b),
        is_address(text, address) ==> addresses_among(seq![text]) == seq![address],
        (forall|x: Seq<u8>| !#[trigger] is_address(text, x)) ==> addresses_among(
            seq![text],
        ).len() == 0,
    decreases b.len(),
{
    if b.len() == 0 {
        assert(a + b =~= a);
        assert(addresses_among(a) =~= addresses_among(a) + addresses_among(b));
    } else {
        factories_are_pinned_one_by_one(a, b.drop_last(), text, address);
        assert((a + b).drop_last() =~= a + b.drop_last());
        assert((a + b).last() == b.last());
        assert(addresses_among(a + b) =~= addresses_among(a) + addresses_among(b));
    }
    let one = seq![text];
    assert(one.drop_last() =~= Seq::<Seq<char>>::empty());
    assert(addresses_among(one.drop_last()) =~= Seq::<Seq<u8>>::empty());
    if is_address(text, address) {
        lemma_address(text, address);
        assert(addresses_among(one) =~= seq![address]);
    }
    if let Some(x) = pubkey_of(text) {
        assert(stands_for(text, x));
        assert(is_address(text, x));
    }
}

/// Addresses that are all there are all pinned.
proof fn lemma_all_pinned(texts: Seq<Seq<char>>, addresses: Seq<Seq<u8>>)
    requires
        texts.len() == addresses.len(),
        forall|i: int| 0 <= i < texts.len() ==> is_address(#[trigger] texts[i], addresses[i]),
    ensures
        addresses_among(texts) == addresses,
    decreases texts.len(),
{
    if texts.len() > 0 {
        let n = texts.len() - 1;
        let before = texts.drop_last();
        assert forall|i: int| 0 <= i < before.len() implies is_address(
            #[trigger] before[i],
            addresses.drop_last()[i],
        ) by {
            assert(is_address(texts[i], addresses[i]));
        }
        lemma_all_pinned(before, addresses.drop_last());
        assert(is_address(texts[n], addresses[n]));
        lemma_address(texts[n], addresses[n]);
        assert(addresses_among(texts) =~= addresses);
    } else {
        assert(addresses =~= Seq::empty());
    }
}

// ----- the chain -----

/// The chain is named by its id: the identity of every profile that is read is the
/// SHA-256 of `crown-chain:v1:` and the very text that the profile sets as its `id`,
/// and it is that cluster which is asked.
pub proof fn the_chain_is_named_by_its_id(name: Seq<char>, text: Seq<char>)
    requires
        profile_fault(name, text) is None,
    ensures
        value_of(text, "id"@) is Some,
        ({
            let id = value_of(text, "id"@)->0;
            let p = profile_of(name, text);
            &&& p.chain_id == sha256_of("crown-chain:v1:".spec_bytes() + encode_utf8(id))
            &&& id == "mainnet"@ || id == "devnet"@ || id == "testnet"@
            &&& id == "mainnet"@ <==> cluster_of(p.cluster) == SolanaCluster::Mainnet
            &&& id == "devnet"@ <==> cluster_of(p.cluster) == SolanaCluster::Devnet
            &&& id == "testnet"@ <==> cluster_of(p.cluster) == SolanaCluster::Testnet
        }),
{
    lemma_clusters();
}

/// Chains with different ids hash different texts.
pub proof fn different_chains_hash_different_texts(a: Seq<char>, b: Seq<char>)
    requires
        a != b,
    ensures
        "crown-chain:v1:".spec_bytes() + encode_utf8(a) != "crown-chain:v1:".spec_bytes()
            + encode_utf8(b),
{
    let front = "crown-chain:v1:".spec_bytes();
    let n = front.len() as int;
    encode_utf8_decode_utf8(a);
    encode_utf8_decode_utf8(b);
    assert((front + encode_utf8(a)).skip(n) =~= encode_utf8(a));
    assert((front + encode_utf8(b)).skip(n) =~= encode_utf8(b));
}

// ----- the whole profile -----

/// A profile as it is written: every key on a line of its own.
pub open spec fn profile_lines(
    p: ProfileSpec,
    id: Seq<char>,
    splitter: Seq<char>,
    usdc: Seq<char>,
    factories: Seq<Seq<char>>,
) -> Seq<Line> {
    let number = |key: Key, n: nat| Line { key, value: decimal(n), quoted: false };
    let text = |key: Key, value: Seq<char>| Line { key, value, quoted: true };
    let cutover = match p.cutover_slot {
        Some(slot) => slot as nat,
        None => 0,
    };
    seq![
        text(Key::Id, id),
        number(Key::Consensus, p.consensus as nat),
        text(Key::Splitter, splitter),
        text(Key::Usdc, usdc),
        Line { key: Key::Factories, value: bracketed_list(factories), quoted: false },
        number(Key::IngestPrice, p.ingest_price as nat),
        number(Key::MinGross, p.min_gross as nat),
        number(Key::CycleFloor, p.cycle_floor as nat),
        number(Key::AttachCycles, p.attach_cycles as nat),
        number(Key::ResponseMaxBytes, p.response_max_bytes as nat),
        number(Key::RpcNodes, p.rpc_nodes as nat),
        number(Key::RpcRequestBytes, p.rpc_request_bytes as nat),
        number(Key::RpcProviders, p.rpc_providers as nat),
        number(Key::CutoverSlot, cutover),
    ]
}

/// A line with a number can be written.
proof fn lemma_number_line(key: Key, n: nat)
    ensures
        (Line { key, value: decimal(n), quoted: false }).valid(),
        n <= u128::MAX ==> number_of(decimal(n)) == Some(n as u128),
{
    lemma_decimal(n);
    a_number_reads_back(n);
    let d = decimal(n);
    assert(d[0] <= '9');
    assert(d[d.len() - 1] <= '9');
}

/// A line with a text that has nothing special in it can be written.
proof fn lemma_text_line(key: Key, value: Seq<char>)
    requires
        is_item(value),
    ensures
        (Line { key, value, quoted: true }).valid(),
{
}

/// The line of the factories can be written.
proof fn lemma_list_line(texts: Seq<Seq<char>>)
    requires
        forall|i: int| 0 <= i < texts.len() ==> is_item(#[trigger] texts[i]),
    ensures
        (Line { key: Key::Factories, value: bracketed_list(texts), quoted: false }).valid(),
{
    lemma_listed(Seq::empty(), texts);
    let l = listed(texts);
    let v = bracketed_list(texts);
    assert(v[0] == '[');
    assert(v.last() == ']');
    assert forall|i: int| 0 <= i < v.len() implies (#[trigger] v[i]) != '#' && v[i] != '\n' by {
        if 0 < i < v.len() - 1 {
            assert(v[i] == l[i - 1]);
        }
    }
}

/// The clusters have different names, each of which a line can write.
proof fn lemma_clusters()
    ensures
        "mainnet"@ != "devnet"@,
        "mainnet"@ != "testnet"@,
        "devnet"@ != "testnet"@,
        is_item("mainnet"@),
        is_item("devnet"@),
        is_item("testnet"@),
{
    reveal_strlit("mainnet");
    reveal_strlit("devnet");
    reveal_strlit("testnet");
    assert("mainnet"@[0] != "devnet"@[0]);
    assert("mainnet"@[0] != "testnet"@[0]);
    assert("devnet"@[0] != "testnet"@[0]);
}

/// Every line of a profile can be written.
proof fn lemma_profile_lines(
    p: ProfileSpec,
    id: Seq<char>,
    splitter: Seq<char>,
    usdc: Seq<char>,
    factories: Seq<Seq<char>>,
)
    requires
        is_item(id),
        is_item(splitter),
        is_item(usdc),
        forall|i: int| 0 <= i < factories.len() ==> is_item(#[trigger] factories[i]),
    ensures
        profile_lines(p, id, splitter, usdc, factories).len() == 14,
        forall|j: int|
            0 <= j < 14 ==> (#[trigger] profile_lines(
                p,
                id,
                splitter,
                usdc,
                factories,
            )[j]).valid(),
{
    let lines = profile_lines(p, id, splitter, usdc, factories);
    lemma_text_line(Key::Id, id);
    lemma_text_line(Key::Splitter, splitter);
    lemma_text_line(Key::Usdc, usdc);
    lemma_list_line(factories);
    assert forall|j: int| 0 <= j < 14 implies (#[trigger] lines[j]).valid() by {
        if j == 1 || j > 4 {
            let n: nat = match lines[j].key {
                Key::Consensus => p.consensus as nat,
                Key::IngestPrice => p.ingest_price as nat,
                Key::MinGross => p.min_gross as nat,
                Key::CycleFloor => p.cycle_floor as nat,
                Key::AttachCycles => p.attach_cycles as nat,
                Key::ResponseMaxBytes => p.response_max_bytes as nat,
                Key::RpcNodes => p.rpc_nodes as nat,
                Key::RpcRequestBytes => p.rpc_request_bytes as nat,
                Key::RpcProviders => p.rpc_providers as nat,
                _ => match p.cutover_slot {
                    Some(slot) => slot as nat,
                    None => 0,
                },
            };
            lemma_number_line(lines[j].key, n);
        }
    }
}

/// The number under a key reads back from its line.
proof fn lemma_number_at(lines: Seq<Line>, i: int, k: Key, n: u128)
    requires
        forall|j: int| 0 <= j < lines.len() ==> (#[trigger] lines[j]).valid(),
        0 <= i < lines.len(),
        forall|j: int| 0 <= j < i ==> (#[trigger] lines[j]).key != k,
        lines[i] == (Line { key: k, value: decimal(n as nat), quoted: false }),
    ensures
        number_fault(text_of(lines), k) is None,
        number_at(text_of(lines), k) == n,
{
    lemma_names();
    a_profile_reads_back_key_by_key(lines, i, k);
    a_number_reads_back(n as nat);
}

/// The address under a key reads back from its line.
proof fn lemma_address_at(
    lines: Seq<Line>,
    i: int,
    k: Key,
    text: Seq<char>,
    a: Seq<u8>,
    strict: bool,
)
    requires
        forall|j: int| 0 <= j < lines.len() ==> (#[trigger] lines[j]).valid(),
        0 <= i < lines.len(),
        forall|j: int| 0 <= j < i ==> (#[trigger] lines[j]).key != k,
        lines[i] == (Line { key: k, value: text, quoted: true }),
        is_address(text, a),
    ensures
        address_fault(text_of(lines), k, strict) is None,
        address_at(text_of(lines), k) == a,
{
    lemma_names();
    a_profile_reads_back_key_by_key(lines, i, k);
    lemma_address(text, a);
}

/// The numbers of a profile read back, each under its own key.
proof fn lemma_numbers(
    p: ProfileSpec,
    id: Seq<char>,
    splitter: Seq<char>,
    usdc: Seq<char>,
    factories: Seq<Seq<char>>,
)
    requires
        forall|j: int|
            0 <= j < 14 ==> (#[trigger] profile_lines(
                p,
                id,
                splitter,
                usdc,
                factories,
            )[j]).valid(),
    ensures
        ({
            let text = text_of(profile_lines(p, id, splitter, usdc, factories));
            &&& numbers_fault(text) is None
            &&& number_at(text, Key::Consensus) == p.consensus
            &&& number_at(text, Key::IngestPrice) == p.ingest_price
            &&& number_at(text, Key::MinGross) == p.min_gross
            &&& number_at(text, Key::CycleFloor) == p.cycle_floor
            &&& number_at(text, Key::AttachCycles) == p.attach_cycles
            &&& number_at(text, Key::ResponseMaxBytes) == p.response_max_bytes
            &&& number_at(text, Key::RpcNodes) == p.rpc_nodes
            &&& number_at(text, Key::RpcRequestBytes) == p.rpc_request_bytes
            &&& number_at(text, Key::RpcProviders) == p.rpc_providers
            &&& number_at(text, Key::CutoverSlot) == match p.cutover_slot {
                Some(slot) => slot as nat,
                None => 0,
            }
        }),
{
    let lines = profile_lines(p, id, splitter, usdc, factories);
    let cutover: u128 = match p.cutover_slot {
        Some(slot) => slot as u128,
        None => 0,
    };
    lemma_number_at(lines, 1, Key::Consensus, p.consensus as u128);
    lemma_number_at(lines, 5, Key::IngestPrice, p.ingest_price);
    lemma_number_at(lines, 6, Key::MinGross, p.min_gross);
    lemma_number_at(lines, 7, Key::CycleFloor, p.cycle_floor);
    lemma_number_at(lines, 8, Key::AttachCycles, p.attach_cycles);
    lemma_number_at(lines, 9, Key::ResponseMaxBytes, p.response_max_bytes as u128);
    lemma_number_at(lines, 10, Key::RpcNodes, p.rpc_nodes);
    lemma_number_at(lines, 11, Key::RpcRequestBytes, p.rpc_request_bytes);
    lemma_number_at(lines, 12, Key::RpcProviders, p.rpc_providers);
    lemma_number_at(lines, 13, Key::CutoverSlot, cutover);
}

/// The roots of a profile read back, each under its own key.
proof fn lemma_roots(
    p: ProfileSpec,
    id: Seq<char>,
    splitter: Seq<char>,
    usdc: Seq<char>,
    factories: Seq<Seq<char>>,
    strict: bool,
)
    requires
        forall|j: int|
            0 <= j < 14 ==> (#[trigger] profile_lines(
                p,
                id,
                splitter,
                usdc,
                factories,
            )[j]).valid(),
        is_address(splitter, p.splitter),
        is_address(usdc, p.usdc),
        factories.len() == p.factories.len(),
        forall|i: int|
            0 <= i < factories.len() ==> is_address(#[trigger] factories[i], p.factories[i]),
    ensures
        ({
            let text = text_of(profile_lines(p, id, splitter, usdc, factories));
            &&& value_of(text, key_text(Key::Id)) == Some(id)
            &&& address_fault(text, Key::Splitter, strict) is None
            &&& address_fault(text, Key::Usdc, strict) is None
            &&& factories_fault(text, strict) is None
            &&& address_at(text, Key::Splitter) == p.splitter
            &&& address_at(text, Key::Usdc) == p.usdc
            &&& addresses_among(factory_texts(text)) == p.factories
        }),
{
    let lines = profile_lines(p, id, splitter, usdc, factories);
    lemma_names();
    a_profile_reads_back_key_by_key(lines, 0, Key::Id);
    lemma_address_at(lines, 2, Key::Splitter, splitter, p.splitter, strict);
    lemma_address_at(lines, 3, Key::Usdc, usdc, p.usdc, strict);
    assert forall|i: int| 0 <= i < factories.len() implies is_item(#[trigger] factories[i])
        && pubkey_of(factories[i]) is Some by {
        lemma_address(factories[i], p.factories[i]);
    }
    the_list_of_factories_reads_back(lines, 4, factories);
    lemma_all_pinned(factories, p.factories);
}

/// A profile reads back as it was written: of every coherent profile with real
/// addresses, every number, address, factory and the cluster come back exactly, each
/// under its own key.
pub proof fn a_profile_reads_back(
    p: ProfileSpec,
    id: Seq<char>,
    splitter: Seq<char>,
    usdc: Seq<char>,
    factories: Seq<Seq<char>>,
)
    requires
        first_fault(p) is None,
        id == "mainnet"@ && p.cluster == 0 || id == "devnet"@ && p.cluster == 1 || id
            == "testnet"@ && p.cluster == 2,
        p.chain_id == sha256_of("crown-chain:v1:".spec_bytes() + encode_utf8(id)),
        is_address(splitter, p.splitter),
        is_address(usdc, p.usdc),
        factories.len() == p.factories.len(),
        forall|i: int|
            0 <= i < factories.len() ==> is_address(#[trigger] factories[i], p.factories[i]),
        p.cutover_slot != Some(0u64),
        p.name == "mainnet"@ ==> p.factories.len() > 0 && distinct_roots(p),
    ensures
        ({
            let text = text_of(profile_lines(p, id, splitter, usdc, factories));
            &&& profile_fault(p.name, text) is None
            &&& profile_of(p.name, text) == p
        }),
{
    let text = text_of(profile_lines(p, id, splitter, usdc, factories));
    let strict = p.name == "mainnet"@;
    lemma_clusters();
    lemma_address(splitter, p.splitter);
    lemma_address(usdc, p.usdc);
    assert forall|i: int| 0 <= i < factories.len() implies is_item(#[trigger] factories[i]) by {
        lemma_address(factories[i], p.factories[i]);
    }
    lemma_profile_lines(p, id, splitter, usdc, factories);
    lemma_numbers(p, id, splitter, usdc, factories);
    lemma_roots(p, id, splitter, usdc, factories, strict);
    assert(text_fault(text, strict) is None);
    assert(profile_of(p.name, text) =~= p);
}

/// A refusal tells why: what is missing is set by no line, what is no number is none,
/// and only the frozen profile is refused for its addresses.
pub proof fn a_refusal_tells_why(name: Seq<char>, text: Seq<char>)
    ensures
        (match profile_fault(name, text) {
            Some(ConfigError::Missing(Key::Factories)) => factories_line(text) is None,
            Some(ConfigError::Missing(k)) => value_of(text, name_of(k)) is None,
            Some(ConfigError::NotANumber(k)) => value_of(text, name_of(k)) is Some && number_of(
                value_of(text, name_of(k))->0,
            ) is None,
            Some(ConfigError::UnknownCluster) => {
                let id = value_of(text, "id"@)->0;
                id != "mainnet"@ && id != "devnet"@ && id != "testnet"@
            },
            Some(ConfigError::BadAddress(Key::Factories)) => name == "mainnet"@,
            Some(ConfigError::BadAddress(k)) => name == "mainnet"@ && forall|a: Seq<u8>|
                !is_address(value_of(text, name_of(k))->0, a),
            Some(ConfigError::NoFactories) => name == "mainnet"@ && profile_of(
                name,
                text,
            ).factories.len() == 0,
            Some(ConfigError::CollidingRoots) => name == "mainnet"@,
            Some(ConfigError::Incoherent(e)) => first_fault(profile_of(name, text)) == Some(e),
            None => forall|k: Key|
                k != Key::Factories ==> value_of(text, #[trigger] name_of(k)) is Some,
        }),
{
    lemma_names();
    assert forall|t: Seq<char>, a: Seq<u8>| #[trigger] is_address(t, a) implies pubkey_of(t)
        is Some by {
        lemma_address(t, a);
    }
    if let Some(ConfigError::BadAddress(k)) = profile_fault(name, text) {
        assert forall|a: Seq<u8>| k != Key::Factories implies !is_address(
            value_of(text, name_of(k))->0,
            a,
        ) by {}
    }
}

/// A placeholder is baked as unset: 32 zero bytes, where the profile is not the frozen
/// one.
pub proof fn a_placeholder_is_baked_as_unset(text: Seq<char>, k: Key, i: int)
    requires
        value_of(text, name_of(k)) is Some,
        forall|a: Seq<u8>| !is_address(value_of(text, name_of(k))->0, a),
        0 <= i < 32,
    ensures
        address_fault(text, k, false) is None,
        address_fault(text, k, true) == Some(ConfigError::BadAddress(k)),
        address_at(text, k).len() == 32,
        address_at(text, k)[i] == 0,
{
    lemma_names();
    let t = value_of(text, name_of(k))->0;
    if let Some(x) = pubkey_of(t) {
        assert(stands_for(t, x));
        assert(is_address(t, x));
    }
}

/// A number that is too wide for its field keeps its low bits, as the field's width has
/// them.
pub proof fn a_wide_number_keeps_its_low_bits(name: Seq<char>, text: Seq<char>)
    ensures
        ({
            let p = profile_of(name, text);
            let cap = number_at(text, Key::ResponseMaxBytes);
            let agreeing = number_at(text, Key::Consensus);
            &&& (cap - p.response_max_bytes) % 0x1_0000_0000_0000_0000 == 0
            &&& (agreeing - p.consensus) % 0x100 == 0
            &&& cap <= u64::MAX ==> p.response_max_bytes == cap
            &&& agreeing <= 255 ==> p.consensus == agreeing
        }),
{
}

/// The roots of the frozen profile are pairwise different: the splitter, the mint and
/// every factory.
pub proof fn distinct_roots_are_pairwise_different(p: ProfileSpec)
    ensures
        distinct_roots(p) <==> (seq![p.splitter, p.usdc] + p.factories).no_duplicates(),
{
    let all = seq![p.splitter, p.usdc] + p.factories;
    assert(all[0] == p.splitter && all[1] == p.usdc);
    assert forall|i: int| 0 <= i < p.factories.len() implies all[i + 2] == #[trigger]
        p.factories[i] by {}
    if all.no_duplicates() {
        assert forall|i: int| 0 <= i < p.factories.len() implies #[trigger] p.factories[i]
            != p.splitter && p.factories[i] != p.usdc by {
            assert(all[i + 2] == p.factories[i]);
        }
        assert forall|i: int, j: int|
            0 <= i < j < p.factories.len() implies #[trigger] p.factories[i]
            != #[trigger] p.factories[j] by {
            assert(all[i + 2] == p.factories[i] && all[j + 2] == p.factories[j]);
        }
    }
    if distinct_roots(p) {
        assert forall|i: int, j: int|
            0 <= i < all.len() && 0 <= j < all.len() && i != j implies all[i] != all[j] by {
            if i >= 2 {
                assert(all[i] == p.factories[i - 2]);
            }
            if j >= 2 {
                assert(all[j] == p.factories[j - 2]);
            }
        }
    }
}

} // verus!
