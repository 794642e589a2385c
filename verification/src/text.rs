//! Small operations on text, by characters.

use vstd::prelude::*;
use vstd::string::*;

verus! {

/// Whether a character is white space, in the sense of Unicode.
pub open spec fn is_space(c: char) -> bool {
    ||| '\u{9}' <= c <= '\u{d}'
    ||| c == ' '
    ||| c == '\u{85}'
    ||| c == '\u{a0}'
    ||| c == '\u{1680}'
    ||| '\u{2000}' <= c <= '\u{200a}'
    ||| c == '\u{2028}'
    ||| c == '\u{2029}'
    ||| c == '\u{202f}'
    ||| c == '\u{205f}'
    ||| c == '\u{3000}'
}

/// What is trimmed off the ends of a text: white space, or double quotes.
#[derive(Clone, Copy, PartialEq, Eq, Structural)]
pub enum Edge {
    Space,
    Quotes,
}

impl Edge {
    /// Whether a character is trimmed.
    pub open spec fn holds(self, c: char) -> bool {
        match self {
            Edge::Space => is_space(c),
            Edge::Quotes => c == '"',
        }
    }

    fn trims(self, c: char) -> (r: bool)
        ensures
            r == self.holds(c),
    {
        match self {
            Edge::Space => ('\u{9}' <= c && c <= '\u{d}') || c == ' ' || c == '\u{85}' || c
                == '\u{a0}' || c == '\u{1680}' || ('\u{2000}' <= c && c <= '\u{200a}') || c
                == '\u{2028}' || c == '\u{2029}' || c == '\u{202f}' || c == '\u{205f}' || c
                == '\u{3000}',
            Edge::Quotes => c == '"',
        }
    }
}

/// A text without what it starts with of an edge.
pub open spec fn trim_front(s: Seq<char>, edge: Edge) -> Seq<char>
    decreases s.len(),
{
    if s.len() > 0 && edge.holds(s[0]) {
        trim_front(s.drop_first(), edge)
    } else {
        s
    }
}

/// A text without what it ends with of an edge.
pub open spec fn trim_back(s: Seq<char>, edge: Edge) -> Seq<char>
    decreases s.len(),
{
    if s.len() > 0 && edge.holds(s.last()) {
        trim_back(s.drop_last(), edge)
    } else {
        s
    }
}

/// A text without an edge at either end.
pub open spec fn trim_both(s: Seq<char>, edge: Edge) -> Seq<char> {
    trim_back(trim_front(s, edge), edge)
}

/// The place of the first `c` in a text, or its length where there is none.
pub open spec fn first_of(s: Seq<char>, c: char) -> nat
    decreases s.len(),
{
    if s.len() == 0 || s[0] == c {
        0
    } else {
        1 + first_of(s.drop_first(), c)
    }
}

/// The first place is where `c` stands with none before it.
pub proof fn lemma_first_of(s: Seq<char>, c: char, n: nat)
    requires
        n <= s.len(),
        forall|k: int| 0 <= k < n ==> s[k] != c,
        n < s.len() ==> s[n as int] == c,
    ensures
        first_of(s, c) == n,
    decreases s.len(),
{
    if n > 0 {
        assert forall|k: int| 0 <= k < n - 1 implies s.drop_first()[k] != c by {
            assert(s[k + 1] != c);
        }
        lemma_first_of(s.drop_first(), c, (n - 1) as nat);
    }
}

/// The place of the first `c` in a text, or its length where there is none.
pub fn find(s: &str, c: char) -> (r: usize)
    ensures
        r == first_of(s@, c),
        r <= s@.len(),
        r < s@.len() ==> s@[r as int] == c,
{
    let len = s.unicode_len();
    let mut i: usize = 0;
    while i < len
        invariant
            i <= len,
            len == s@.len(),
            forall|k: int| 0 <= k < i ==> s@[k] != c,
        decreases len - i,
    {
        if s.get_char(i) == c {
            proof {
                lemma_first_of(s@, c, i as nat);
            }
            return i;
        }
        i += 1;
    }
    proof {
        lemma_first_of(s@, c, i as nat);
    }
    i
}

/// A text without what it starts with of an edge.
pub fn trimmed_front(s: &str, edge: Edge) -> (r: &str)
    ensures
        r@ == trim_front(s@, edge),
{
    let len = s.unicode_len();
    let mut i: usize = 0;
    assert(s@.skip(0) =~= s@);
    while i < len
        invariant
            i <= len,
            len == s@.len(),
            trim_front(s@, edge) == trim_front(s@.skip(i as int), edge),
        decreases len - i,
    {
        if !edge.trims(s.get_char(i)) {
            let r = s.substring_char(i, len);
            assert(r@ =~= s@.skip(i as int));
            return r;
        }
        assert(s@.skip(i as int).drop_first() =~= s@.skip(i + 1));
        i += 1;
    }
    let r = s.substring_char(len, len);
    assert(r@ =~= s@.skip(i as int));
    r
}

/// A text without an edge at either end.
pub fn trimmed(s: &str, edge: Edge) -> (r: &str)
    ensures
        r@ == trim_both(s@, edge),
{
    let t = trimmed_front(s, edge);
    let len = t.unicode_len();
    let mut n: usize = len;
    assert(t@.take(n as int) =~= t@);
    while n > 0
        invariant
            n <= len,
            len == t@.len(),
            t@ == trim_front(s@, edge),
            trim_back(t@, edge) == trim_back(t@.take(n as int), edge),
        decreases n,
    {
        if !edge.trims(t.get_char(n - 1)) {
            let r = t.substring_char(0, n);
            assert(r@ =~= t@.take(n as int));
            return r;
        }
        assert(t@.take(n as int).drop_last() =~= t@.take(n - 1));
        n -= 1;
    }
    let r = t.substring_char(0, 0);
    assert(r@ =~= t@.take(n as int));
    r
}

/// Whether a text starts with another.
pub fn starts_with(s: &str, p: &str) -> (r: bool)
    ensures
        r == p@.is_prefix_of(s@),
{
    let n = p.unicode_len();
    if s.unicode_len() < n {
        return false;
    }
    let mut i: usize = 0;
    while i < n
        invariant
            i <= n,
            n == p@.len(),
            n <= s@.len(),
            forall|k: int| 0 <= k < i ==> s@[k] == p@[k],
        decreases n - i,
    {
        if s.get_char(i) != p.get_char(i) {
            assert(s@.subrange(0, n as int)[i as int] != p@[i as int]);
            return false;
        }
        i += 1;
    }
    assert(s@.subrange(0, n as int) =~= p@);
    true
}

/// Whether two texts are the same.
pub fn same_text(a: &str, b: &str) -> (r: bool)
    ensures
        r == (a@ == b@),
{
    if a.unicode_len() != b.unicode_len() {
        return false;
    }
    let r = starts_with(a, b);
    assert(a@.subrange(0, b@.len() as int) =~= a@);
    r
}

/// What is left of a text behind its first `n` characters.
pub fn rest_of(s: &str, n: usize) -> (r: &str)
    requires
        n <= s@.len(),
    ensures
        r@ == s@.skip(n as int),
{
    let r = s.substring_char(n, s.unicode_len());
    assert(r@ =~= s@.skip(n as int));
    r
}

/// The first `n` characters of a text.
pub fn front_of(s: &str, n: usize) -> (r: &str)
    requires
        n <= s@.len(),
    ensures
        r@ == s@.take(n as int),
{
    let r = s.substring_char(0, n);
    assert(r@ =~= s@.take(n as int));
    r
}

} // verus!
