//! Pages over a map in the order of its keys.

use crate::bytes::{lemma_lex_irreflexive, lemma_lex_transitive, lex_lt, precedes};
use crate::tree::{in_key_order, pairs};
use vstd::prelude::*;
use vstd::seq_lib::seq_to_set_is_finite;
use vstd::set_lib::{lemma_len_subset, lemma_subset_equality};

verus! {

/// Whether a key lies strictly after the cursor; everything lies after none.
pub open spec fn after(cursor: Option<Seq<u8>>, k: Seq<u8>) -> bool {
    match cursor {
        Some(c) => lex_lt(c, k),
        None => true,
    }
}

/// Whether `page` is the page of `m` that starts strictly after `cursor`: the
/// first entries after it in the order of the keys, at most `limit` of them, and
/// fewer only where no more are left.
pub open spec fn is_page<V>(
    page: Seq<(Seq<u8>, V)>,
    m: Map<Seq<u8>, V>,
    cursor: Option<Seq<u8>>,
    limit: nat,
) -> bool {
    &&& page.len() <= limit
    &&& forall|i: int, j: int|
        0 <= i < j < page.len() ==> lex_lt(#[trigger] page[i].0, #[trigger] page[j].0)
    &&& forall|i: int|
        0 <= i < page.len() ==> {
            &&& m.contains_key(#[trigger] page[i].0)
            &&& m[page[i].0] == page[i].1
            &&& after(cursor, page[i].0)
        }
    &&& forall|k: Seq<u8>| #[trigger]
        m.contains_key(k) && after(cursor, k) ==> {
            ||| exists|i: int| 0 <= i < page.len() && (#[trigger] page[i]).0 == k
            ||| page.len() == limit && (limit == 0 || lex_lt(page.last().0, k))
        }
}

/// Where a page starts and ends in a list of entries in the order of their keys.
pub(crate) fn page_bounds(
    list: &Vec<(&Vec<u8>, &Vec<u8>)>,
    cursor: Option<&[u8]>,
    limit: usize,
    Ghost(m): Ghost<Map<Seq<u8>, Seq<u8>>>,
) -> (r: (usize, usize))
    requires
        in_key_order(pairs(list@), m),
    ensures
        r.0 <= r.1 <= list@.len(),
        is_page(
            pairs(list@).subrange(r.0 as int, r.1 as int),
            m,
            (match cursor {
                Some(c) => Some(c@),
                None => None,
            }),
            limit as nat,
        ),
{
    let ghost all = pairs(list@);
    let ghost from: Option<Seq<u8>> = match cursor {
        Some(c) => Some(c@),
        None => None,
    };
    let mut start: usize = 0;
    if let Some(c) = cursor {
        while start < list.len() && !precedes(c, list[start].0.as_slice())
            invariant
                start <= list@.len(),
                all == pairs(list@),
                forall|i: int| 0 <= i < start ==> !lex_lt(c@, #[trigger] all[i].0),
            ensures
                start <= list@.len(),
                forall|i: int| 0 <= i < start ==> !lex_lt(c@, #[trigger] all[i].0),
                start < list@.len() ==> lex_lt(c@, all[start as int].0),
            decreases list@.len() - start,
        {
            assert(!lex_lt(c@, all[start as int].0));
            start += 1;
        }
    }
    let end: usize = if limit < list.len() - start {
        start + limit
    } else {
        list.len()
    };
    proof {
        assert forall|i: int| start <= i < all.len() implies after(from, #[trigger] all[i].0) by {
            if start < i {
                assert(lex_lt(all[start as int].0, all[i].0));
                match from {
                    Some(c) => {
                        lemma_lex_transitive(c, all[start as int].0, all[i].0);
                    },
                    None => {},
                }
            }
        }
        let page = all.subrange(start as int, end as int);
        assert forall|k: Seq<u8>| #[trigger] m.contains_key(k) && after(from, k) implies {
            ||| exists|i: int| 0 <= i < page.len() && (#[trigger] page[i]).0 == k
            ||| page.len() == limit && (limit == 0 || lex_lt(page.last().0, k))
        } by {
            let i = choose|i: int| 0 <= i < all.len() && (#[trigger] all[i]).0 == k;
            assert(start <= i);
            if i < end {
                assert(page[i - start].0 == k);
            } else if limit > 0 {
                assert(page.last() == all[end - 1]);
                assert(lex_lt(all[end - 1].0, all[i].0));
            }
        }
    }
    (start, end)
}

/// A page stays a page when every value is read in the same way.
pub(crate) proof fn lemma_page_of_values<V, W>(
    page: Seq<(Seq<u8>, V)>,
    read: Seq<(Seq<u8>, W)>,
    m: Map<Seq<u8>, V>,
    f: spec_fn(V) -> W,
    cursor: Option<Seq<u8>>,
    limit: nat,
)
    requires
        is_page(page, m, cursor, limit),
        read.len() == page.len(),
        forall|i: int|
            0 <= i < page.len() ==> #[trigger] read[i] == (page[i].0, f(page[i].1)),
    ensures
        is_page(read, m.map_values(f), cursor, limit),
{
    assert forall|k: Seq<u8>| #[trigger]
        m.map_values(f).contains_key(k) && after(cursor, k) implies {
        ||| exists|i: int| 0 <= i < read.len() && (#[trigger] read[i]).0 == k
        ||| read.len() == limit && (limit == 0 || lex_lt(read.last().0, k))
    } by {
        assert(m.contains_key(k));
        if exists|i: int| 0 <= i < page.len() && (#[trigger] page[i]).0 == k {
            let i = choose|i: int| 0 <= i < page.len() && (#[trigger] page[i]).0 == k;
            assert(read[i].0 == k);
        } else if limit > 0 {
            assert(read[read.len() - 1].0 == page.last().0);
        }
    }
}

/// There is one page: a map, a cursor and a limit fix every entry and its place.
pub proof fn page_is_unique<V>(
    p: Seq<(Seq<u8>, V)>,
    q: Seq<(Seq<u8>, V)>,
    m: Map<Seq<u8>, V>,
    cursor: Option<Seq<u8>>,
    limit: nat,
)
    requires
        is_page(p, m, cursor, limit),
        is_page(q, m, cursor, limit),
    ensures
        p == q,
{
    lemma_page_prefix(p, q, m, cursor, limit, p.len());
    lemma_page_prefix(q, p, m, cursor, limit, q.len());
    assert(p =~= q);
}

/// The first `n` entries of one page are the first `n` of every other.
proof fn lemma_page_prefix<V>(
    p: Seq<(Seq<u8>, V)>,
    q: Seq<(Seq<u8>, V)>,
    m: Map<Seq<u8>, V>,
    cursor: Option<Seq<u8>>,
    limit: nat,
    n: nat,
)
    requires
        is_page(p, m, cursor, limit),
        is_page(q, m, cursor, limit),
        n <= p.len(),
    ensures
        n <= q.len(),
        forall|i: int| 0 <= i < n ==> p[i] == q[i],
    decreases n,
{
    if n > 0 {
        lemma_page_prefix(p, q, m, cursor, limit, (n - 1) as nat);
        let k = (n - 1) as int;
        let key = p[k].0;
        assert(m.contains_key(key) && after(cursor, key));
        if exists|i: int| 0 <= i < q.len() && (#[trigger] q[i]).0 == key {
            let i = choose|i: int| 0 <= i < q.len() && (#[trigger] q[i]).0 == key;
            lemma_lex_irreflexive(key);
            if i < k {
                assert(p[i] == q[i]);
                assert(lex_lt(p[i].0, p[k].0));
            } else if i > k {
                // The entry of `q` at `k` lies below `key`, so `p` must hold it too.
                let other = q[k].0;
                assert(lex_lt(q[k].0, q[i].0));
                assert(m.contains_key(other) && after(cursor, other));
                if exists|j: int| 0 <= j < p.len() && (#[trigger] p[j]).0 == other {
                    let j = choose|j: int| 0 <= j < p.len() && (#[trigger] p[j]).0 == other;
                    lemma_lex_irreflexive(other);
                    if j < k {
                        assert(p[j] == q[j]);
                        assert(lex_lt(q[j].0, q[k].0));
                    } else if j > k {
                        assert(lex_lt(p[k].0, p[j].0));
                        lemma_lex_transitive(other, key, other);
                    }
                } else {
                    assert(lex_lt(p.last().0, other));
                    if k < p.len() - 1 {
                        assert(lex_lt(p[k].0, p[p.len() - 1].0));
                        lemma_lex_transitive(key, p.last().0, other);
                    }
                    lemma_lex_transitive(key, other, key);
                }
            }
        } else {
            assert(q.len() == limit && lex_lt(q.last().0, key));
            assert(q.len() >= n);
            let other = q[k].0;
            assert(m.contains_key(other) && after(cursor, other));
            if k < q.len() - 1 {
                assert(lex_lt(q[k].0, q[q.len() - 1].0));
                lemma_lex_transitive(other, q.last().0, key);
            }
            assert(lex_lt(other, key));
            if exists|j: int| 0 <= j < p.len() && (#[trigger] p[j]).0 == other {
                let j = choose|j: int| 0 <= j < p.len() && (#[trigger] p[j]).0 == other;
                lemma_lex_irreflexive(other);
                if j < k {
                    assert(p[j] == q[j]);
                    assert(lex_lt(q[j].0, q[k].0));
                } else {
                    if j > k {
                        assert(lex_lt(p[k].0, p[j].0));
                        lemma_lex_transitive(key, other, key);
                    }
                    lemma_lex_irreflexive(key);
                }
            } else {
                assert(lex_lt(p.last().0, other));
                if k < p.len() - 1 {
                    assert(lex_lt(p[k].0, p[p.len() - 1].0));
                    lemma_lex_transitive(key, p.last().0, other);
                }
                lemma_lex_transitive(key, other, key);
                lemma_lex_irreflexive(key);
            }
        }
    }
}

/// A walk by pages neither skips nor repeats: a page and the page that starts
/// after its last entry make up the page of both limits together.
pub proof fn pages_join<V>(
    p: Seq<(Seq<u8>, V)>,
    q: Seq<(Seq<u8>, V)>,
    m: Map<Seq<u8>, V>,
    cursor: Option<Seq<u8>>,
    n: nat,
    k: nat,
)
    requires
        p.len() > 0,
        is_page(p, m, cursor, n),
        is_page(q, m, Some(p.last().0), k),
    ensures
        p.len() == n || q.len() == 0,
        is_page(p + q, m, cursor, n + k),
{
    let pq = p + q;
    let last = p.last().0;
    if p.len() < n && q.len() > 0 {
        let other = q[0].0;
        assert(m.contains_key(other) && lex_lt(last, other));
        match cursor {
            Some(c) => {
                assert(after(cursor, p[p.len() - 1].0));
                lemma_lex_transitive(c, last, other);
            },
            None => {},
        }
        let i = choose|i: int| 0 <= i < p.len() && (#[trigger] p[i]).0 == other;
        if i < p.len() - 1 {
            assert(lex_lt(p[i].0, p[p.len() - 1].0));
            lemma_lex_transitive(last, other, last);
        }
        lemma_lex_irreflexive(last);
        assert(false);
    }
    assert forall|i: int, j: int| 0 <= i < j < pq.len() implies lex_lt(
        #[trigger] pq[i].0,
        #[trigger] pq[j].0,
    ) by {
        if i < p.len() && j >= p.len() {
            assert(pq[j] == q[j - p.len()]);
            assert(lex_lt(last, q[j - p.len()].0));
            if i < p.len() - 1 {
                assert(lex_lt(p[i].0, p[p.len() - 1].0));
                lemma_lex_transitive(p[i].0, last, q[j - p.len()].0);
            }
        }
    }
    assert forall|i: int| 0 <= i < pq.len() implies {
        &&& m.contains_key(#[trigger] pq[i].0)
        &&& m[pq[i].0] == pq[i].1
        &&& after(cursor, pq[i].0)
    } by {
        if i >= p.len() {
            let e = q[i - p.len()];
            assert(after(Some(last), e.0));
            match cursor {
                Some(c) => {
                    assert(after(cursor, p[p.len() - 1].0));
                    lemma_lex_transitive(c, last, e.0);
                },
                None => {},
            }
        }
    }
    assert forall|x: Seq<u8>| #[trigger] m.contains_key(x) && after(cursor, x) implies {
        ||| exists|i: int| 0 <= i < pq.len() && (#[trigger] pq[i]).0 == x
        ||| pq.len() == n + k && (n + k == 0 || lex_lt(pq.last().0, x))
    } by {
        if exists|i: int| 0 <= i < p.len() && (#[trigger] p[i]).0 == x {
            let i = choose|i: int| 0 <= i < p.len() && (#[trigger] p[i]).0 == x;
            assert(pq[i].0 == x);
        } else {
            assert(p.len() == n && lex_lt(last, x));
            assert(after(Some(last), x));
            if exists|i: int| 0 <= i < q.len() && (#[trigger] q[i]).0 == x {
                let i = choose|i: int| 0 <= i < q.len() && (#[trigger] q[i]).0 == x;
                assert(pq[i + p.len()].0 == x);
            } else {
                assert(q.len() == k);
                if k == 0 {
                    assert(pq =~= p);
                } else {
                    assert(pq.last() == q.last());
                }
            }
        }
    }
}

/// A page that is not full is the last: it holds every entry after its cursor.
/// So an empty page, with a limit above zero, ends the walk.
pub proof fn short_page_ends_the_walk<V>(
    p: Seq<(Seq<u8>, V)>,
    m: Map<Seq<u8>, V>,
    cursor: Option<Seq<u8>>,
    limit: nat,
)
    requires
        is_page(p, m, cursor, limit),
        p.len() < limit,
    ensures
        forall|k: Seq<u8>| #[trigger]
            m.contains_key(k) && after(cursor, k) ==> exists|i: int|
                0 <= i < p.len() && (#[trigger] p[i]).0 == k,
{
}

/// The keys of entries.
spec fn keys_of<V>(page: Seq<(Seq<u8>, V)>) -> Seq<Seq<u8>> {
    Seq::new(page.len(), |i: int| page[i].0)
}

/// Entries in the order of their keys are as many as their keys.
proof fn lemma_keys_of<V>(page: Seq<(Seq<u8>, V)>)
    requires
        forall|i: int, j: int|
            0 <= i < j < page.len() ==> lex_lt(#[trigger] page[i].0, #[trigger] page[j].0),
    ensures
        keys_of(page).to_set().finite(),
        keys_of(page).to_set().len() == page.len(),
{
    let keys = keys_of(page);
    assert forall|i: int, j: int| 0 <= i < keys.len() && 0 <= j < keys.len() && i
        != j implies keys[i] != keys[j] by {
        lemma_lex_irreflexive(keys[i]);
        if i < j {
            assert(lex_lt(page[i].0, page[j].0));
        } else {
            assert(lex_lt(page[j].0, page[i].0));
        }
    }
    keys.unique_seq_to_set();
    seq_to_set_is_finite(keys);
}

/// Where entries in the order of their keys hold every key of a map, they are as
/// many as its keys.
proof fn lemma_as_long_as_the_keys<V>(page: Seq<(Seq<u8>, V)>, m: Map<Seq<u8>, V>)
    requires
        forall|i: int, j: int|
            0 <= i < j < page.len() ==> lex_lt(#[trigger] page[i].0, #[trigger] page[j].0),
        forall|i: int| 0 <= i < page.len() ==> m.contains_key(#[trigger] page[i].0),
        forall|k: Seq<u8>| #[trigger]
            m.contains_key(k) ==> exists|i: int| 0 <= i < page.len() && (#[trigger] page[i]).0 == k,
    ensures
        m.dom().finite(),
        page.len() == m.dom().len(),
{
    lemma_keys_of(page);
    let keys = keys_of(page);
    assert forall|k: Seq<u8>| keys.to_set().contains(k) <==> #[trigger] m.dom().contains(k) by {
        if m.contains_key(k) {
            let i = choose|i: int| 0 <= i < page.len() && (#[trigger] page[i]).0 == k;
            assert(keys[i] == k);
        }
        if keys.contains(k) {
            let i = choose|i: int| 0 <= i < keys.len() && keys[i] == k;
            assert(m.contains_key(page[i].0));
        }
    }
    assert(keys.to_set() =~= m.dom());
}

/// A page from the beginning whose limit is no smaller than the number of keys
/// holds everything: each entry once, as many as there are keys.
pub proof fn a_wide_page_holds_everything<V>(
    p: Seq<(Seq<u8>, V)>,
    m: Map<Seq<u8>, V>,
    limit: nat,
)
    requires
        is_page(p, m, None, limit),
        m.dom().finite(),
        m.dom().len() <= limit,
    ensures
        p.len() == m.dom().len(),
        forall|k: Seq<u8>| #[trigger]
            m.contains_key(k) ==> exists|i: int| 0 <= i < p.len() && (#[trigger] p[i]).0 == k,
{
    if p.len() < limit {
        short_page_ends_the_walk(p, m, None, limit);
        assert forall|k: Seq<u8>| #[trigger] m.contains_key(k) implies exists|i: int|
            0 <= i < p.len() && (#[trigger] p[i]).0 == k by {
            assert(after(None, k));
        }
        lemma_as_long_as_the_keys(p, m);
    } else {
        lemma_keys_of(p);
        let keys = keys_of(p);
        assert forall|k: Seq<u8>| keys.to_set().contains(k) implies #[trigger] m.dom().contains(
            k,
        ) by {
            let i = choose|i: int| 0 <= i < keys.len() && keys[i] == k;
            assert(m.contains_key(p[i].0));
        }
        lemma_len_subset(keys.to_set(), m.dom());
        lemma_subset_equality(keys.to_set(), m.dom());
        assert forall|k: Seq<u8>| #[trigger] m.contains_key(k) implies exists|i: int|
            0 <= i < p.len() && (#[trigger] p[i]).0 == k by {
            assert(m.dom().contains(k));
            assert(keys.contains(k));
            let i = choose|i: int| 0 <= i < keys.len() && keys[i] == k;
            assert(p[i].0 == k);
        }
    }
}

/// Whether page `i` starts after the last entry of the page before it.
pub open spec fn follows<V>(
    pages: Seq<Seq<(Seq<u8>, V)>>,
    i: int,
    m: Map<Seq<u8>, V>,
    limit: nat,
) -> bool {
    pages[i - 1].len() > 0 && is_page(pages[i], m, Some(pages[i - 1].last().0), limit)
}

/// Whether pages are a walk: the first starts at the beginning, every other after
/// the last entry of the one before it, and only the last may be empty.
pub open spec fn is_walk<V>(
    pages: Seq<Seq<(Seq<u8>, V)>>,
    m: Map<Seq<u8>, V>,
    limit: nat,
) -> bool {
    &&& pages.len() > 0
    &&& is_page(pages[0], m, None, limit)
    &&& forall|i: int| 0 < i < pages.len() ==> #[trigger] follows(pages, i, m, limit)
}

/// The entries of pages, one page after the other.
pub open spec fn walked<V>(pages: Seq<Seq<(Seq<u8>, V)>>) -> Seq<(Seq<u8>, V)>
    decreases pages.len(),
{
    if pages.len() == 0 {
        Seq::empty()
    } else {
        walked(pages.drop_last()) + pages.last()
    }
}

/// The pages of a walk make up one page.
proof fn lemma_walk_is_a_page<V>(pages: Seq<Seq<(Seq<u8>, V)>>, m: Map<Seq<u8>, V>, limit: nat)
    requires
        is_walk(pages, m, limit),
    ensures
        is_page(walked(pages), m, None, pages.len() * limit),
        pages.last().len() > 0 ==> walked(pages).len() > 0 && walked(pages).last()
            == pages.last().last(),
    decreases pages.len(),
{
    let before = pages.drop_last();
    assert(pages.last() == pages[pages.len() - 1]);
    if pages.len() == 1 {
        assert(walked(before) =~= Seq::empty());
        assert(walked(pages) =~= pages[0]);
        assert(1 * limit == limit);
    } else {
        assert forall|i: int| 0 < i < before.len() implies #[trigger] follows(
            before,
            i,
            m,
            limit,
        ) by {
            assert(follows(pages, i, m, limit));
        }
        assert(follows(pages, pages.len() - 1, m, limit));
        lemma_walk_is_a_page(before, m, limit);
        assert(before.last() == pages[pages.len() - 2]);
        pages_join(walked(before), pages.last(), m, None, before.len() * limit, limit);
        assert(before.len() * limit + limit == pages.len() * limit) by (nonlinear_arith)
            requires
                before.len() + 1 == pages.len(),
        ;
    }
}

/// A finished walk saw every entry once, in the order of the keys: where a walk
/// with a limit above zero ends in an empty page, its pages hold all of the map,
/// and are together as long as the map has keys.
pub proof fn a_finished_walk_saw_everything_once<V>(
    pages: Seq<Seq<(Seq<u8>, V)>>,
    m: Map<Seq<u8>, V>,
    limit: nat,
)
    requires
        is_walk(pages, m, limit),
        limit > 0,
        pages.last().len() == 0,
    ensures
        forall|i: int, j: int|
            0 <= i < j < walked(pages).len() ==> lex_lt(
                #[trigger] walked(pages)[i].0,
                #[trigger] walked(pages)[j].0,
            ),
        forall|i: int|
            0 <= i < walked(pages).len() ==> m.contains_key(#[trigger] walked(pages)[i].0)
                && m[walked(pages)[i].0] == walked(pages)[i].1,
        forall|k: Seq<u8>| #[trigger]
            m.contains_key(k) ==> exists|i: int|
                0 <= i < walked(pages).len() && (#[trigger] walked(pages)[i]).0 == k,
        m.dom().finite(),
        walked(pages).len() == m.dom().len(),
{
    lemma_walk_is_a_page(pages, m, limit);
    let all = walked(pages);
    let before = pages.drop_last();
    assert(all =~= walked(before));
    assert forall|k: Seq<u8>| #[trigger] m.contains_key(k) implies exists|i: int|
        0 <= i < all.len() && (#[trigger] all[i]).0 == k by {
        assert(after(None, k));
        if !(exists|i: int| 0 <= i < all.len() && (#[trigger] all[i]).0 == k) {
            assert(pages[pages.len() - 1] == pages.last());
            if pages.len() == 1 {
                assert(pages[0].len() == 0);
            } else {
                assert forall|i: int| 0 < i < before.len() implies #[trigger] follows(
                    before,
                    i,
                    m,
                    limit,
                ) by {
                    assert(follows(pages, i, m, limit));
                }
                assert(follows(pages, pages.len() - 1, m, limit));
                lemma_walk_is_a_page(before, m, limit);
                assert(before.last() == pages[pages.len() - 2]);
                assert(lex_lt(all.last().0, k));
                assert(after(Some(pages[pages.len() - 2].last().0), k));
            }
        }
    }
    lemma_as_long_as_the_keys(all, m);
}

} // verus!
