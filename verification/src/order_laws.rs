//! What an index holds does not depend on the order it grew in: settlements add
//! up, each escrow is born once, and transactions fold to the same in any order
//! that each of them is folded in. (The roots do depend on it.)

use crate::certified::{capped, key_of, BirthSpec, CertifiedSpec};
use crate::derive::off_curve;
use crate::page::is_page;
use crate::recognize::RecognizedSpec;
use crate::reduce::SettledSpec;
use crate::state::{
    before_settlements, births_keyless, fold_of, keyless_payers, refused, with_births,
    with_settlements,
};
use crate::state_laws::{
    a_canonical_replay_normalizes, births_leave_the_book, keyless_payers_are_attributed,
    settlements_leave_the_births, successor,
};
use vstd::prelude::*;
use vstd::seq_lib::{group_to_multiset_ensures, lemma_multiset_commutative};

verus! {

/// One step that a state grows by.
pub enum Step {
    /// A settlement is folded in, as it is attributed.
    Settle(SettledSpec),
    /// A birth is recorded.
    Bear(Seq<u8>, BirthSpec),
}

/// The state after steps, one after the other. A settlement that the book refuses
/// leaves no trace.
pub open spec fn grown(s: CertifiedSpec, steps: Seq<Step>) -> CertifiedSpec
    decreases steps.len(),
{
    if steps.len() == 0 {
        s
    } else {
        let before = grown(s, steps.drop_last());
        match steps.last() {
            Step::Settle(ev) => match before.settled(ev) {
                Some(after) => after,
                None => before,
            },
            Step::Bear(escrow, b) => before.born(escrow, b),
        }
    }
}

/// Whether the book refuses none of the settlements.
pub open spec fn all_fit(s: CertifiedSpec, steps: Seq<Step>) -> bool
    decreases steps.len(),
{
    steps.len() > 0 ==> {
        &&& all_fit(s, steps.drop_last())
        &&& steps.last() matches Step::Settle(ev) ==> grown(s, steps.drop_last()).settled(
            ev,
        ) is Some
    }
}

/// Whether no escrow is born in two ways.
pub open spec fn born_one_way(steps: Seq<Step>) -> bool {
    forall|e: Seq<u8>, b: BirthSpec, c: BirthSpec|
        #![trigger steps.contains(Step::Bear(e, b)), steps.contains(Step::Bear(e, c))]
        steps.contains(Step::Bear(e, b)) && steps.contains(Step::Bear(e, c)) ==> b == c
}

/// What a step credits under a book key.
spec fn credit(step: Step, key: Seq<u8>) -> nat {
    match step {
        Step::Settle(ev) => if key_of(ev.chain, ev.donor, ev.recipient) == key {
            ev.gross as nat
        } else {
            0
        },
        Step::Bear(_, _) => 0,
    }
}

/// What steps credit under a book key together.
spec fn credits(steps: Seq<Step>, key: Seq<u8>) -> nat
    decreases steps.len(),
{
    if steps.len() == 0 {
        0
    } else {
        credits(steps.drop_last(), key) + credit(steps.last(), key)
    }
}

/// Whether a step settles under a book key.
spec fn settles(step: Step, key: Seq<u8>) -> bool {
    step matches Step::Settle(ev) && key_of(ev.chain, ev.donor, ev.recipient) == key
}

/// Whether some step settles under a book key.
spec fn any_settles(steps: Seq<Step>, key: Seq<u8>) -> bool {
    exists|st: Step| #[trigger] steps.contains(st) && settles(st, key)
}

/// Whether some step bears an escrow.
spec fn any_bears(steps: Seq<Step>, escrow: Seq<u8>) -> bool {
    exists|b: BirthSpec| steps.contains(Step::Bear(escrow, b))
}

/// The last step is one of the steps, and the others are those before it.
proof fn lemma_contains_last(steps: Seq<Step>, x: Step)
    requires
        steps.len() > 0,
    ensures
        steps.contains(x) <==> steps.drop_last().contains(x) || steps.last() == x,
{
    let before = steps.drop_last();
    if steps.contains(x) {
        let i = choose|i: int| 0 <= i < steps.len() && steps[i] == x;
        if i < before.len() {
            assert(before[i] == x);
        }
    }
    if before.contains(x) {
        let i = choose|i: int| 0 <= i < before.len() && before[i] == x;
        assert(steps[i] == x);
    }
    assert(steps[steps.len() - 1] == steps.last());
}

/// The book after steps that fit: reputation is what it was and what the steps
/// credit, under the keys there were and those the steps settle under.
proof fn lemma_book_grown(s: CertifiedSpec, steps: Seq<Step>, key: Seq<u8>)
    requires
        all_fit(s, steps),
    ensures
        grown(s, steps).reputation(key) == s.reputation(key) + credits(steps, key),
        grown(s, steps).book.contains_key(key) <==> s.book.contains_key(key) || any_settles(
            steps,
            key,
        ),
    decreases steps.len(),
{
    if steps.len() > 0 {
        let before = steps.drop_last();
        lemma_book_grown(s, before, key);
        let last = steps.last();
        lemma_contains_last(steps, last);
        if settles(last, key) {
            assert(steps.contains(last));
            assert(any_settles(steps, key));
        } else {
            if any_settles(steps, key) {
                let st = choose|st: Step| #[trigger] steps.contains(st) && settles(st, key);
                lemma_contains_last(steps, st);
                assert(before.contains(st));
            }
        }
        if any_settles(before, key) {
            let st = choose|st: Step| #[trigger] before.contains(st) && settles(st, key);
            lemma_contains_last(steps, st);
            assert(steps.contains(st));
        }
    }
}

/// Steps fit where no key is credited more than its reputation has room for.
proof fn lemma_fit(s: CertifiedSpec, steps: Seq<Step>)
    requires
        forall|key: Seq<u8>| #[trigger] s.reputation(key) + credits(steps, key) <= u128::MAX,
    ensures
        all_fit(s, steps),
    decreases steps.len(),
{
    if steps.len() > 0 {
        let before = steps.drop_last();
        assert forall|key: Seq<u8>| #[trigger] s.reputation(key) + credits(before, key)
            <= u128::MAX by {
            assert(credits(before, key) <= credits(steps, key));
        }
        lemma_fit(s, before);
        if let Step::Settle(ev) = steps.last() {
            let key = key_of(ev.chain, ev.donor, ev.recipient);
            lemma_book_grown(s, before, key);
            assert(s.reputation(key) + credits(steps, key) <= u128::MAX);
        }
    }
}

/// The births after steps: those there were and those the steps bear, each as it
/// was born.
proof fn lemma_births_grown(s: CertifiedSpec, steps: Seq<Step>, escrow: Seq<u8>)
    requires
        born_one_way(steps),
    ensures
        grown(s, steps).births.contains_key(escrow) <==> s.births.contains_key(escrow)
            || any_bears(steps, escrow),
        forall|b: BirthSpec| #[trigger]
            steps.contains(Step::Bear(escrow, b)) ==> grown(s, steps).births[escrow] == b,
        !any_bears(steps, escrow) && s.births.contains_key(escrow) ==> grown(
            s,
            steps,
        ).births[escrow] == s.births[escrow],
    decreases steps.len(),
{
    if steps.len() > 0 {
        let before = steps.drop_last();
        let last = steps.last();
        assert(born_one_way(before)) by {
            assert forall|e: Seq<u8>, b: BirthSpec, c: BirthSpec|
                before.contains(Step::Bear(e, b)) && before.contains(
                    Step::Bear(e, c),
                ) implies b == c by {
                lemma_contains_last(steps, Step::Bear(e, b));
                lemma_contains_last(steps, Step::Bear(e, c));
            }
        }
        lemma_births_grown(s, before, escrow);
        if any_bears(before, escrow) {
            let b = choose|b: BirthSpec| before.contains(Step::Bear(escrow, b));
            lemma_contains_last(steps, Step::Bear(escrow, b));
            assert(steps.contains(Step::Bear(escrow, b)));
        }
        if any_bears(steps, escrow) {
            let b = choose|b: BirthSpec| steps.contains(Step::Bear(escrow, b));
            lemma_contains_last(steps, Step::Bear(escrow, b));
        }
        lemma_contains_last(steps, last);
        assert forall|b: BirthSpec| #[trigger] steps.contains(Step::Bear(escrow, b)) implies grown(
            s,
            steps,
        ).births[escrow] == b by {
            lemma_contains_last(steps, Step::Bear(escrow, b));
            if let Step::Bear(e, c) = last {
                if e == escrow {
                    assert(steps.contains(Step::Bear(escrow, c)));
                }
            }
        }
        if let Step::Bear(e, c) = last {
            if e == escrow {
                assert(steps.contains(Step::Bear(escrow, c)));
                assert(any_bears(steps, escrow));
            }
        }
    }
}

/// Taking a step out takes out what it credits.
proof fn lemma_credits_remove(steps: Seq<Step>, i: int, key: Seq<u8>)
    requires
        0 <= i < steps.len(),
    ensures
        credits(steps, key) == credits(steps.remove(i), key) + credit(steps[i], key),
    decreases steps.len(),
{
    if i == steps.len() - 1 {
        assert(steps.remove(i) =~= steps.drop_last());
    } else {
        lemma_credits_remove(steps.drop_last(), i, key);
        assert(steps.remove(i).drop_last() =~= steps.drop_last().remove(i));
        assert(steps.remove(i).last() == steps.last());
    }
}

/// The same steps in another order credit the same.
proof fn lemma_credits_permuted(a: Seq<Step>, b: Seq<Step>, key: Seq<u8>)
    requires
        a.to_multiset() == b.to_multiset(),
    ensures
        credits(a, key) == credits(b, key),
    decreases a.len(),
{
    broadcast use group_to_multiset_ensures;

    assert(a.len() == a.to_multiset().len());
    assert(b.len() == b.to_multiset().len());
    if a.len() > 0 {
        let x = a.last();
        assert(a[a.len() - 1] == x);
        assert(a.contains(x));
        assert(a.to_multiset().count(x) > 0);
        assert(b.contains(x));
        let j = choose|j: int| 0 <= j < b.len() && b[j] == x;
        assert(a.remove(a.len() - 1) =~= a.drop_last());
        assert(a.drop_last().to_multiset() =~= b.remove(j).to_multiset());
        lemma_credits_permuted(a.drop_last(), b.remove(j), key);
        lemma_credits_remove(b, j, key);
    }
}

/// The contents do not depend on the order of settlements and births: the same
/// steps in any order give the same book and the same births, and where none is
/// refused in one order, none is in another. Of an escrow that is born in two ways
/// the last birth stands, so such steps are left out.
pub proof fn contents_do_not_depend_on_the_order(s: CertifiedSpec, a: Seq<Step>, b: Seq<Step>)
    requires
        a.to_multiset() == b.to_multiset(),
        all_fit(s, a),
        born_one_way(a),
    ensures
        all_fit(s, b),
        grown(s, a).book == grown(s, b).book,
        grown(s, a).births == grown(s, b).births,
{
    let ga = grown(s, a);
    let gb = grown(s, b);
    assert forall|x: Step| a.contains(x) <==> #[trigger] b.contains(x) by {
        broadcast use group_to_multiset_ensures;

        assert(a.contains(x) <==> a.to_multiset().count(x) > 0);
        assert(b.contains(x) <==> b.to_multiset().count(x) > 0);
    }
    assert forall|key: Seq<u8>| #[trigger] s.reputation(key) + credits(b, key) <= u128::MAX by {
        lemma_book_grown(s, a, key);
        lemma_credits_permuted(a, b, key);
    }
    lemma_fit(s, b);
    assert forall|key: Seq<u8>| ga.book.contains_key(key) <==> #[trigger] gb.book.contains_key(
        key,
    ) by {
        lemma_book_grown(s, a, key);
        lemma_book_grown(s, b, key);
        if any_settles(a, key) {
            let st = choose|st: Step| #[trigger] a.contains(st) && settles(st, key);
            assert(b.contains(st));
        }
        if any_settles(b, key) {
            let st = choose|st: Step| #[trigger] b.contains(st) && settles(st, key);
            assert(a.contains(st));
        }
    }
    assert forall|key: Seq<u8>| #[trigger] ga.book.contains_key(key) implies ga.book[key]
        == gb.book[key] by {
        lemma_book_grown(s, a, key);
        lemma_book_grown(s, b, key);
        lemma_credits_permuted(a, b, key);
        assert(gb.book.contains_key(key));
        assert(ga.reputation(key) == gb.reputation(key));
    }
    assert(ga.book =~= gb.book);
    assert(born_one_way(b)) by {
        assert forall|e: Seq<u8>, x: BirthSpec, y: BirthSpec|
            b.contains(Step::Bear(e, x)) && b.contains(Step::Bear(e, y)) implies x == y by {
            assert(a.contains(Step::Bear(e, x)));
            assert(a.contains(Step::Bear(e, y)));
        }
    }
    assert forall|e: Seq<u8>| ga.births.contains_key(e) <==> #[trigger] gb.births.contains_key(
        e,
    ) by {
        lemma_births_grown(s, a, e);
        lemma_births_grown(s, b, e);
        if any_bears(a, e) {
            let x = choose|x: BirthSpec| a.contains(Step::Bear(e, x));
            assert(b.contains(Step::Bear(e, x)));
        }
        if any_bears(b, e) {
            let x = choose|x: BirthSpec| b.contains(Step::Bear(e, x));
            assert(a.contains(Step::Bear(e, x)));
        }
    }
    assert forall|e: Seq<u8>| #[trigger] ga.births.contains_key(e) implies ga.births[e]
        == gb.births[e] by {
        lemma_births_grown(s, a, e);
        lemma_births_grown(s, b, e);
        if any_bears(a, e) {
            let x = choose|x: BirthSpec| a.contains(Step::Bear(e, x));
            assert(b.contains(Step::Bear(e, x)));
        } else if any_bears(b, e) {
            let x = choose|x: BirthSpec| b.contains(Step::Bear(e, x));
            assert(a.contains(Step::Bear(e, x)));
        }
    }
    assert(ga.births =~= gb.births);
}

/// A handover forgets the order: predecessors that grew by the same steps in
/// different orders hand out the same pages, and their replays are one successor,
/// with one root.
pub proof fn a_handover_forgets_the_order(
    s: CertifiedSpec,
    a: Seq<Step>,
    b: Seq<Step>,
    book_a: Seq<(Seq<u8>, u128)>,
    births_a: Seq<(Seq<u8>, BirthSpec)>,
    book_b: Seq<(Seq<u8>, u128)>,
    births_b: Seq<(Seq<u8>, BirthSpec)>,
    limit: nat,
)
    requires
        a.to_multiset() == b.to_multiset(),
        all_fit(s, a),
        born_one_way(a),
        is_page(book_a, grown(s, a).book, None, limit),
        is_page(births_a, grown(s, a).births, None, limit),
        is_page(book_b, grown(s, b).book, None, limit),
        is_page(births_b, grown(s, b).births, None, limit),
    ensures
        book_a == book_b,
        births_a == births_b,
        successor(book_a, births_a).root() == successor(book_b, births_b).root(),
{
    contents_do_not_depend_on_the_order(s, a, b);
    a_canonical_replay_normalizes(
        grown(s, a),
        grown(s, b),
        book_a,
        births_a,
        book_b,
        births_b,
        limit,
    );
}

// ----- whole transactions -----

/// The state after transactions are folded, one after the other: each is a
/// signature and what was recognized under it. One that is refused leaves no trace.
pub open spec fn all_folded(
    s: CertifiedSpec,
    txs: Seq<(Seq<u8>, RecognizedSpec)>,
) -> CertifiedSpec
    decreases txs.len(),
{
    if txs.len() == 0 {
        s
    } else {
        let (signature, r) = txs.last();
        fold_of(
            all_folded(s, txs.drop_last()),
            signature,
            r,
            keyless_payers(r.settlements),
        ).0
    }
}

/// Whether every transaction is folded in.
pub open spec fn all_applied(s: CertifiedSpec, txs: Seq<(Seq<u8>, RecognizedSpec)>) -> bool
    decreases txs.len(),
{
    txs.len() > 0 ==> {
        let (signature, r) = txs.last();
        &&& all_applied(s, txs.drop_last())
        &&& fold_of(
            all_folded(s, txs.drop_last()),
            signature,
            r,
            keyless_payers(r.settlements),
        ).1 is Applied
    }
}

/// Whether the book refuses no settlement of the transactions.
pub open spec fn none_refused(s: CertifiedSpec, txs: Seq<(Seq<u8>, RecognizedSpec)>) -> bool
    decreases txs.len(),
{
    txs.len() > 0 ==> {
        let r = txs.last().1;
        &&& none_refused(s, txs.drop_last())
        &&& refused(
            before_settlements(all_folded(s, txs.drop_last()), r),
            r.settlements,
        ) == 0
    }
}

/// Whether one of the transactions bears an escrow, and how.
pub open spec fn born_in(
    txs: Seq<(Seq<u8>, RecognizedSpec)>,
    escrow: Seq<u8>,
    b: BirthSpec,
) -> bool {
    exists|tx: (Seq<u8>, RecognizedSpec)| #[trigger]
        txs.contains(tx) && tx.1.births.contains((escrow, b))
}

/// Whether only keyless addresses are born.
pub open spec fn born_keyless(txs: Seq<(Seq<u8>, RecognizedSpec)>) -> bool {
    forall|e: Seq<u8>, b: BirthSpec| #[trigger] born_in(txs, e, b) ==> off_curve(e)
}

/// Whether no escrow is born in two ways, and none of another donor than it already
/// has.
pub open spec fn births_agree(s: CertifiedSpec, txs: Seq<(Seq<u8>, RecognizedSpec)>) -> bool {
    &&& forall|e: Seq<u8>, b: BirthSpec, c: BirthSpec|
        #![trigger born_in(txs, e, b), born_in(txs, e, c)]
        born_in(txs, e, b) && born_in(txs, e, c) ==> b == c
    &&& forall|e: Seq<u8>, b: BirthSpec| #[trigger]
        born_in(txs, e, b) && s.births.contains_key(e) ==> s.births[e].donor == b.donor
}

/// A state that knows every birth there will be: those there are and those of the
/// transactions.
spec fn foreseen(s: CertifiedSpec, txs: Seq<(Seq<u8>, RecognizedSpec)>) -> CertifiedSpec {
    CertifiedSpec {
        births: Map::new(
            |e: Seq<u8>| s.births.contains_key(e) || exists|b: BirthSpec| born_in(txs, e, b),
            |e: Seq<u8>|
                if s.births.contains_key(e) {
                    s.births[e]
                } else {
                    choose|b: BirthSpec| born_in(txs, e, b)
                },
        ),
        ..s
    }
}

/// Whether `t` knows every birth that `x` knows, with its donor.
spec fn knows(t: CertifiedSpec, x: CertifiedSpec) -> bool {
    forall|e: Seq<u8>| #[trigger]
        x.births.contains_key(e) ==> t.births.contains_key(e) && t.births[e].donor
            == x.births[e].donor
}

/// Whether `t` knows every birth of the transactions, with its donor.
spec fn knows_all(t: CertifiedSpec, txs: Seq<(Seq<u8>, RecognizedSpec)>) -> bool {
    forall|e: Seq<u8>, b: BirthSpec| #[trigger]
        born_in(txs, e, b) ==> t.births.contains_key(e) && t.births[e].donor == b.donor
}

/// The steps that record births.
spec fn bears(births: Seq<(Seq<u8>, BirthSpec)>) -> Seq<Step> {
    Seq::new(births.len(), |i: int| Step::Bear(births[i].0, births[i].1))
}

/// The steps that fold settlements in, attributed by the births that `t` knows.
spec fn settles_as(t: CertifiedSpec, settlements: Seq<SettledSpec>) -> Seq<Step> {
    Seq::new(settlements.len(), |i: int| Step::Settle(t.attributed(settlements[i])))
}

/// The steps of one transaction.
spec fn steps_in(t: CertifiedSpec, r: RecognizedSpec) -> Seq<Step> {
    bears(r.births) + settles_as(t, r.settlements)
}

/// The steps of transactions, one after the other.
spec fn steps_of(t: CertifiedSpec, txs: Seq<(Seq<u8>, RecognizedSpec)>) -> Seq<Step>
    decreases txs.len(),
{
    if txs.len() == 0 {
        Seq::empty()
    } else {
        steps_of(t, txs.drop_last()) + steps_in(t, txs.last().1)
    }
}

/// Steps after steps.
proof fn lemma_grown_on(s: CertifiedSpec, x: Seq<Step>, y: Seq<Step>)
    ensures
        grown(s, x + y) == grown(grown(s, x), y),
        all_fit(s, x + y) <==> all_fit(s, x) && all_fit(grown(s, x), y),
    decreases y.len(),
{
    if y.len() == 0 {
        assert(x + y =~= x);
    } else {
        assert((x + y).drop_last() =~= x + y.drop_last());
        assert((x + y).last() == y.last());
        lemma_grown_on(s, x, y.drop_last());
    }
}

/// What steps make of the book and the births depends on nothing else.
proof fn lemma_grown_alike(s: CertifiedSpec, t: CertifiedSpec, steps: Seq<Step>)
    requires
        s.book == t.book,
        s.births == t.births,
    ensures
        grown(s, steps).book == grown(t, steps).book,
        grown(s, steps).births == grown(t, steps).births,
        all_fit(s, steps) <==> all_fit(t, steps),
    decreases steps.len(),
{
    if steps.len() > 0 {
        lemma_grown_alike(s, t, steps.drop_last());
    }
}

/// Births are recorded step by step.
proof fn lemma_bears(s: CertifiedSpec, births: Seq<(Seq<u8>, BirthSpec)>)
    ensures
        grown(s, bears(births)) == with_births(s, births),
        all_fit(s, bears(births)),
    decreases births.len(),
{
    if births.len() > 0 {
        lemma_bears(s, births.drop_last());
        assert(bears(births).drop_last() =~= bears(births.drop_last()));
        assert(bears(births).last() == Step::Bear(births.last().0, births.last().1));
    }
}

/// Settlements are folded in step by step, where the births known so far attribute
/// them as those of `t` do.
proof fn lemma_settles_as(s: CertifiedSpec, t: CertifiedSpec, settlements: Seq<SettledSpec>)
    requires
        forall|i: int|
            0 <= i < settlements.len() ==> s.attributed(#[trigger] settlements[i])
                == t.attributed(settlements[i]),
    ensures
        refused(s, settlements) == 0 <==> all_fit(s, settles_as(t, settlements)),
        refused(s, settlements) == 0 ==> {
            &&& grown(s, settles_as(t, settlements)) == with_settlements(s, settlements)
            &&& with_settlements(s, settlements).anomalies == s.anomalies
        },
    decreases settlements.len(),
{
    if settlements.len() > 0 {
        let before = settlements.drop_last();
        assert forall|i: int| 0 <= i < before.len() implies s.attributed(#[trigger] before[i])
            == t.attributed(before[i]) by {
            assert(before[i] == settlements[i]);
        }
        lemma_settles_as(s, t, before);
        settlements_leave_the_births(s, before);
        let steps = settles_as(t, settlements);
        assert(steps.drop_last() =~= settles_as(t, before));
        assert(settlements[settlements.len() - 1] == settlements.last());
        assert(steps.last() == Step::Settle(s.attributed(settlements.last())));
    }
}

/// What is born before the last transaction or in it is born in all of them.
proof fn lemma_born_before(
    txs: Seq<(Seq<u8>, RecognizedSpec)>,
    escrow: Seq<u8>,
    b: BirthSpec,
)
    requires
        txs.len() > 0,
    ensures
        born_in(txs.drop_last(), escrow, b) ==> born_in(txs, escrow, b),
        txs.last().1.births.contains((escrow, b)) ==> born_in(txs, escrow, b),
{
    let before = txs.drop_last();
    if born_in(before, escrow, b) {
        let tx = choose|tx: (Seq<u8>, RecognizedSpec)| #[trigger]
            before.contains(tx) && tx.1.births.contains((escrow, b));
        let i = choose|i: int| 0 <= i < before.len() && before[i] == tx;
        assert(txs[i] == tx);
        assert(txs.contains(tx));
    }
    assert(txs[txs.len() - 1] == txs.last());
    assert(txs.contains(txs.last()));
}

/// Recording births that `t` knows leaves nothing that `t` does not know.
proof fn lemma_still_known(
    t: CertifiedSpec,
    x: CertifiedSpec,
    births: Seq<(Seq<u8>, BirthSpec)>,
)
    requires
        knows(t, x),
        forall|e: Seq<u8>, b: BirthSpec| #[trigger]
            births.contains((e, b)) ==> t.births.contains_key(e) && t.births[e].donor == b.donor,
    ensures
        knows(t, with_births(x, births)),
    decreases births.len(),
{
    if births.len() > 0 {
        let before = births.drop_last();
        assert forall|e: Seq<u8>, b: BirthSpec| #[trigger]
            before.contains((e, b)) implies t.births.contains_key(e) && t.births[e].donor
            == b.donor by {
            let i = choose|i: int| 0 <= i < before.len() && before[i] == (e, b);
            assert(births[i] == (e, b));
            assert(births.contains((e, b)));
        }
        lemma_still_known(t, x, before);
        assert(births[births.len() - 1] == births.last());
        assert(births.contains((births.last().0, births.last().1)));
    }
}

/// Where a transaction is folded in, the births known by then attribute its
/// settlements as those do that `t` knows.
proof fn lemma_attributed_as_foreseen(
    x: CertifiedSpec,
    t: CertifiedSpec,
    signature: Seq<u8>,
    r: RecognizedSpec,
)
    requires
        fold_of(x, signature, r, keyless_payers(r.settlements)).1 is Applied,
        knows(t, before_settlements(x, r)),
        births_keyless(t),
    ensures
        forall|i: int|
            0 <= i < r.settlements.len() ==> before_settlements(x, r).attributed(
                #[trigger] r.settlements[i],
            ) == t.attributed(r.settlements[i]),
{
    let ready = before_settlements(x, r);
    assert forall|i: int| 0 <= i < r.settlements.len() implies ready.attributed(
        #[trigger] r.settlements[i],
    ) == t.attributed(r.settlements[i]) by {
        let donor = r.settlements[i].donor;
        if off_curve(donor) {
            keyless_payers_are_attributed(
                x,
                signature,
                r,
                keyless_payers(r.settlements),
                i,
            );
            assert(ready.births.contains_key(donor));
        } else {
            assert(!t.births.contains_key(donor));
            assert(!ready.births.contains_key(donor));
        }
    }
}

/// What anomalies transactions bring together.
spec fn anomalies_in(txs: Seq<(Seq<u8>, RecognizedSpec)>) -> nat
    decreases txs.len(),
{
    if txs.len() == 0 {
        0
    } else {
        anomalies_in(txs.drop_last()) + txs.last().1.anomalies as nat
    }
}

/// Transactions that are folded in grow the book and the births by their steps,
/// and count the anomalies they bring.
proof fn lemma_folded_by_steps(
    s: CertifiedSpec,
    t: CertifiedSpec,
    txs: Seq<(Seq<u8>, RecognizedSpec)>,
)
    requires
        all_applied(s, txs),
        knows(t, s),
        knows_all(t, txs),
        births_keyless(t),
    ensures
        none_refused(s, txs) <==> all_fit(s, steps_of(t, txs)),
        none_refused(s, txs) ==> {
            &&& all_folded(s, txs).book == grown(s, steps_of(t, txs)).book
            &&& all_folded(s, txs).births == grown(s, steps_of(t, txs)).births
            &&& all_folded(s, txs).anomalies == capped(s.anomalies as nat + anomalies_in(txs))
        },
        knows(t, all_folded(s, txs)),
    decreases txs.len(),
{
    if txs.len() > 0 {
        let before = txs.drop_last();
        let (signature, r) = txs.last();
        assert(knows_all(t, before)) by {
            assert forall|e: Seq<u8>, b: BirthSpec| #[trigger]
                born_in(before, e, b) implies t.births.contains_key(e) && t.births[e].donor
                == b.donor by {
                lemma_born_before(txs, e, b);
            }
        }
        lemma_folded_by_steps(s, t, before);
        let x = all_folded(s, before);
        let counted = x.with_anomalies(r.anomalies);
        let ready = before_settlements(x, r);
        assert forall|e: Seq<u8>, b: BirthSpec| #[trigger]
            r.births.contains((e, b)) implies t.births.contains_key(e) && t.births[e].donor
            == b.donor by {
            lemma_born_before(txs, e, b);
            assert(born_in(txs, e, b));
        }
        lemma_still_known(t, counted, r.births);
        lemma_attributed_as_foreseen(x, t, signature, r);
        lemma_settles_as(ready, t, r.settlements);
        settlements_leave_the_births(ready, r.settlements);
        births_leave_the_book(counted, r.births);
        lemma_bears(counted, r.births);
        lemma_grown_on(counted, bears(r.births), settles_as(t, r.settlements));
        let steps = steps_of(t, before);
        lemma_grown_on(s, steps, steps_in(t, r));
        if none_refused(s, before) {
            lemma_grown_alike(counted, grown(s, steps), steps_in(t, r));
        }
    }
}

/// Taking a transaction out takes out its steps and its anomalies.
proof fn lemma_taken_out(
    t: CertifiedSpec,
    txs: Seq<(Seq<u8>, RecognizedSpec)>,
    i: int,
)
    requires
        0 <= i < txs.len(),
    ensures
        steps_of(t, txs).to_multiset() == steps_of(t, txs.remove(i)).to_multiset().add(
            steps_in(t, txs[i].1).to_multiset(),
        ),
        anomalies_in(txs) == anomalies_in(txs.remove(i)) + txs[i].1.anomalies,
    decreases txs.len(),
{
    lemma_multiset_commutative(steps_of(t, txs.drop_last()), steps_in(t, txs.last().1));
    if i == txs.len() - 1 {
        assert(txs.remove(i) =~= txs.drop_last());
    } else {
        let before = txs.drop_last();
        lemma_taken_out(t, before, i);
        assert(txs.remove(i).drop_last() =~= before.remove(i));
        assert(txs.remove(i).last() == txs.last());
        assert(before[i] == txs[i]);
        lemma_multiset_commutative(steps_of(t, before.remove(i)), steps_in(t, txs.last().1));
        assert(steps_of(t, txs).to_multiset() =~= steps_of(t, txs.remove(i)).to_multiset().add(
            steps_in(t, txs[i].1).to_multiset(),
        ));
    }
}

/// The same transactions in another order have the same steps and anomalies.
proof fn lemma_steps_permuted(
    t: CertifiedSpec,
    a: Seq<(Seq<u8>, RecognizedSpec)>,
    b: Seq<(Seq<u8>, RecognizedSpec)>,
)
    requires
        a.to_multiset() == b.to_multiset(),
    ensures
        steps_of(t, a).to_multiset() == steps_of(t, b).to_multiset(),
        anomalies_in(a) == anomalies_in(b),
    decreases a.len(),
{
    broadcast use group_to_multiset_ensures;

    assert(a.len() == a.to_multiset().len());
    assert(b.len() == b.to_multiset().len());
    if a.len() > 0 {
        let x = a.last();
        let n = a.len() - 1;
        assert(a[n] == x);
        assert(a.contains(x));
        assert(a.to_multiset().count(x) > 0);
        assert(b.contains(x));
        let j = choose|j: int| 0 <= j < b.len() && b[j] == x;
        assert(a.remove(n).to_multiset() =~= b.remove(j).to_multiset());
        lemma_steps_permuted(t, a.remove(n), b.remove(j));
        lemma_taken_out(t, a, n);
        lemma_taken_out(t, b, j);
    }
}

/// What the steps bear, a transaction bears.
proof fn lemma_born_by_steps(
    t: CertifiedSpec,
    txs: Seq<(Seq<u8>, RecognizedSpec)>,
    escrow: Seq<u8>,
    b: BirthSpec,
)
    requires
        steps_of(t, txs).contains(Step::Bear(escrow, b)),
    ensures
        born_in(txs, escrow, b),
    decreases txs.len(),
{
    let steps = steps_of(t, txs);
    let i = choose|i: int| 0 <= i < steps.len() && steps[i] == Step::Bear(escrow, b);
    let before = steps_of(t, txs.drop_last());
    let r = txs.last().1;
    lemma_born_before(txs, escrow, b);
    if i < before.len() {
        assert(before[i] == Step::Bear(escrow, b));
        assert(before.contains(Step::Bear(escrow, b)));
        lemma_born_by_steps(t, txs.drop_last(), escrow, b);
    } else {
        let k = i - before.len();
        assert(steps_in(t, r)[k] == Step::Bear(escrow, b));
        assert(k < r.births.len());
        assert(r.births[k] == (escrow, b));
        assert(r.births.contains((escrow, b)));
    }
}

/// Transactions that are folded in mark their signatures and no others.
proof fn lemma_marked(s: CertifiedSpec, txs: Seq<(Seq<u8>, RecognizedSpec)>, signature: Seq<u8>)
    requires
        all_applied(s, txs),
    ensures
        all_folded(s, txs).applied.contains(signature) <==> s.applied.contains(signature) || (
        signature.len() > 0 && exists|tx: (Seq<u8>, RecognizedSpec)| #[trigger]
            txs.contains(tx) && tx.0 == signature),
    decreases txs.len(),
{
    if txs.len() > 0 {
        let before = txs.drop_last();
        let (last, r) = txs.last();
        lemma_marked(s, before, signature);
        let x = all_folded(s, before);
        births_leave_the_book(x.with_anomalies(r.anomalies), r.births);
        settlements_leave_the_births(before_settlements(x, r), r.settlements);
        assert(txs[txs.len() - 1] == txs.last());
        assert(txs.contains(txs.last()));
        if exists|tx: (Seq<u8>, RecognizedSpec)| #[trigger]
            before.contains(tx) && tx.0 == signature {
            let tx = choose|tx: (Seq<u8>, RecognizedSpec)| #[trigger]
                before.contains(tx) && tx.0 == signature;
            let i = choose|i: int| 0 <= i < before.len() && before[i] == tx;
            assert(txs[i] == tx);
            assert(txs.contains(tx));
        }
        if exists|tx: (Seq<u8>, RecognizedSpec)| #[trigger]
            txs.contains(tx) && tx.0 == signature {
            let tx = choose|tx: (Seq<u8>, RecognizedSpec)| #[trigger]
                txs.contains(tx) && tx.0 == signature;
            let i = choose|i: int| 0 <= i < txs.len() && txs[i] == tx;
            if i < before.len() {
                assert(before[i] == tx);
                assert(before.contains(tx));
            }
        }
    }
}

/// Folding the same transactions in another order restores the state: the same
/// book, the same births, the same signatures and the same count of anomalies, and
/// where no settlement is refused in one order, none is in the other. Each
/// transaction is folded in, in both orders: a birth comes before the settlements
/// of its escrow. An escrow that is born in two ways keeps the last, so such
/// transactions are left out.
pub proof fn folds_do_not_depend_on_the_order(
    s: CertifiedSpec,
    a: Seq<(Seq<u8>, RecognizedSpec)>,
    b: Seq<(Seq<u8>, RecognizedSpec)>,
)
    requires
        a.to_multiset() == b.to_multiset(),
        births_keyless(s),
        born_keyless(a),
        births_agree(s, a),
        all_applied(s, a),
        all_applied(s, b),
        none_refused(s, a),
    ensures
        none_refused(s, b),
        all_folded(s, a).book == all_folded(s, b).book,
        all_folded(s, a).births == all_folded(s, b).births,
        all_folded(s, a).applied == all_folded(s, b).applied,
        all_folded(s, a).anomalies == all_folded(s, b).anomalies,
{
    let t = foreseen(s, a);
    assert forall|tx: (Seq<u8>, RecognizedSpec)| a.contains(tx) <==> #[trigger] b.contains(tx) by {
        broadcast use group_to_multiset_ensures;

        assert(a.contains(tx) <==> a.to_multiset().count(tx) > 0);
        assert(b.contains(tx) <==> b.to_multiset().count(tx) > 0);
    }
    assert forall|e: Seq<u8>, x: BirthSpec| born_in(b, e, x) implies #[trigger] born_in(
        a,
        e,
        x,
    ) by {
        let tx = choose|tx: (Seq<u8>, RecognizedSpec)| #[trigger]
            b.contains(tx) && tx.1.births.contains((e, x));
        assert(a.contains(tx));
    }
    assert(knows_all(t, a)) by {
        assert forall|e: Seq<u8>, x: BirthSpec| #[trigger]
            born_in(a, e, x) implies t.births.contains_key(e) && t.births[e].donor == x.donor by {
            if !s.births.contains_key(e) {
                let y = choose|y: BirthSpec| born_in(a, e, y);
                assert(born_in(a, e, y));
            }
        }
    }
    assert(knows_all(t, b)) by {
        assert forall|e: Seq<u8>, x: BirthSpec| #[trigger]
            born_in(b, e, x) implies t.births.contains_key(e) && t.births[e].donor == x.donor by {
            assert(born_in(a, e, x));
        }
    }
    assert(births_keyless(t)) by {
        assert forall|e: Seq<u8>| #[trigger] t.births.contains_key(e) implies off_curve(e) by {
            if !s.births.contains_key(e) {
                let y = choose|y: BirthSpec| born_in(a, e, y);
                assert(born_in(a, e, y));
            }
        }
    }
    lemma_folded_by_steps(s, t, a);
    lemma_folded_by_steps(s, t, b);
    lemma_steps_permuted(t, a, b);
    assert(born_one_way(steps_of(t, a))) by {
        let steps = steps_of(t, a);
        assert forall|e: Seq<u8>, x: BirthSpec, y: BirthSpec|
            steps.contains(Step::Bear(e, x)) && steps.contains(Step::Bear(e, y)) implies x
            == y by {
            lemma_born_by_steps(t, a, e, x);
            lemma_born_by_steps(t, a, e, y);
        }
    }
    contents_do_not_depend_on_the_order(s, steps_of(t, a), steps_of(t, b));
    assert forall|signature: Seq<u8>| #[trigger]
        all_folded(s, a).applied.contains(signature) <==> all_folded(s, b).applied.contains(
            signature,
        ) by {
        lemma_marked(s, a, signature);
        lemma_marked(s, b, signature);
        if exists|tx: (Seq<u8>, RecognizedSpec)| #[trigger] a.contains(tx) && tx.0 == signature {
            let tx = choose|tx: (Seq<u8>, RecognizedSpec)| #[trigger]
                a.contains(tx) && tx.0 == signature;
            assert(b.contains(tx));
        }
        if exists|tx: (Seq<u8>, RecognizedSpec)| #[trigger] b.contains(tx) && tx.0 == signature {
            let tx = choose|tx: (Seq<u8>, RecognizedSpec)| #[trigger]
                b.contains(tx) && tx.0 == signature;
            assert(a.contains(tx));
        }
    }
    assert(all_folded(s, a).applied =~= all_folded(s, b).applied);
}

} // verus!
