//! The mathematical model: net balances, debt effects, and the sums the
//! contracts and proofs are stated over.

use crate::types::{Debt, Person, Transaction};
use vstd::prelude::*;

verus! {

/// Sum of the amounts in a list of (participant, amount) pairs.
pub open spec fn amount_total(s: Seq<(Person, i64)>) -> int
    decreases s.len(),
{
    if s.len() == 0 {
        0
    } else {
        amount_total(s.drop_last()) + s.last().1 as int
    }
}

/// Sum of the absolute values of the amounts in a list of pairs.
pub open spec fn abs_total(s: Seq<(Person, i64)>) -> int
    decreases s.len(),
{
    if s.len() == 0 {
        0
    } else {
        abs_total(s.drop_last()) + vstd::math::abs(s.last().1 as int)
    }
}

/// The summed amount attributed to participant `q` by the pairs in `s`.
pub open spec fn person_total(s: Seq<(Person, i64)>, q: Person) -> int
    decreases s.len(),
{
    if s.len() == 0 {
        0
    } else {
        person_total(s.drop_last(), q) + if s.last().0 == q {
            s.last().1 as int
        } else {
            0
        }
    }
}

/// Whether some pair in `s` names participant `q`.
pub open spec fn has_person(s: Seq<(Person, i64)>, q: Person) -> bool {
    exists|i: int| 0 <= i < s.len() && s[i].0 == q
}

/// Whether no participant appears in two pairs of `s`.
pub open spec fn distinct_persons(s: Seq<(Person, i64)>) -> bool {
    forall|i: int, j: int| 0 <= i < j < s.len() ==> s[i].0 != s[j].0
}

/// What transaction `t` contributes to the net balance of `q`:
/// the whole split total if `q` paid, minus `q`'s own share.
pub open spec fn txn_net(t: Transaction, q: Person) -> int {
    (if t.paid_by == q {
        amount_total(t.split_by@)
    } else {
        0
    }) - person_total(t.split_by@, q)
}

/// The net balance of `q` after all transactions in `ts`:
/// positive means `q` is owed money, negative means `q` owes.
pub open spec fn balance_of(ts: Seq<Transaction>, q: Person) -> int
    decreases ts.len(),
{
    if ts.len() == 0 {
        0
    } else {
        balance_of(ts.drop_last(), q) + txn_net(ts.last(), q)
    }
}

/// Sum over all transactions of the absolute values of all shares;
/// every balance that ever arises is bounded by twice this sum.
pub open spec fn total_abs(ts: Seq<Transaction>) -> int
    decreases ts.len(),
{
    if ts.len() == 0 {
        0
    } else {
        total_abs(ts.drop_last()) + abs_total(ts.last().split_by@)
    }
}

/// What applying debt `d` adds to the balance of `q`: the debtor's
/// balance rises by the amount paid, the creditor's falls by it.
pub open spec fn debt_effect(d: Debt, q: Person) -> int {
    (if d.owing == q {
        d.amount as int
    } else {
        0
    }) - (if d.owed == q {
        d.amount as int
    } else {
        0
    })
}

/// What applying every debt in `ds` adds to the balance of `q`.
pub open spec fn debts_effect(ds: Seq<Debt>, q: Person) -> int
    decreases ds.len(),
{
    if ds.len() == 0 {
        0
    } else {
        debts_effect(ds.drop_last(), q) + debt_effect(ds.last(), q)
    }
}

/// Whether `q` appears in transaction `t`, as payer or in the split.
pub open spec fn participant_of(t: Transaction, q: Person) -> bool {
    t.paid_by == q || exists|j: int| 0 <= j < t.split_by@.len() && t.split_by@[j].0 == q
}

/// Whether `q` appears anywhere in the transactions `ts`.
pub open spec fn is_participant(ts: Seq<Transaction>, q: Person) -> bool {
    exists|i: int| 0 <= i < ts.len() && participant_of(ts[i], q)
}

/// The participants whose net balance after `ts` is not zero.
pub open spec fn nonzero_persons(ts: Seq<Transaction>) -> Set<Person> {
    Set::new(|q: Person| balance_of(ts, q) != 0)
}

/// The participants of the pairs in `s`, in order.
pub open spec fn persons_of(s: Seq<(Person, i64)>) -> Seq<Person> {
    s.map_values(|e: (Person, i64)| e.0)
}

/// Sum of the net balances (after `ts`) of the participants listed in `ps`.
pub open spec fn balance_sum(ts: Seq<Transaction>, ps: Seq<Person>) -> int
    decreases ps.len(),
{
    if ps.len() == 0 {
        0
    } else {
        balance_sum(ts, ps.drop_last()) + balance_of(ts, ps.last())
    }
}

/// Sum of what transaction `t` contributes to each participant in `ps`.
pub open spec fn txn_net_sum(t: Transaction, ps: Seq<Person>) -> int
    decreases ps.len(),
{
    if ps.len() == 0 {
        0
    } else {
        txn_net_sum(t, ps.drop_last()) + txn_net(t, ps.last())
    }
}

/// Sum over `ps` of `v` at `q` and `0` elsewhere.
pub open spec fn ind_sum(ps: Seq<Person>, q: Person, v: int) -> int
    decreases ps.len(),
{
    if ps.len() == 0 {
        0
    } else {
        ind_sum(ps.drop_last(), q, v) + if ps.last() == q {
            v
        } else {
            0
        }
    }
}

/// Sum over `ps` of each participant's total in the pairs `s`.
pub open spec fn person_sum(ps: Seq<Person>, s: Seq<(Person, i64)>) -> int
    decreases ps.len(),
{
    if ps.len() == 0 {
        0
    } else {
        person_sum(ps.drop_last(), s) + person_total(s, ps.last())
    }
}

/// Removing the pair at `i` lowers the amount sum by that pair's amount.
pub proof fn lemma_amount_total_remove(s: Seq<(Person, i64)>, i: int)
    requires
        0 <= i < s.len(),
    ensures
        amount_total(s.remove(i)) == amount_total(s) - s[i].1,
    decreases s.len(),
{
    if i == s.len() - 1 {
        assert(s.remove(i) =~= s.drop_last());
    } else {
        assert(s.remove(i).drop_last() =~= s.drop_last().remove(i));
        assert(s.remove(i).last() == s.last());
        lemma_amount_total_remove(s.drop_last(), i);
    }
}

/// Removing the pair at `i` lowers the absolute sum by that pair's magnitude.
pub proof fn lemma_abs_total_remove(s: Seq<(Person, i64)>, i: int)
    requires
        0 <= i < s.len(),
    ensures
        abs_total(s.remove(i)) == abs_total(s) - vstd::math::abs(s[i].1 as int),
    decreases s.len(),
{
    if i == s.len() - 1 {
        assert(s.remove(i) =~= s.drop_last());
    } else {
        assert(s.remove(i).drop_last() =~= s.drop_last().remove(i));
        assert(s.remove(i).last() == s.last());
        lemma_abs_total_remove(s.drop_last(), i);
    }
}

/// Removing the pair at `i` changes `q`'s total by that pair's amount
/// exactly when the pair names `q`.
pub proof fn lemma_person_total_remove(s: Seq<(Person, i64)>, i: int, q: Person)
    requires
        0 <= i < s.len(),
    ensures
        person_total(s.remove(i), q) == person_total(s, q) - if s[i].0 == q {
            s[i].1 as int
        } else {
            0
        },
    decreases s.len(),
{
    if i == s.len() - 1 {
        assert(s.remove(i) =~= s.drop_last());
    } else {
        assert(s.remove(i).drop_last() =~= s.drop_last().remove(i));
        assert(s.remove(i).last() == s.last());
        lemma_person_total_remove(s.drop_last(), i, q);
    }
}

/// A participant named by no pair has total zero.
pub proof fn lemma_person_total_absent(s: Seq<(Person, i64)>, q: Person)
    requires
        !has_person(s, q),
    ensures
        person_total(s, q) == 0,
    decreases s.len(),
{
    if s.len() > 0 {
        assert(!has_person(s.drop_last(), q)) by {
            if has_person(s.drop_last(), q) {
                let i = choose|i: int| 0 <= i < s.drop_last().len() && s.drop_last()[i].0 == q;
                assert(s[i].0 == q);
            }
        }
        assert(s.last().0 != q) by {
            if s.last().0 == q {
                assert(s[s.len() - 1].0 == q);
            }
        }
        lemma_person_total_absent(s.drop_last(), q);
    }
}

/// When no participant repeats, `q`'s total is the amount of `q`'s one pair.
pub proof fn lemma_person_total_at(s: Seq<(Person, i64)>, i: int)
    requires
        distinct_persons(s),
        0 <= i < s.len(),
    ensures
        person_total(s, s[i].0) == s[i].1 as int,
{
    lemma_person_total_remove(s, i, s[i].0);
    assert(!has_person(s.remove(i), s[i].0)) by {
        if has_person(s.remove(i), s[i].0) {
            let j = choose|j: int| 0 <= j < s.remove(i).len() && s.remove(i)[j].0 == s[i].0;
            s.remove_ensures(i);
            if j < i {
                assert(s[j].0 == s[i].0);
            } else {
                assert(s[j + 1].0 == s[i].0);
            }
        }
    }
    lemma_person_total_absent(s.remove(i), s[i].0);
}

/// All amounts positive makes the amount sum positive.
pub proof fn lemma_amount_total_pos(s: Seq<(Person, i64)>)
    requires
        s.len() > 0,
        forall|i: int| 0 <= i < s.len() ==> s[i].1 > 0,
    ensures
        amount_total(s) > 0,
    decreases s.len(),
{
    assert(s[s.len() - 1].1 > 0);
    if s.len() == 1 {
        assert(s.drop_last() =~= Seq::<(Person, i64)>::empty());
        assert(amount_total(Seq::<(Person, i64)>::empty()) == 0);
    }
    if s.len() > 1 {
        assert(forall|i: int|
            0 <= i < s.drop_last().len() ==> #[trigger] s.drop_last()[i].1 == s[i].1);
        lemma_amount_total_pos(s.drop_last());
    }
}

/// All amounts negative makes the amount sum negative.
pub proof fn lemma_amount_total_neg(s: Seq<(Person, i64)>)
    requires
        s.len() > 0,
        forall|i: int| 0 <= i < s.len() ==> s[i].1 < 0,
    ensures
        amount_total(s) < 0,
    decreases s.len(),
{
    assert(s[s.len() - 1].1 < 0);
    if s.len() == 1 {
        assert(s.drop_last() =~= Seq::<(Person, i64)>::empty());
        assert(amount_total(Seq::<(Person, i64)>::empty()) == 0);
    }
    if s.len() > 1 {
        assert(forall|i: int|
            0 <= i < s.drop_last().len() ==> #[trigger] s.drop_last()[i].1 == s[i].1);
        lemma_amount_total_neg(s.drop_last());
    }
}

/// The absolute sum is never negative.
pub proof fn lemma_abs_total_nonneg(s: Seq<(Person, i64)>)
    ensures
        abs_total(s) >= 0,
    decreases s.len(),
{
    if s.len() > 0 {
        lemma_abs_total_nonneg(s.drop_last());
    }
}

/// Each single amount is bounded by the absolute sum.
pub proof fn lemma_entry_abs(s: Seq<(Person, i64)>, i: int)
    requires
        0 <= i < s.len(),
    ensures
        vstd::math::abs(s[i].1 as int) <= abs_total(s),
{
    lemma_abs_total_remove(s, i);
    lemma_abs_total_nonneg(s.remove(i));
}

/// A prefix never exceeds the whole absolute sum.
pub proof fn lemma_abs_total_take(s: Seq<(Person, i64)>, j: int)
    requires
        0 <= j <= s.len(),
    ensures
        abs_total(s.take(j)) <= abs_total(s),
    decreases s.len(),
{
    if j == s.len() {
        assert(s.take(j) =~= s);
    } else {
        assert(s.take(j) =~= s.drop_last().take(j));
        lemma_abs_total_take(s.drop_last(), j);
    }
}

/// The amount sum is bounded by the absolute sum.
pub proof fn lemma_amount_total_abs(s: Seq<(Person, i64)>)
    ensures
        vstd::math::abs(amount_total(s)) <= abs_total(s),
    decreases s.len(),
{
    if s.len() > 0 {
        lemma_amount_total_abs(s.drop_last());
    }
}

/// Each participant's total is bounded by the absolute sum.
pub proof fn lemma_person_total_abs(s: Seq<(Person, i64)>, q: Person)
    ensures
        vstd::math::abs(person_total(s, q)) <= abs_total(s),
    decreases s.len(),
{
    if s.len() > 0 {
        lemma_person_total_abs(s.drop_last(), q);
    }
}

/// The per-transaction absolute sums are never negative.
pub proof fn lemma_total_abs_nonneg(ts: Seq<Transaction>)
    ensures
        total_abs(ts) >= 0,
    decreases ts.len(),
{
    if ts.len() > 0 {
        lemma_total_abs_nonneg(ts.drop_last());
        lemma_abs_total_nonneg(ts.last().split_by@);
    }
}

/// A prefix of the transactions never exceeds the whole absolute sum.
pub proof fn lemma_total_abs_take(ts: Seq<Transaction>, k: int)
    requires
        0 <= k <= ts.len(),
    ensures
        total_abs(ts.take(k)) <= total_abs(ts),
    decreases ts.len(),
{
    if k == ts.len() {
        assert(ts.take(k) =~= ts);
    } else {
        assert(ts.take(k) =~= ts.drop_last().take(k));
        lemma_total_abs_take(ts.drop_last(), k);
        lemma_abs_total_nonneg(ts.last().split_by@);
    }
}

/// No net balance can exceed twice the sum of all share magnitudes.
pub proof fn lemma_balance_of_abs(ts: Seq<Transaction>, q: Person)
    ensures
        vstd::math::abs(balance_of(ts, q)) <= 2 * total_abs(ts),
    decreases ts.len(),
{
    if ts.len() > 0 {
        lemma_balance_of_abs(ts.drop_last(), q);
        lemma_amount_total_abs(ts.last().split_by@);
        lemma_person_total_abs(ts.last().split_by@, q);
    }
}

/// Appending a pair for a new participant keeps the pairs duplicate-free
/// and moves every sum by exactly that pair.
pub proof fn lemma_push_person(s: Seq<(Person, i64)>, e: (Person, i64))
    requires
        distinct_persons(s),
        !has_person(s, e.0),
    ensures
        distinct_persons(s.push(e)),
        forall|q: Person| has_person(s.push(e), q) <==> has_person(s, q) || q == e.0,
        forall|q: Person|
            person_total(s.push(e), q) == person_total(s, q) + if e.0 == q {
                e.1 as int
            } else {
                0
            },
        amount_total(s.push(e)) == amount_total(s) + e.1,
{
    let t = s.push(e);
    assert(t.drop_last() =~= s);
    assert(t.last() == e);
    assert forall|a: int, b: int| 0 <= a < b < t.len() implies t[a].0 != t[b].0 by {
        if b == t.len() - 1 {
            assert(t[a] == s[a]);
            if s[a].0 == e.0 {
                assert(has_person(s, e.0));
            }
        } else {
            assert(t[a] == s[a] && t[b] == s[b]);
        }
    }
    assert forall|q: Person| has_person(t, q) <==> has_person(s, q) || q == e.0 by {
        if has_person(t, q) {
            let j = choose|j: int| 0 <= j < t.len() && t[j].0 == q;
            if j < t.len() - 1 {
                assert(s[j].0 == q);
            }
        }
        if has_person(s, q) {
            let j = choose|j: int| 0 <= j < s.len() && s[j].0 == q;
            assert(t[j].0 == q);
        }
        if q == e.0 {
            assert(t[t.len() - 1].0 == q);
        }
    }
}

/// The order in which settlement visits balances: by amount, and by
/// participant id among equal amounts (the deterministic tie-break).
pub open spec fn key_lt(x: (Person, i64), y: (Person, i64)) -> bool {
    x.1 < y.1 || (x.1 == y.1 && (x.0).0 < (y.0).0)
}

/// Whether `s` is strictly ascending in the settlement order.
pub open spec fn sorted_by_key(s: Seq<(Person, i64)>) -> bool {
    forall|i: int, j: int| 0 <= i < j < s.len() ==> key_lt(s[i], s[j])
}

} // verus!
