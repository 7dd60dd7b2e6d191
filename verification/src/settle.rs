//! The two phases of settlement: netting balances from the transactions,
//! and greedily matching extreme balances into a short list of debts.

use crate::laws::{lemma_net_balances_sum_zero, lemma_nonzero_persons_card};
use crate::model::{
    abs_total, amount_total, balance_of, distinct_persons, has_person, is_participant, key_lt,
    lemma_abs_total_nonneg, lemma_abs_total_take, lemma_amount_total_abs, lemma_balance_of_abs,
    lemma_entry_abs, lemma_person_total_abs, lemma_person_total_absent, lemma_person_total_at,
    lemma_person_total_remove, lemma_push_person, lemma_total_abs_nonneg, lemma_total_abs_take,
    debts_effect, nonzero_persons, participant_of, person_total, sorted_by_key, total_abs,
};
use crate::types::{Debt, Person, Transaction};
use vstd::prelude::*;

verus! {

/// Adds `delta` to `p`'s running balance, creating the entry if absent.
#[verifier::loop_isolation(false)]
fn add_to(acc: &mut Vec<(Person, i64)>, p: Person, delta: i64)
    requires
        distinct_persons(old(acc)@),
        -(i64::MAX as int) <= person_total(old(acc)@, p) + delta as int,
        person_total(old(acc)@, p) + delta as int <= i64::MAX as int,
    ensures
        distinct_persons(final(acc)@),
        forall|q: Person|
            person_total(final(acc)@, q) == person_total(old(acc)@, q) + if q == p {
                delta as int
            } else {
                0
            },
        forall|q: Person| has_person(final(acc)@, q) <==> has_person(old(acc)@, q) || q == p,
{
    let n: usize = acc.len();
    let mut i: usize = 0;
    while i < n
        invariant
            acc@ == old(acc)@,
            n == acc@.len(),
            0 <= i <= n,
            forall|j: int| 0 <= j < i ==> acc@[j].0 != p,
        decreases n - i,
    {
        if acc[i].0 == p {
            proof {
                lemma_person_total_at(acc@, i as int);
            }
            let e = acc.remove(i);
            let ghost mid = acc@;
            proof {
                old(acc)@.remove_ensures(i as int);
                assert forall|q: Person|
                    person_total(mid, q) == person_total(old(acc)@, q) - if q == p {
                        e.1 as int
                    } else {
                        0
                    } by {
                    lemma_person_total_remove(old(acc)@, i as int, q);
                }
                assert(distinct_persons(mid)) by {
                    assert forall|a: int, b: int| 0 <= a < b < mid.len() implies mid[a].0
                        != mid[b].0 by {
                        let a0 = if a < i { a } else { a + 1 };
                        let b0 = if b < i { b } else { b + 1 };
                        assert(mid[a] == old(acc)@[a0] && mid[b] == old(acc)@[b0]);
                    }
                }
                assert(!has_person(mid, p)) by {
                    if has_person(mid, p) {
                        let j = choose|j: int| 0 <= j < mid.len() && mid[j].0 == p;
                        let j0 = if j < i { j } else { j + 1 };
                        assert(old(acc)@[j0].0 == p && old(acc)@[i as int].0 == p);
                    }
                }
            }
            let v: i64 = e.1 + delta;
            acc.push((p, v));
            proof {
                assert(mid.push((p, v)).drop_last() =~= mid);
                assert(acc@.drop_last() == mid);
                assert(acc@.last() == (p, v));
                assert forall|q: Person|
                    person_total(acc@, q) == person_total(mid, q) + if q == p {
                        v as int
                    } else {
                        0
                    } by {
                    assert(person_total(acc@, q) == person_total(acc@.drop_last(), q)
                        + if acc@.last().0 == q {
                        acc@.last().1 as int
                    } else {
                        0
                    });
                }
                assert forall|a: int, b: int|
                    0 <= a < b < acc@.len() implies acc@[a].0 != acc@[b].0 by {
                    if b < acc@.len() - 1 {
                        assert(acc@[a] == mid[a] && acc@[b] == mid[b]);
                    } else {
                        assert(acc@[a] == mid[a]);
                        assert(mid[a].0 != p) by {
                            if mid[a].0 == p {
                                assert(has_person(mid, p));
                            }
                        }
                    }
                }
                assert forall|q: Person| has_person(acc@, q) <==> has_person(old(acc)@, q) || q
                    == p by {
                    if has_person(acc@, q) {
                        let j = choose|j: int| 0 <= j < acc@.len() && acc@[j].0 == q;
                        if j < acc@.len() - 1 {
                            let j0 = if j < i { j } else { j + 1 };
                            assert(old(acc)@[j0].0 == q);
                        }
                    }
                    if has_person(old(acc)@, q) || q == p {
                        if q == p {
                            assert(acc@[acc@.len() - 1].0 == q);
                        } else {
                            let j0 = choose|j0: int|
                                0 <= j0 < old(acc)@.len() && old(acc)@[j0].0 == q;
                            let j = if j0 < i {
                                j0
                            } else {
                                j0 - 1
                            };
                            assert(acc@[j].0 == q);
                        }
                    }
                }
            }
            return;
        }
        i += 1;
    }
    proof {
        assert(!has_person(acc@, p));
        lemma_person_total_absent(acc@, p);
    }
    let ghost pre = acc@;
    acc.push((p, delta));
    proof {
        assert(pre.push((p, delta)).drop_last() =~= pre);
        assert forall|a: int, b: int| 0 <= a < b < acc@.len() implies acc@[a].0 != acc@[b].0 by {
            if b == acc@.len() - 1 {
                assert(acc@[a] == pre[a]);
                assert(pre[a].0 != p) by {
                    if pre[a].0 == p {
                        assert(has_person(pre, p));
                    }
                }
            }
        }
        assert(forall|q: Person|
            person_total(acc@, q) == person_total(old(acc)@, q) + if q == p {
                delta as int
            } else {
                0
            });
        assert forall|q: Person| has_person(acc@, q) <==> has_person(pre, q) || q == p by {
            if has_person(acc@, q) {
                let j = choose|j: int| 0 <= j < acc@.len() && acc@[j].0 == q;
                if j < acc@.len() - 1 {
                    assert(pre[j].0 == q);
                }
            }
            if has_person(pre, q) {
                let j = choose|j: int| 0 <= j < pre.len() && pre[j].0 == q;
                assert(acc@[j].0 == q);
            }
            if q == p {
                assert(acc@[acc@.len() - 1].0 == q);
            }
        }
    }
}

/// Phase one, balance aggregation: nets every transaction into one signed
/// balance per participant and drops the participants who end at zero.
/// The returned pairs list each remaining participant once; their balances
/// are the net balances of the transactions, and they sum to zero.
#[verifier::loop_isolation(false)]
pub fn net_balances(transactions: &Vec<Transaction>) -> (bal: Vec<(Person, i64)>)
    requires
        2 * total_abs(transactions@) <= i64::MAX as int,
    ensures
        distinct_persons(bal@),
        forall|j: int| 0 <= j < bal@.len() ==> bal@[j].1 != 0,
        forall|q: Person| person_total(bal@, q) == balance_of(transactions@, q),
        amount_total(bal@) == 0,
{
    let ghost ts = transactions@;
    let mut acc: Vec<(Person, i64)> = Vec::new();
    let mut k: usize = 0;
    proof {
        assert(ts.take(0) =~= Seq::<Transaction>::empty());
    }
    while k < transactions.len()
        invariant
            0 <= k <= ts.len(),
            distinct_persons(acc@),
            forall|q: Person| person_total(acc@, q) == balance_of(ts.take(k as int), q),
            forall|q: Person| is_participant(ts.take(k as int), q) ==> has_person(acc@, q),
        decreases ts.len() - k,
    {
        let t = &transactions[k];
        let ghost split = ts[k as int].split_by@;
        let ghost ki = k as int;
        proof {
            assert(t.split_by@ == split);
            assert(split.take(0) =~= Seq::<(Person, i64)>::empty());
            assert(ts.take(ki + 1).drop_last() =~= ts.take(ki));
            assert(ts.take(ki + 1).last() == ts[ki]);
            lemma_total_abs_take(ts, ki + 1);
            lemma_total_abs_nonneg(ts.take(ki));
            lemma_abs_total_nonneg(split);
        }
        let mut total: i64 = 0;
        let mut j: usize = 0;
        while j < t.split_by.len()
            invariant
                0 <= j <= split.len(),
                total as int == amount_total(split.take(j as int)),
            decreases split.len() - j,
        {
            let a: i64 = t.split_by[j].1;
            proof {
                let ji = j as int;
                assert(split.take(ji + 1).drop_last() =~= split.take(ji));
                assert(split.take(ji + 1).last() == split[ji]);
                lemma_amount_total_abs(split.take(ji));
                lemma_abs_total_take(split, ji + 1);
            }
            total = total + a;
            j += 1;
        }
        proof {
            assert(split.take(split.len() as int) =~= split);
            lemma_balance_of_abs(ts.take(ki), ts[ki].paid_by);
            lemma_amount_total_abs(split);
        }
        let pb = t.paid_by;
        add_to(&mut acc, pb, total);
        let mut j: usize = 0;
        while j < t.split_by.len()
            invariant
                0 <= j <= split.len(),
                distinct_persons(acc@),
                forall|q: Person|
                    person_total(acc@, q) == balance_of(ts.take(ki), q) + (if ts[ki].paid_by == q {
                        amount_total(split)
                    } else {
                        0
                    }) - person_total(split.take(j as int), q),
                forall|q: Person|
                    (is_participant(ts.take(ki), q) || ts[ki].paid_by == q || exists|jj: int|
                        0 <= jj < j && split[jj].0 == q) ==> has_person(acc@, q),
            decreases split.len() - j,
        {
            let share = t.split_by[j];
            let ghost ji = j as int;
            proof {
                assert(share == split[ji]);
                assert(split.take(ji + 1).drop_last() =~= split.take(ji));
                assert(split.take(ji + 1).last() == split[ji]);
                lemma_entry_abs(split, ji);
                lemma_abs_total_take(split, ji + 1);
                lemma_balance_of_abs(ts.take(ki), share.0);
                lemma_person_total_abs(split.take(ji), share.0);
                lemma_amount_total_abs(split);
            }
            let neg: i64 = -share.1;
            add_to(&mut acc, share.0, neg);
            proof {
                assert forall|q: Person|
                    person_total(acc@, q) == balance_of(ts.take(ki), q) + (if ts[ki].paid_by == q {
                        amount_total(split)
                    } else {
                        0
                    }) - person_total(split.take(ji + 1), q) by {
                    assert(person_total(split.take(ji + 1), q) == person_total(split.take(ji), q)
                        + if split[ji].0 == q {
                        split[ji].1 as int
                    } else {
                        0
                    });
                }
                assert forall|q: Person|
                    (is_participant(ts.take(ki), q) || ts[ki].paid_by == q || exists|jj: int|
                        0 <= jj < j + 1 && split[jj].0 == q) implies has_person(acc@, q) by {
                    if exists|jj: int| 0 <= jj < j + 1 && split[jj].0 == q {
                        let jj = choose|jj: int| 0 <= jj < j + 1 && split[jj].0 == q;
                        if jj < ji {
                            assert(exists|jx: int| 0 <= jx < j && split[jx].0 == q);
                        }
                    }
                }
            }
            j += 1;
        }
        proof {
            assert(split.take(split.len() as int) =~= split);
            assert forall|q: Person|
                person_total(acc@, q) == balance_of(ts.take(ki + 1), q) by {
                assert(balance_of(ts.take(ki + 1), q) == balance_of(ts.take(ki), q)
                    + crate::model::txn_net(ts[ki], q));
            }
            assert forall|q: Person|
                is_participant(ts.take(ki + 1), q) implies has_person(acc@, q) by {
                let i = choose|i: int|
                    0 <= i < ts.take(ki + 1).len() && #[trigger] participant_of(
                        ts.take(ki + 1)[i],
                        q,
                    );
                if i < ki {
                    assert(is_participant(ts.take(ki), q)) by {
                        assert(participant_of(ts.take(ki)[i], q));
                    }
                } else {
                    assert(participant_of(ts[ki], q));
                    if ts[ki].paid_by != q {
                        let jj = choose|jj: int| 0 <= jj < split.len() && split[jj].0 == q;
                        assert(exists|jx: int| 0 <= jx < split.len() && split[jx].0 == q);
                    }
                }
            }
        }
        k += 1;
    }
    proof {
        assert(ts.take(ts.len() as int) =~= ts);
        lemma_net_balances_sum_zero(acc@, ts);
        assert(acc@.take(0) =~= Seq::<(Person, i64)>::empty());
    }
    let mut bal: Vec<(Person, i64)> = Vec::new();
    let mut i: usize = 0;
    while i < acc.len()
        invariant
            0 <= i <= acc@.len(),
            distinct_persons(bal@),
            forall|j: int| 0 <= j < bal@.len() ==> bal@[j].1 != 0,
            forall|q: Person| person_total(bal@, q) == person_total(acc@.take(i as int), q),
            amount_total(bal@) == amount_total(acc@.take(i as int)),
            forall|q: Person| #[trigger] has_person(bal@, q) ==> has_person(acc@.take(i as int), q),
        decreases acc@.len() - i,
    {
        let e = acc[i];
        let ghost ii = i as int;
        proof {
            assert(acc@.take(ii + 1).drop_last() =~= acc@.take(ii));
            assert(acc@.take(ii + 1).last() == acc@[ii]);
        }
        if e.1 != 0 {
            proof {
                assert(!has_person(bal@, e.0)) by {
                    if has_person(bal@, e.0) {
                        let jj = choose|jj: int|
                            0 <= jj < acc@.take(ii).len() && acc@.take(ii)[jj].0 == e.0;
                        assert(acc@[jj].0 == acc@[ii].0);
                    }
                }
                lemma_push_person(bal@, e);
            }
            let ghost pre = bal@;
            bal.push(e);
            proof {
                assert(bal@ == pre.push(e));
                assert forall|q: Person| has_person(bal@, q) implies has_person(
                    acc@.take(ii + 1),
                    q,
                ) by {
                    if q == e.0 {
                        assert(acc@.take(ii + 1)[ii] == acc@[ii]);
                        assert(acc@.take(ii + 1)[ii].0 == q);
                    } else {
                        assert(has_person(pre.push(e), q));
                        assert(has_person(pre, q));
                        assert(has_person(acc@.take(ii), q));
                        let jj = choose|jj: int|
                            0 <= jj < acc@.take(ii).len() && acc@.take(ii)[jj].0 == q;
                        assert(acc@.take(ii)[jj] == acc@[jj]);
                        assert(acc@.take(ii + 1)[jj] == acc@[jj]);
                        assert(acc@.take(ii + 1)[jj].0 == q);
                    }
                }
            }
        } else {
            proof {
                assert forall|q: Person| has_person(bal@, q) implies has_person(
                    acc@.take(ii + 1),
                    q,
                ) by {
                    assert(has_person(acc@.take(ii), q));
                    let jj = choose|jj: int|
                        0 <= jj < acc@.take(ii).len() && acc@.take(ii)[jj].0 == q;
                    assert(acc@.take(ii)[jj] == acc@[jj]);
                    assert(acc@.take(ii + 1)[jj] == acc@[jj]);
                    assert(acc@.take(ii + 1)[jj].0 == q);
                }
            }
        }
        i += 1;
    }
    proof {
        assert(acc@.take(acc@.len() as int) =~= acc@);
    }
    bal
}

/// The executable settlement order: by amount, then by participant id.
fn key_lt_exec(x: (Person, i64), y: (Person, i64)) -> (r: bool)
    ensures
        r == key_lt(x, y),
{
    x.1 < y.1 || (x.1 == y.1 && (x.0).0 < (y.0).0)
}

/// Inserts a pair for a not-yet-listed participant at its place in the
/// settlement order.
#[verifier::loop_isolation(false)]
fn insert_sorted(b: &mut Vec<(Person, i64)>, e: (Person, i64))
    requires
        sorted_by_key(old(b)@),
        distinct_persons(old(b)@),
        !has_person(old(b)@, e.0),
    ensures
        sorted_by_key(final(b)@),
        distinct_persons(final(b)@),
        final(b)@.len() == old(b)@.len() + 1,
        forall|q: Person|
            person_total(final(b)@, q) == person_total(old(b)@, q) + if q == e.0 {
                e.1 as int
            } else {
                0
            },
        amount_total(final(b)@) == amount_total(old(b)@) + e.1,
        forall|j: int|
            0 <= j < final(b)@.len() ==> final(b)@[j] == e || old(b)@.contains(final(b)@[j]),
        forall|q: Person| has_person(final(b)@, q) <==> has_person(old(b)@, q) || q == e.0,
{
    let n: usize = b.len();
    let mut i: usize = 0;
    while i < n && key_lt_exec(b[i], e)
        invariant
            b@ == old(b)@,
            n == b@.len(),
            0 <= i <= n,
            forall|j: int| 0 <= j < i ==> key_lt(b@[j], e),
        decreases n - i,
    {
        i += 1;
    }
    proof {
        if i < n {
            assert(b@[i as int].0 != e.0) by {
                if b@[i as int].0 == e.0 {
                    assert(has_person(b@, e.0));
                }
            }
            assert(key_lt(e, b@[i as int]));
        }
    }
    let ghost pre = b@;
    b.insert(i, e);
    proof {
        let t = b@;
        pre.insert_ensures(i as int, e);
        assert(t.remove(i as int) =~= pre) by {
            t.remove_ensures(i as int);
        }
        assert(t[i as int] == e);
        assert forall|q: Person|
            person_total(t, q) == person_total(pre, q) + if q == e.0 {
                e.1 as int
            } else {
                0
            } by {
            lemma_person_total_remove(t, i as int, q);
        }
        crate::model::lemma_amount_total_remove(t, i as int);
        assert(sorted_by_key(t)) by {
            assert forall|a: int, c: int| 0 <= a < c < t.len() implies key_lt(t[a], t[c]) by {
                if a < i && c < i {
                    assert(t[a] == pre[a] && t[c] == pre[c]);
                } else if a < i && c == i {
                    assert(t[a] == pre[a] && key_lt(pre[a], e));
                } else if a < i && c > i {
                    assert(t[a] == pre[a] && t[c] == pre[c - 1]);
                    assert(key_lt(pre[a], pre[c - 1]));
                } else if a == i {
                    assert(t[c] == pre[c - 1]);
                    assert(key_lt(e, pre[i as int]));
                    if i < c - 1 {
                        assert(key_lt(pre[i as int], pre[c - 1]));
                    }
                } else {
                    assert(t[a] == pre[a - 1] && t[c] == pre[c - 1]);
                    assert(key_lt(pre[a - 1], pre[c - 1]));
                }
            }
        }
        assert forall|j: int| 0 <= j < t.len() implies t[j] == e || pre.contains(t[j]) by {
            if j < i {
                assert(t[j] == pre[j]);
            } else if j > i {
                assert(t[j] == pre[j - 1]);
            }
        }
        assert(distinct_persons(t)) by {
            assert forall|a: int, c: int| 0 <= a < c < t.len() implies t[a].0 != t[c].0 by {
                let a0 = if a < i { a } else { a - 1 };
                let c0 = if c < i { c } else { c - 1 };
                if a == i {
                    assert(t[c] == pre[c0]);
                    if pre[c0].0 == e.0 {
                        assert(has_person(pre, e.0));
                    }
                } else if c == i {
                    assert(t[a] == pre[a0]);
                    if pre[a0].0 == e.0 {
                        assert(has_person(pre, e.0));
                    }
                } else {
                    assert(t[a] == pre[a0] && t[c] == pre[c0]);
                }
            }
        }
        assert forall|q: Person| has_person(t, q) <==> has_person(pre, q) || q == e.0 by {
            if has_person(t, q) {
                let j = choose|j: int| 0 <= j < t.len() && t[j].0 == q;
                if j < i {
                    assert(pre[j].0 == q);
                } else if j > i {
                    assert(pre[j - 1].0 == q);
                }
            }
            if has_person(pre, q) {
                let j0 = choose|j0: int| 0 <= j0 < pre.len() && pre[j0].0 == q;
                let j = if j0 < i {
                    j0
                } else {
                    j0 + 1
                };
                assert(t[j].0 == q);
            }
            if q == e.0 {
                assert(t[i as int].0 == q);
            }
        }
    }
}

/// The settlement kernel: nets all balances, then repeatedly matches the
/// most negative balance with the most positive one, emitting one debt per
/// step, until every balance is zero.
///
/// Applying the returned debts (the debtor's balance rises by the amount,
/// the creditor's falls by it) returns every net balance to zero; every
/// debt is positive and between two different participants; and at most
/// one fewer debts are emitted than there are nonzero balances.
///
/// Twice the sum of all share magnitudes must fit in the currency type,
/// so that no intermediate balance can overflow; `simplify_checked` tests
/// that bound at run time.
#[verifier::loop_isolation(false)]
pub fn simplify(transactions: Vec<Transaction>) -> (debts: Vec<Debt>)
    requires
        2 * total_abs(transactions@) <= i64::MAX as int,
    ensures
        forall|q: Person| balance_of(transactions@, q) + debts_effect(debts@, q) == 0,
        forall|k: int| 0 <= k < debts@.len() ==> debts@[k].amount > 0,
        forall|k: int| 0 <= k < debts@.len() ==> debts@[k].owing != debts@[k].owed,
        nonzero_persons(transactions@).finite(),
        nonzero_persons(transactions@).len() == 0 ==> debts@.len() == 0,
        nonzero_persons(transactions@).len() > 0 ==> debts@.len() <= nonzero_persons(
            transactions@,
        ).len() - 1,
        transactions@.len() == 0 ==> debts@.len() == 0,
{
    let ghost ts = transactions@;
    let bal = net_balances(&transactions);
    proof {
        lemma_nonzero_persons_card(bal@, ts);
        assert forall|j: int| 0 <= j < bal@.len() implies -(i64::MAX as int) <= bal@[j].1 as int by {
            lemma_person_total_at(bal@, j);
            lemma_balance_of_abs(ts, bal@[j].0);
        }
        assert(bal@.take(0) =~= Seq::<(Person, i64)>::empty());
    }
    let ghost n0: int = bal@.len() as int;
    let mut sorted: Vec<(Person, i64)> = Vec::new();
    let mut i: usize = 0;
    while i < bal.len()
        invariant
            0 <= i <= bal@.len(),
            sorted_by_key(sorted@),
            distinct_persons(sorted@),
            sorted@.len() == i,
            forall|q: Person| person_total(sorted@, q) == person_total(bal@.take(i as int), q),
            amount_total(sorted@) == amount_total(bal@.take(i as int)),
            forall|q: Person|
                #[trigger] has_person(sorted@, q) <==> has_person(bal@.take(i as int), q),
            forall|j: int|
                0 <= j < sorted@.len() ==> sorted@[j].1 != 0 && -(i64::MAX as int)
                    <= sorted@[j].1 as int,
        decreases bal@.len() - i,
    {
        let e = bal[i];
        let ghost ii = i as int;
        let ghost pre = sorted@;
        proof {
            assert(e == bal@[ii]);
            assert(bal@.take(ii + 1).drop_last() =~= bal@.take(ii));
            assert(bal@.take(ii + 1).last() == bal@[ii]);
            assert(!has_person(pre, e.0)) by {
                if has_person(pre, e.0) {
                    let jj = choose|jj: int|
                        0 <= jj < bal@.take(ii).len() && bal@.take(ii)[jj].0 == e.0;
                    assert(bal@[jj].0 == bal@[ii].0);
                }
            }
        }
        insert_sorted(&mut sorted, e);
        proof {
            assert forall|q: Person| #[trigger] has_person(sorted@, q) <==> has_person(
                bal@.take(ii + 1),
                q,
            ) by {
                if has_person(sorted@, q) {
                    if q == e.0 {
                        assert(bal@.take(ii + 1)[ii].0 == q);
                    } else {
                        assert(has_person(pre, q));
                        let jj = choose|jj: int|
                            0 <= jj < bal@.take(ii).len() && bal@.take(ii)[jj].0 == q;
                        assert(bal@.take(ii + 1)[jj].0 == q);
                    }
                }
                if has_person(bal@.take(ii + 1), q) {
                    let jj = choose|jj: int|
                        0 <= jj < bal@.take(ii + 1).len() && #[trigger] bal@.take(ii + 1)[jj].0
                            == q;
                    if jj < ii {
                        assert(bal@.take(ii)[jj].0 == q);
                        assert(has_person(bal@.take(ii), q));
                    } else {
                        assert(q == e.0);
                    }
                }
            }
            assert forall|j: int|
                0 <= j < sorted@.len() implies sorted@[j].1 != 0 && -(i64::MAX as int)
                    <= sorted@[j].1 as int by {
                if sorted@[j] == e {
                } else {
                    assert(pre.contains(sorted@[j]));
                    let jj = choose|jj: int| 0 <= jj < pre.len() && pre[jj] == sorted@[j];
                }
            }
        }
        i += 1;
    }
    proof {
        assert(bal@.take(bal@.len() as int) =~= bal@);
    }
    let mut debts: Vec<Debt> = Vec::new();
    while sorted.len() > 1
        invariant
            sorted_by_key(sorted@),
            distinct_persons(sorted@),
            forall|j: int|
                0 <= j < sorted@.len() ==> sorted@[j].1 != 0 && -(i64::MAX as int)
                    <= sorted@[j].1 as int,
            amount_total(sorted@) == 0,
            forall|q: Person| balance_of(ts, q) + debts_effect(debts@, q) == person_total(
                sorted@,
                q,
            ),
            forall|k: int|
                0 <= k < debts@.len() ==> debts@[k].amount > 0 && debts@[k].owing
                    != debts@[k].owed,
            debts@.len() + sorted@.len() <= n0,
            sorted@.len() == 0 ==> n0 == 0 || debts@.len() + 1 <= n0,
        decreases sorted@.len(),
    {
        let ghost s0 = sorted@;
        let ghost len0 = s0.len() as int;
        proof {
            assert(s0[0].1 < 0) by {
                if s0[0].1 > 0 {
                    assert forall|j: int| 0 <= j < s0.len() implies s0[j].1 > 0 by {
                        if j > 0 {
                            assert(key_lt(s0[0], s0[j]));
                        }
                    }
                    crate::model::lemma_amount_total_pos(s0);
                }
            }
            assert(s0[len0 - 1].1 > 0) by {
                if s0[len0 - 1].1 < 0 {
                    assert forall|j: int| 0 <= j < s0.len() implies s0[j].1 < 0 by {
                        if j < len0 - 1 {
                            assert(key_lt(s0[j], s0[len0 - 1]));
                        }
                    }
                    crate::model::lemma_amount_total_neg(s0);
                }
            }
        }
        let min_e = sorted.remove(0);
        let ghost mid1 = sorted@;
        proof {
            s0.remove_ensures(0);
            assert(mid1 =~= s0.remove(0));
        }
        let max_opt = sorted.pop();
        let max_e = max_opt.unwrap();
        let ghost rest = sorted@;
        proof {
            assert(max_e == mid1[mid1.len() - 1]);
            assert(mid1[mid1.len() - 1] == s0[len0 - 1]);
            assert(rest =~= mid1.drop_last());
            assert forall|q: Person|
                person_total(rest, q) == person_total(s0, q) - (if s0[0].0 == q {
                    s0[0].1 as int
                } else {
                    0
                }) - (if s0[len0 - 1].0 == q {
                    s0[len0 - 1].1 as int
                } else {
                    0
                }) by {
                lemma_person_total_remove(s0, 0, q);
                assert(person_total(mid1, q) == person_total(mid1.drop_last(), q)
                    + if mid1.last().0 == q {
                    mid1.last().1 as int
                } else {
                    0
                });
            }
            crate::model::lemma_amount_total_remove(s0, 0);
            assert(amount_total(mid1) == amount_total(mid1.drop_last()) + mid1.last().1 as int);
            assert(amount_total(rest) == -(min_e.1 as int) - (max_e.1 as int));
            assert(distinct_persons(rest) && sorted_by_key(rest)) by {
                assert(forall|j: int| 0 <= j < rest.len() ==> rest[j] == s0[j + 1]);
            }
            assert(forall|j: int| 0 <= j < rest.len() ==> rest[j].1 != 0 && -(i64::MAX as int)
                <= rest[j].1 as int) by {
                assert(forall|j: int| 0 <= j < rest.len() ==> rest[j] == s0[j + 1]);
            }
            assert(!has_person(rest, min_e.0)) by {
                if has_person(rest, min_e.0) {
                    let jj = choose|jj: int| 0 <= jj < rest.len() && rest[jj].0 == min_e.0;
                    assert(s0[jj + 1].0 == s0[0].0);
                }
            }
            assert(!has_person(rest, max_e.0)) by {
                if has_person(rest, max_e.0) {
                    let jj = choose|jj: int| 0 <= jj < rest.len() && rest[jj].0 == max_e.0;
                    assert(s0[jj + 1].0 == s0[len0 - 1].0);
                }
            }
            assert(min_e.0 != max_e.0) by {
                assert(s0[0].0 != s0[len0 - 1].0);
            }
            lemma_person_total_at(s0, 0);
            lemma_person_total_at(s0, len0 - 1);
        }
        let neg_min: i64 = -min_e.1;
        let amount: i64 = if neg_min <= max_e.1 {
            neg_min
        } else {
            max_e.1
        };
        let d = Debt { amount, owing: min_e.0, owed: max_e.0 };
        let ghost debts0 = debts@;
        debts.push(d);
        proof {
            assert(debts@.drop_last() =~= debts0);
            assert(debts@.last() == d);
            assert(forall|q: Person|
                debts_effect(debts@, q) == debts_effect(debts0, q) + crate::model::debt_effect(
                    d,
                    q,
                ));
        }
        let residual: i64 = min_e.1 + max_e.1;
        if residual != 0 {
            let who = if residual < 0 {
                min_e.0
            } else {
                max_e.0
            };
            insert_sorted(&mut sorted, (who, residual));
            proof {
                assert forall|q: Person| balance_of(ts, q) + debts_effect(debts@, q)
                    == person_total(sorted@, q) by {
                    assert(person_total(sorted@, q) == person_total(rest, q) + if q == who {
                        residual as int
                    } else {
                        0
                    });
                }
            }
        } else {
            proof {
                assert forall|q: Person| balance_of(ts, q) + debts_effect(debts@, q)
                    == person_total(sorted@, q) by {
                    assert(sorted@ == rest);
                }
            }
        }
    }
    proof {
        assert(sorted@.len() != 1) by {
            if sorted@.len() == 1 {
                assert(sorted@.drop_last() =~= Seq::<(Person, i64)>::empty());
                assert(amount_total(Seq::<(Person, i64)>::empty()) == 0);
                assert(amount_total(sorted@) == sorted@[0].1 as int);
            }
        }
        assert(sorted@.len() == 0);
        assert forall|q: Person| balance_of(ts, q) + debts_effect(debts@, q) == 0 by {
            assert(person_total(sorted@, q) == 0);
        }
        if ts.len() == 0 {
            if bal@.len() > 0 {
                lemma_person_total_at(bal@, 0);
                assert(balance_of(ts, bal@[0].0) == 0);
            }
        }
    }
    debts
}

/// Settlement behind a runtime overflow guard: `None` exactly when the
/// shares are so large that netting them could overflow the currency type
/// (their absolute values sum past half of the type's maximum), otherwise
/// the debts that `simplify` emits.
#[verifier::loop_isolation(false)]
pub fn simplify_checked(transactions: Vec<Transaction>) -> (r: Option<Vec<Debt>>)
    ensures
        r.is_some() <==> 2 * total_abs(transactions@) <= i64::MAX as int,
        r matches Some(debts) ==> {
            &&& forall|q: Person|
                balance_of(transactions@, q) + debts_effect(debts@, q) == 0
            &&& forall|k: int|
                0 <= k < debts@.len() ==> debts@[k].amount > 0 && debts@[k].owing
                    != debts@[k].owed
            &&& nonzero_persons(transactions@).finite()
            &&& (nonzero_persons(transactions@).len() == 0 ==> debts@.len() == 0)
            &&& (nonzero_persons(transactions@).len() > 0 ==> debts@.len() <= nonzero_persons(
                transactions@,
            ).len() - 1)
        },
{
    let ghost ts = transactions@;
    let half: u128 = (i64::MAX as u128) / 2;
    let mut acc: u128 = 0;
    let mut k: usize = 0;
    proof {
        assert(ts.take(0) =~= Seq::<Transaction>::empty());
    }
    while k < transactions.len()
        invariant
            0 <= k <= ts.len(),
            acc as int == total_abs(ts.take(k as int)),
            acc as int <= (i64::MAX as int) / 2,
        decreases ts.len() - k,
    {
        let t = &transactions[k];
        let ghost split = ts[k as int].split_by@;
        let ghost ki = k as int;
        proof {
            assert(t.split_by@ == split);
            assert(split.take(0) =~= Seq::<(Person, i64)>::empty());
            assert(ts.take(ki + 1).drop_last() =~= ts.take(ki));
            assert(ts.take(ki + 1).last() == ts[ki]);
        }
        let mut j: usize = 0;
        while j < t.split_by.len()
            invariant
                0 <= j <= split.len(),
                acc as int == total_abs(ts.take(ki)) + abs_total(split.take(j as int)),
                acc as int <= (i64::MAX as int) / 2,
            decreases split.len() - j,
        {
            let a: i64 = t.split_by[j].1;
            let ghost ji = j as int;
            let av: u128 = if a >= 0 {
                a as u128
            } else {
                proof {
                    assert(-(a as i128) >= 0);
                }
                (-(a as i128)) as u128
            };
            proof {
                assert(av as int == vstd::math::abs(a as int));
                assert(split.take(ji + 1).drop_last() =~= split.take(ji));
                assert(split.take(ji + 1).last() == split[ji]);
            }
            if av > half - acc {
                proof {
                    lemma_abs_total_take(split, ji + 1);
                    lemma_total_abs_take(ts, ki + 1);
                    assert(total_abs(ts) >= acc as int + av as int);
                }
                return None;
            }
            acc = acc + av;
            j += 1;
        }
        proof {
            assert(split.take(split.len() as int) =~= split);
        }
        k += 1;
    }
    proof {
        assert(ts.take(ts.len() as int) =~= ts);
    }
    Some(simplify(transactions))
}

} // verus!
