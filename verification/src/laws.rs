//! Laws of the settlement model: conservation of money, and independence
//! of the order in which emitted debts are applied.

use crate::model::{
    amount_total, balance_of, balance_sum, debt_effect, debts_effect, distinct_persons, has_person,
    ind_sum, is_participant, lemma_person_total_absent, lemma_person_total_at, nonzero_persons,
    participant_of, person_sum, person_total, persons_of, txn_net_sum,
};
use crate::types::{Debt, Person, Transaction};
use vstd::prelude::*;

verus! {

/// Summing `v` at `q` and `0` elsewhere over a duplicate-free list gives
/// `v` when `q` is listed and `0` when it is not.
proof fn lemma_ind_sum(ps: Seq<Person>, q: Person, v: int)
    requires
        ps.no_duplicates(),
    ensures
        ps.contains(q) ==> ind_sum(ps, q, v) == v,
        !ps.contains(q) ==> ind_sum(ps, q, v) == 0,
    decreases ps.len(),
{
    if ps.len() > 0 {
        let dl = ps.drop_last();
        assert(forall|i: int| 0 <= i < dl.len() ==> dl[i] == ps[i]);
        lemma_ind_sum(dl, q, v);
        if ps.contains(q) {
            let i = choose|i: int| 0 <= i < ps.len() && ps[i] == q;
            if i < ps.len() - 1 {
                assert(dl.contains(q)) by {
                    assert(dl[i] == q);
                }
                assert(ps.last() != q);
            } else {
                assert(!dl.contains(q)) by {
                    if dl.contains(q) {
                        let j = choose|j: int| 0 <= j < dl.len() && dl[j] == q;
                        assert(ps[j] == ps[i]);
                    }
                }
            }
        } else {
            assert(!dl.contains(q)) by {
                if dl.contains(q) {
                    let j = choose|j: int| 0 <= j < dl.len() && dl[j] == q;
                    assert(ps.contains(q)) by {
                        assert(ps[j] == q);
                    }
                }
            }
            assert(ps.last() != q) by {
                if ps.last() == q {
                    assert(ps[ps.len() - 1] == q);
                }
            }
        }
    }
}

/// Dropping the last pair of `s` removes one indicator sum from the
/// per-participant sums over `ps`.
proof fn lemma_person_sum_step(ps: Seq<Person>, s: Seq<(Person, i64)>)
    requires
        s.len() > 0,
    ensures
        person_sum(ps, s) == person_sum(ps, s.drop_last()) + ind_sum(ps, s.last().0, s.last().1 as int),
    decreases ps.len(),
{
    if ps.len() > 0 {
        lemma_person_sum_step(ps.drop_last(), s);
    }
}

/// Summed over a duplicate-free list that names every participant of the
/// pairs, the per-participant totals add up to the whole amount sum.
proof fn lemma_person_sum_total(ps: Seq<Person>, s: Seq<(Person, i64)>)
    requires
        ps.no_duplicates(),
        forall|j: int| 0 <= j < s.len() ==> ps.contains(#[trigger] s[j].0),
    ensures
        person_sum(ps, s) == amount_total(s),
    decreases s.len(),
{
    if s.len() == 0 {
        assert(s =~= Seq::<(Person, i64)>::empty());
        lemma_person_sum_empty(ps);
    } else {
        let dl = s.drop_last();
        assert(forall|j: int| 0 <= j < dl.len() ==> ps.contains(#[trigger] dl[j].0)) by {
            assert(forall|j: int| 0 <= j < dl.len() ==> dl[j] == s[j]);
        }
        lemma_person_sum_total(ps, dl);
        lemma_person_sum_step(ps, s);
        assert(ps.contains(s[s.len() - 1].0));
        lemma_ind_sum(ps, s.last().0, s.last().1 as int);
    }
}

/// Over an empty list of pairs every per-participant total is zero.
proof fn lemma_person_sum_empty(ps: Seq<Person>)
    ensures
        person_sum(ps, Seq::<(Person, i64)>::empty()) == 0,
    decreases ps.len(),
{
    if ps.len() > 0 {
        lemma_person_sum_empty(ps.drop_last());
    }
}

/// A transaction's summed contribution splits into the payer's credit
/// and the listed participants' debits.
proof fn lemma_txn_net_sum_parts(t: Transaction, ps: Seq<Person>)
    ensures
        txn_net_sum(t, ps) == ind_sum(ps, t.paid_by, amount_total(t.split_by@)) - person_sum(
            ps,
            t.split_by@,
        ),
    decreases ps.len(),
{
    if ps.len() > 0 {
        lemma_txn_net_sum_parts(t, ps.drop_last());
    }
}

/// A single transaction contributes zero in sum over any duplicate-free
/// list that names all of its participants.
proof fn lemma_txn_net_sum_zero(t: Transaction, ps: Seq<Person>)
    requires
        ps.no_duplicates(),
        forall|q: Person| participant_of(t, q) ==> ps.contains(q),
    ensures
        txn_net_sum(t, ps) == 0,
{
    lemma_txn_net_sum_parts(t, ps);
    assert(participant_of(t, t.paid_by));
    lemma_ind_sum(ps, t.paid_by, amount_total(t.split_by@));
    assert(forall|j: int| 0 <= j < t.split_by@.len() ==> ps.contains(#[trigger] t.split_by@[j].0))
        by {
        assert forall|j: int| 0 <= j < t.split_by@.len() implies ps.contains(
            #[trigger] t.split_by@[j].0,
        ) by {
            assert(participant_of(t, t.split_by@[j].0));
        }
    }
    lemma_person_sum_total(ps, t.split_by@);
}

/// Dropping the last transaction removes its summed contribution.
proof fn lemma_balance_sum_step(ts: Seq<Transaction>, ps: Seq<Person>)
    requires
        ts.len() > 0,
    ensures
        balance_sum(ts, ps) == balance_sum(ts.drop_last(), ps) + txn_net_sum(ts.last(), ps),
    decreases ps.len(),
{
    if ps.len() > 0 {
        lemma_balance_sum_step(ts, ps.drop_last());
    }
}

/// With no transactions every balance, and so every balance sum, is zero.
proof fn lemma_balance_sum_empty(ps: Seq<Person>)
    ensures
        balance_sum(Seq::<Transaction>::empty(), ps) == 0,
    decreases ps.len(),
{
    if ps.len() > 0 {
        lemma_balance_sum_empty(ps.drop_last());
    }
}

/// Conservation of money: over any duplicate-free list of participants
/// that includes everyone appearing in the transactions, the net balances
/// sum to exactly zero.
pub proof fn lemma_conservation(ts: Seq<Transaction>, ps: Seq<Person>)
    requires
        ps.no_duplicates(),
        forall|q: Person| is_participant(ts, q) ==> ps.contains(q),
    ensures
        balance_sum(ts, ps) == 0,
    decreases ts.len(),
{
    if ts.len() == 0 {
        assert(ts =~= Seq::<Transaction>::empty());
        lemma_balance_sum_empty(ps);
    } else {
        let dl = ts.drop_last();
        assert(forall|q: Person| is_participant(dl, q) ==> is_participant(ts, q)) by {
            assert forall|q: Person| is_participant(dl, q) implies is_participant(ts, q) by {
                let i = choose|i: int| 0 <= i < dl.len() && participant_of(dl[i], q);
                assert(participant_of(ts[i], q));
            }
        }
        lemma_conservation(dl, ps);
        lemma_balance_sum_step(ts, ps);
        assert(forall|q: Person| participant_of(ts.last(), q) ==> ps.contains(q)) by {
            assert forall|q: Person| participant_of(ts.last(), q) implies ps.contains(q) by {
                assert(participant_of(ts[ts.len() - 1], q));
            }
        }
        lemma_txn_net_sum_zero(ts.last(), ps);
    }
}

/// Per-participant totals agree on two pair lists that agree for every
/// listed participant.
proof fn lemma_person_sum_congr(ps: Seq<Person>, s1: Seq<(Person, i64)>, s2: Seq<(Person, i64)>)
    requires
        forall|q: Person| ps.contains(q) ==> person_total(s1, q) == person_total(s2, q),
    ensures
        person_sum(ps, s1) == person_sum(ps, s2),
    decreases ps.len(),
{
    if ps.len() > 0 {
        let dl = ps.drop_last();
        assert(forall|q: Person| dl.contains(q) ==> ps.contains(q)) by {
            assert forall|q: Person| dl.contains(q) implies ps.contains(q) by {
                let i = choose|i: int| 0 <= i < dl.len() && dl[i] == q;
                assert(ps[i] == q);
            }
        }
        lemma_person_sum_congr(dl, s1, s2);
        assert(ps.contains(ps[ps.len() - 1]));
    }
}

/// With no participant repeated, the amount sum of the pairs equals the
/// sum of the per-participant totals over the listed participants.
proof fn lemma_amount_total_by_person(s: Seq<(Person, i64)>)
    requires
        distinct_persons(s),
    ensures
        amount_total(s) == person_sum(persons_of(s), s),
    decreases s.len(),
{
    if s.len() == 0 {
        assert(persons_of(s) =~= Seq::<Person>::empty());
    } else {
        let dl = s.drop_last();
        let last = s.last();
        assert(forall|i: int| 0 <= i < dl.len() ==> dl[i] == s[i]);
        assert(persons_of(s).drop_last() =~= persons_of(dl));
        assert(persons_of(s).last() == last.0);
        assert(!has_person(dl, last.0)) by {
            if has_person(dl, last.0) {
                let i = choose|i: int| 0 <= i < dl.len() && dl[i].0 == last.0;
                assert(s[i].0 == s[s.len() - 1].0);
            }
        }
        lemma_person_total_absent(dl, last.0);
        assert(person_total(s, last.0) == last.1 as int);
        assert(forall|q: Person|
            persons_of(dl).contains(q) ==> person_total(s, q) == person_total(dl, q)) by {
            assert forall|q: Person| persons_of(dl).contains(q) implies person_total(s, q)
                == person_total(dl, q) by {
                let i = choose|i: int| 0 <= i < persons_of(dl).len() && persons_of(dl)[i] == q;
                assert(s[i].0 == q);
                assert(q != last.0) by {
                    if q == last.0 {
                        assert(s[i].0 == s[s.len() - 1].0);
                    }
                }
            }
        }
        lemma_person_sum_congr(persons_of(dl), s, dl);
        lemma_amount_total_by_person(dl);
        assert(person_sum(persons_of(s), s) == person_sum(persons_of(dl), s) + person_total(
            s,
            last.0,
        ));
    }
}

/// Per-participant totals that agree with the net balances make the two
/// kinds of sums agree.
proof fn lemma_person_sum_eq_balance_sum(
    ps: Seq<Person>,
    s: Seq<(Person, i64)>,
    ts: Seq<Transaction>,
)
    requires
        forall|q: Person| ps.contains(q) ==> person_total(s, q) == balance_of(ts, q),
    ensures
        person_sum(ps, s) == balance_sum(ts, ps),
    decreases ps.len(),
{
    if ps.len() > 0 {
        let dl = ps.drop_last();
        assert(forall|q: Person| dl.contains(q) ==> ps.contains(q)) by {
            assert forall|q: Person| dl.contains(q) implies ps.contains(q) by {
                let i = choose|i: int| 0 <= i < dl.len() && dl[i] == q;
                assert(ps[i] == q);
            }
        }
        lemma_person_sum_eq_balance_sum(dl, s, ts);
        assert(ps.contains(ps[ps.len() - 1]));
    }
}

/// A duplicate-free pair list of all the nonzero balances: its amount sum
/// is zero, provided it also names every participant (zero balances too
/// may be listed; their pairs must then carry amount zero).
pub proof fn lemma_net_balances_sum_zero(s: Seq<(Person, i64)>, ts: Seq<Transaction>)
    requires
        distinct_persons(s),
        forall|q: Person| person_total(s, q) == balance_of(ts, q),
        forall|q: Person| is_participant(ts, q) ==> has_person(s, q),
    ensures
        amount_total(s) == 0,
{
    let ps = persons_of(s);
    assert(ps.no_duplicates()) by {
        assert forall|i: int, j: int| 0 <= i < j < ps.len() implies ps[i] != ps[j] by {
            assert(s[i].0 != s[j].0);
        }
    }
    assert(forall|q: Person| is_participant(ts, q) ==> ps.contains(q)) by {
        assert forall|q: Person| is_participant(ts, q) implies ps.contains(q) by {
            let i = choose|i: int| 0 <= i < s.len() && s[i].0 == q;
            assert(ps[i] == q);
        }
    }
    lemma_amount_total_by_person(s);
    lemma_person_sum_eq_balance_sum(ps, s, ts);
    lemma_conservation(ts, ps);
}

/// Removing the debt at `i` removes exactly its effect.
proof fn lemma_debts_effect_remove(ds: Seq<Debt>, i: int, q: Person)
    requires
        0 <= i < ds.len(),
    ensures
        debts_effect(ds.remove(i), q) == debts_effect(ds, q) - debt_effect(ds[i], q),
    decreases ds.len(),
{
    if i == ds.len() - 1 {
        assert(ds.remove(i) =~= ds.drop_last());
    } else {
        assert(ds.remove(i).drop_last() =~= ds.drop_last().remove(i));
        assert(ds.remove(i).last() == ds.last());
        lemma_debts_effect_remove(ds.drop_last(), i, q);
    }
}

/// Reordering the emitted debts does not change their net effect on any
/// participant: applying them in any order restores the same balances.
pub proof fn lemma_debts_effect_permutation(ds1: Seq<Debt>, ds2: Seq<Debt>, q: Person)
    requires
        ds1.to_multiset() == ds2.to_multiset(),
    ensures
        debts_effect(ds1, q) == debts_effect(ds2, q),
    decreases ds1.len(),
{
    broadcast use vstd::seq_lib::group_to_multiset_ensures;

    if ds1.len() == 0 {
        assert(ds1.len() == ds1.to_multiset().len());
        assert(ds2.len() == ds2.to_multiset().len());
    } else {
        let d = ds1.last();
        let i1 = ds1.len() - 1;
        assert(ds1[i1] == d);
        assert(ds1.contains(d));
        assert(ds2.to_multiset().count(d) > 0);
        assert(ds2.contains(d));
        let j = choose|j: int| 0 <= j < ds2.len() && ds2[j] == d;
        assert(ds1.remove(i1) =~= ds1.drop_last());
        assert(ds1.drop_last().to_multiset() == ds1.to_multiset().remove(d));
        assert(ds2.remove(j).to_multiset() == ds2.to_multiset().remove(d));
        lemma_debts_effect_permutation(ds1.drop_last(), ds2.remove(j), q);
        lemma_debts_effect_remove(ds2, j, q);
    }
}

/// The nonzero balances after `ts` are exactly the participants listed in
/// a duplicate-free pair list of the nonzero net balances, so that set is
/// finite and as large as the list.
pub proof fn lemma_nonzero_persons_card(s: Seq<(Person, i64)>, ts: Seq<Transaction>)
    requires
        distinct_persons(s),
        forall|j: int| 0 <= j < s.len() ==> s[j].1 != 0,
        forall|q: Person| person_total(s, q) == balance_of(ts, q),
    ensures
        nonzero_persons(ts).finite(),
        nonzero_persons(ts).len() == s.len(),
{
    broadcast use vstd::seq_lib::seq_to_set_is_finite;

    let ps = persons_of(s);
    assert(ps.no_duplicates()) by {
        assert forall|i: int, j: int| 0 <= i < j < ps.len() implies ps[i] != ps[j] by {
            assert(s[i].0 != s[j].0);
        }
    }
    assert(nonzero_persons(ts) =~= ps.to_set()) by {
        assert forall|q: Person| nonzero_persons(ts).contains(q) implies ps.to_set().contains(
            q,
        ) by {
            assert(person_total(s, q) != 0);
            assert(has_person(s, q)) by {
                if !has_person(s, q) {
                    lemma_person_total_absent(s, q);
                }
            }
            let i = choose|i: int| 0 <= i < s.len() && s[i].0 == q;
            assert(ps[i] == q);
            assert(ps.contains(q));
        }
        assert forall|q: Person| ps.to_set().contains(q) implies nonzero_persons(ts).contains(
            q,
        ) by {
            let i = choose|i: int| 0 <= i < ps.len() && ps[i] == q;
            assert(s[i].0 == q);
            lemma_person_total_at(s, i);
            assert(person_total(s, q) == s[i].1 as int);
        }
    }
    ps.unique_seq_to_set();
}

} // verus!
