use settle::{net_balances, simplify, simplify_checked, Debt, Person, Transaction};

#[test]
fn test_simplify() {
    let transactions = vec![
        Transaction {
            paid_by: Person(0),
            split_by: vec![(Person(0), 50), (Person(1), 50)],
        },
        Transaction {
            paid_by: Person(1),
            split_by: vec![(Person(0), 25), (Person(1), 25)],
        },
        Transaction {
            paid_by: Person(2),
            split_by: vec![(Person(0), 100), (Person(1), 150), (Person(2), 50)],
        },
        Transaction {
            paid_by: Person(3),
            split_by: vec![(Person(3), 10), (Person(4), 10)],
        },
        Transaction {
            paid_by: Person(0),
            split_by: vec![(Person(0), 5), (Person(4), 15), (Person(2), 20)],
        },
    ];

    let debts = simplify(transactions);
    assert_eq!(
        debts,
        vec![
            Debt {
                amount: 175,
                owing: Person(1),
                owed: Person(2)
            },
            Debt {
                amount: 40,
                owing: Person(0),
                owed: Person(2)
            },
            Debt {
                amount: 15,
                owing: Person(4),
                owed: Person(2)
            },
            Debt {
                amount: 10,
                owing: Person(4),
                owed: Person(3)
            }
        ]
    );
}

#[test]
fn test_empty_input() {
    let debts = simplify(vec![]);
    assert_eq!(debts, vec![]);
}

#[test]
fn test_single_pair() {
    let transactions = vec![Transaction {
        paid_by: Person(0),
        split_by: vec![(Person(0), 50), (Person(1), 50)],
    }];
    let debts = simplify(transactions);
    assert_eq!(
        debts,
        vec![Debt {
            amount: 50,
            owing: Person(1),
            owed: Person(0)
        }]
    );
}

#[test]
fn test_net_balances_sum_to_zero() {
    let transactions = vec![
        Transaction {
            paid_by: Person(0),
            split_by: vec![(Person(0), 50), (Person(1), 50)],
        },
        Transaction {
            paid_by: Person(1),
            split_by: vec![(Person(0), 25), (Person(1), 25)],
        },
        Transaction {
            paid_by: Person(2),
            split_by: vec![(Person(0), 100), (Person(1), 150), (Person(2), 50)],
        },
        Transaction {
            paid_by: Person(3),
            split_by: vec![(Person(3), 10), (Person(4), 10)],
        },
        Transaction {
            paid_by: Person(0),
            split_by: vec![(Person(0), 5), (Person(4), 15), (Person(2), 20)],
        },
    ];
    let bal = net_balances(&transactions);
    assert_eq!(bal.len(), 5);
    let sum: i64 = bal.iter().map(|e| e.1).sum();
    assert_eq!(sum, 0);
    for (person, expected) in [
        (Person(0), -40),
        (Person(1), -175),
        (Person(2), 230),
        (Person(3), 10),
        (Person(4), -25),
    ] {
        let found = bal.iter().find(|e| e.0 == person).expect("missing balance");
        assert_eq!(found.1, expected);
    }
}

#[test]
fn test_reapply_in_any_order_restores_zero() {
    let transactions = vec![
        Transaction {
            paid_by: Person(2),
            split_by: vec![(Person(0), 100), (Person(1), 150), (Person(2), 50)],
        },
        Transaction {
            paid_by: Person(3),
            split_by: vec![(Person(3), 10), (Person(4), 10)],
        },
        Transaction {
            paid_by: Person(0),
            split_by: vec![(Person(0), 5), (Person(4), 15), (Person(2), 20)],
        },
    ];
    let bal = net_balances(&transactions);
    let debts = simplify(transactions);
    // Forward order, then reverse order: both must zero every balance.
    for reversed in [false, true] {
        let mut state: Vec<(Person, i64)> = bal.clone();
        let ordered: Vec<&Debt> = if reversed {
            debts.iter().rev().collect()
        } else {
            debts.iter().collect()
        };
        for d in ordered {
            for e in state.iter_mut() {
                if e.0 == d.owing {
                    e.1 += d.amount;
                }
                if e.0 == d.owed {
                    e.1 -= d.amount;
                }
            }
        }
        for e in state {
            assert_eq!(e.1, 0);
        }
    }
}

#[test]
fn test_debts_positive_and_between_distinct_parties() {
    let transactions = vec![
        Transaction {
            paid_by: Person(7),
            split_by: vec![(Person(7), 30), (Person(8), 30), (Person(9), 40)],
        },
        Transaction {
            paid_by: Person(8),
            split_by: vec![(Person(7), 10), (Person(9), 10)],
        },
    ];
    let debts = simplify(transactions);
    // Minimality: at most one fewer debts than nonzero balances (3 here).
    assert!(debts.len() <= 2);
    for d in debts {
        assert!(d.amount > 0);
        assert_ne!(d.owing, d.owed);
    }
}

#[test]
fn test_equal_balances_tie_break_by_id() {
    let transactions = vec![Transaction {
        paid_by: Person(0),
        split_by: vec![(Person(1), 50), (Person(2), 50)],
    }];
    let debts = simplify(transactions);
    // Both debtors owe 50; the smaller participant id settles first.
    assert_eq!(
        debts,
        vec![
            Debt {
                amount: 50,
                owing: Person(1),
                owed: Person(0)
            },
            Debt {
                amount: 50,
                owing: Person(2),
                owed: Person(0)
            }
        ]
    );
}

#[test]
fn test_negative_share_propagates() {
    // A refund-like negative share: arithmetically consistent, not rejected.
    let transactions = vec![Transaction {
        paid_by: Person(0),
        split_by: vec![(Person(1), -50)],
    }];
    let debts = simplify(transactions);
    assert_eq!(
        debts,
        vec![Debt {
            amount: 50,
            owing: Person(0),
            owed: Person(1)
        }]
    );
}

#[test]
fn test_payer_in_own_split_nets_out() {
    // The payer's own share cancels against the credit.
    let transactions = vec![Transaction {
        paid_by: Person(0),
        split_by: vec![(Person(0), 100)],
    }];
    let debts = simplify(transactions);
    assert_eq!(debts, vec![]);
}

#[test]
fn test_checked_accepts_ordinary_amounts() {
    let transactions = vec![Transaction {
        paid_by: Person(0),
        split_by: vec![(Person(0), 50), (Person(1), 50)],
    }];
    let debts = simplify_checked(transactions).expect("amounts are small");
    assert_eq!(
        debts,
        vec![Debt {
            amount: 50,
            owing: Person(1),
            owed: Person(0)
        }]
    );
}

#[test]
fn test_checked_rejects_overflowing_amounts() {
    let transactions = vec![Transaction {
        paid_by: Person(0),
        split_by: vec![(Person(1), i64::MAX)],
    }];
    assert!(simplify_checked(transactions).is_none());
}
