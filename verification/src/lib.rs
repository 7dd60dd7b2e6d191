//! Settlement of shared group expenses with exact integer arithmetic.
//!
//! Given a list of transactions (one payer, a split of owed shares), the
//! library nets every participant's balance and emits a minimal ordered
//! sequence of debts that returns every balance to zero.

mod laws;
mod model;
mod settle;
mod types;

pub use laws::lemma_conservation;
pub use laws::lemma_debts_effect_permutation;
pub use laws::lemma_net_balances_sum_zero;
pub use laws::lemma_nonzero_persons_card;
pub use model::amount_total;
pub use model::balance_of;
pub use model::balance_sum;
pub use model::debt_effect;
pub use model::debts_effect;
pub use model::distinct_persons;
pub use model::has_person;
pub use model::is_participant;
pub use model::nonzero_persons;
pub use model::person_total;
pub use model::total_abs;
pub use model::txn_net;
pub use settle::net_balances;
pub use settle::simplify;
pub use settle::simplify_checked;
pub use types::CurrencyUnit;
pub use types::Debt;
pub use types::Person;
pub use types::Transaction;
