use vstd::prelude::*;

verus! {

/// An opaque participant identity; only equality matters.
#[derive(Debug, Clone, Copy, PartialEq, Eq, Hash, Structural)]
pub struct Person(pub u64);

/// The smallest currency denomination (for example, cents).
/// All arithmetic on it is exact; there is no rounding.
pub type CurrencyUnit = i64;

/// One shared expense: `paid_by` paid, and each pair in `split_by` is a
/// participant together with the share of the expense that they owe.
/// The sum of the shares is the total credited to the payer.
pub struct Transaction {
    pub paid_by: Person,
    pub split_by: Vec<(Person, CurrencyUnit)>,
}

/// A settlement instruction: `owing` must pay `amount` to `owed`.
#[derive(Debug, PartialEq)]
pub struct Debt {
    pub amount: CurrencyUnit,
    pub owing: Person,
    pub owed: Person,
}

} // verus!
