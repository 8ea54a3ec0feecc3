use vstd::prelude::*;

verus! {

/// A recorded winner of a round (kept for queries; the claims ledger is the
/// authoritative balance).
#[derive(Clone, Debug, PartialEq, Eq)]
pub struct Winner {
    pub wallet: Vec<u8>,
    pub amount_total: u128,
    pub amount_claimed: u128,
    pub position: u16,
}

} // verus!
