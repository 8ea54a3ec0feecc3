use vstd::prelude::*;

use crate::round::Token;

verus! {

/// An amount of some token.
#[derive(Clone, Debug, PartialEq, Eq)]
pub struct TokenAmount {
    pub token: Token,
    pub amount: u128,
}

/// One reward inside an incentive: an optional token amount and the winning
/// position it is meant for.
#[derive(Clone, Debug, PartialEq, Eq)]
pub struct Reward {
    pub token: Option<TokenAmount>,
    pub position: Option<u32>,
}

/// Extra assets donated to a round's pot by any wallet.
#[derive(Clone, Debug, PartialEq, Eq)]
pub struct Incentive {
    pub source: Vec<u8>,
    pub rewards: Vec<Reward>,
}

} // verus!
