use vstd::prelude::*;

use crate::incentive::Reward;
use crate::round::Config;

verus! {

/// Initial engine state.
#[derive(Clone, Debug, PartialEq, Eq)]
pub struct InstantiateMsg {
    pub name: Option<String>,
    pub rounds: InitialRounds,
    pub tournament: Option<bool>,
    pub activate: Option<bool>,
}

/// The round plan a lottery is created with.
#[derive(Clone, Debug, PartialEq, Eq)]
pub struct InitialRounds {
    pub configs: Vec<Config>,
    pub count: u32,
}

/// Executable engine operations.
#[derive(Clone, Debug, PartialEq, Eq)]
pub enum ExecuteMsg {
    BuyTickets { count: u32, message: Option<String>, is_public: Option<bool> },
    AddIncentives { rewards: Vec<Reward> },
    IssueRefund { round: u32, recipient: Vec<u8> },
    ClaimRewards {},
    TerminateRound {},
}

/// Engine query endpoints.
#[derive(Clone, Debug, PartialEq, Eq)]
pub enum QueryMsg {
    GetRound { index: u32, players: Option<bool>, winners: Option<bool>, orders: Option<bool> },
}

} // verus!
