use vstd::prelude::*;

use crate::error::ContractError;
use crate::msg::InstantiateMsg;
use crate::round::{config_valid, pct_sum, split_sum, Config, WinnerSelectionMethod};

verus! {

/// Lifecycle of the whole multi-round campaign.
#[derive(Clone, Copy, Debug, PartialEq, Eq, Structural)]
pub enum LotteryStatus {
    Pending,
    Active,
    Complete,
    Canceled,
}

/// The round plan: the config cycle, the current round index and the total
/// number of rounds the campaign runs.
#[derive(Clone, Debug, PartialEq, Eq)]
pub struct Rounds {
    pub configs: Vec<Config>,
    pub index: u32,
    pub count: u32,
}

/// The whole multi-round campaign.
#[derive(Clone, Debug, PartialEq, Eq)]
pub struct Lottery {
    pub owner: Vec<u8>,
    pub name: Option<String>,
    pub tournament: Option<bool>,
    pub status: LotteryStatus,
    pub rounds: Rounds,
}

/// A lottery the engine accepts: at least one round config, and every config
/// individually valid.
pub open spec fn lottery_valid(l: Lottery) -> bool {
    &&& l.rounds.configs@.len() >= 1
    &&& forall|i: int|
        0 <= i < l.rounds.configs@.len() ==> config_valid(#[trigger] l.rounds.configs@[i])
}

proof fn lemma_split_sum_le(s: Seq<u8>, k: int)
    requires
        0 <= k <= s.len(),
    ensures
        split_sum(s.take(k)) <= k * 255,
    decreases k,
{
    if k > 0 {
        lemma_split_sum_le(s, k - 1);
        assert(s.take(k).drop_last() =~= s.take(k - 1));
        assert(k * 255 == (k - 1) * 255 + 255) by (nonlinear_arith);
    }
}

/// Check one config against [`config_valid`].
fn config_is_valid(c: &Config) -> (r: bool)
    ensures
        r == config_valid(*c),
{
    let n = c.royalties.len();
    let mut total: u64 = 0;
    let mut i: usize = 0;
    while i < n
        invariant
            n == c.royalties@.len(),
            i <= n,
            total == pct_sum(c.royalties@.take(i as int)),
            total <= 100,
        decreases n - i,
    {
        proof {
            assert(c.royalties@.take(i + 1).drop_last() =~= c.royalties@.take(i as int));
            assert(c.royalties@.take(i + 1).last() == c.royalties@[i as int]);
        }
        total = total + (c.royalties[i].pct as u64);
        i += 1;
        if total > 100 {
            proof {
                crate::round::lemma_pct_sum_prefix(c.royalties@, i as int);
            }
            return false;
        }
    }
    proof {
        assert(c.royalties@.take(n as int) =~= c.royalties@);
    }
    match &c.selection.method {
        WinnerSelectionMethod::Fixed(split) => {
            if split.len() > 100 {
                return false;
            }
            let m = split.len();
            let mut stotal: u64 = 0;
            let mut i: usize = 0;
            while i < m
                invariant
                    m == split@.len(),
                    m <= 100,
                    i <= m,
                    stotal == split_sum(split@.take(i as int)),
                    stotal <= 25500,
                decreases m - i,
            {
                proof {
                    assert(split@.take(i + 1).drop_last() =~= split@.take(i as int));
                    assert(split@.take(i + 1).last() == split@[i as int]);
                    lemma_split_sum_le(split@, i + 1);
                    vstd::arithmetic::mul::lemma_mul_inequality(i + 1, 100, 255);
                }
                stotal = stotal + (split[i] as u64);
                i += 1;
            }
            proof {
                assert(split@.take(m as int) =~= split@);
            }
            stotal <= 100
        },
        WinnerSelectionMethod::Percent { pct, max } => *pct <= 100,
    }
}

impl Lottery {
    /// Build and validate a lottery from its creation message.  The campaign
    /// runs for the larger of the declared round count and the number of
    /// configs; it starts active unless `activate` says otherwise.
    pub fn instantiate(owner: Vec<u8>, msg: InstantiateMsg) -> (r: Result<
        Lottery,
        ContractError,
    >)
        requires
            msg.rounds.configs@.len() <= u32::MAX,
        ensures
            match r {
                Ok(l) => {
                    &&& lottery_valid(l)
                    &&& l.owner@ == owner@
                    &&& l.name == msg.name
                    &&& l.tournament == msg.tournament
                    &&& l.status == if msg.activate is None || msg.activate == Some(true) {
                        LotteryStatus::Active
                    } else {
                        LotteryStatus::Pending
                    }
                    &&& l.rounds.configs@ == msg.rounds.configs@
                    &&& l.rounds.index == 0
                    &&& l.rounds.count == if msg.rounds.count >= msg.rounds.configs@.len() {
                        msg.rounds.count as int
                    } else {
                        msg.rounds.configs@.len() as int
                    }
                },
                Err(e) => e matches ContractError::ValidationError { .. },
            },
            r is Ok <==> (msg.rounds.configs@.len() >= 1 && forall|i: int|
                0 <= i < msg.rounds.configs@.len() ==> config_valid(#[trigger] msg.rounds.configs@[i])),
    {
        let n_configs = msg.rounds.configs.len();
        if n_configs == 0 {
            return Err(
                ContractError::ValidationError {
                    reason: Some("lottery must have at least 1 round config".to_string()),
                },
            );
        }
        let mut i: usize = 0;
        while i < n_configs
            invariant
                n_configs == msg.rounds.configs@.len(),
                i <= n_configs,
                forall|j: int| 0 <= j < i ==> config_valid(#[trigger] msg.rounds.configs@[j]),
            decreases n_configs - i,
        {
            if !config_is_valid(&msg.rounds.configs[i]) {
                return Err(
                    ContractError::ValidationError {
                        reason: Some("round config percentages must sum to at most 100".to_string()),
                    },
                );
            }
            i += 1;
        }
        let count = if msg.rounds.count >= (n_configs as u32) {
            msg.rounds.count
        } else {
            n_configs as u32
        };
        let lottery = Lottery {
            owner,
            name: msg.name,
            tournament: msg.tournament,
            status: if matches!(msg.activate, Some(false)) {
                LotteryStatus::Pending
            } else {
                LotteryStatus::Active
            },
            rounds: Rounds { configs: msg.rounds.configs, count, index: 0 },
        };
        Ok(lottery)
    }

    /// The config slot the current round uses.
    pub fn get_config_index(&self) -> (r: usize)
        requires
            self.rounds.configs@.len() >= 1,
        ensures
            r == self.rounds.index as int % self.rounds.configs@.len() as int,
    {
        (self.rounds.index as usize) % self.rounds.configs.len()
    }

    /// The config the current round runs under.
    pub fn get_config(&self) -> (r: &Config)
        requires
            self.rounds.configs@.len() >= 1,
        ensures
            *r == self.rounds.configs@[self.rounds.index as int % self.rounds.configs@.len() as int],
    {
        let i = self.get_config_index();
        &self.rounds.configs[i]
    }

    /// Check the lottery against [`lottery_valid`].
    pub fn validate(&self) -> (r: Result<(), ContractError>)
        ensures
            r is Ok <==> lottery_valid(*self),
            r matches Err(e) ==> e matches ContractError::ValidationError { .. },
    {
        let n_configs = self.rounds.configs.len();
        if n_configs == 0 {
            return Err(
                ContractError::ValidationError {
                    reason: Some("lottery must have at least 1 round config".to_string()),
                },
            );
        }
        let mut i: usize = 0;
        while i < n_configs
            invariant
                n_configs == self.rounds.configs@.len(),
                i <= n_configs,
                forall|j: int| 0 <= j < i ==> config_valid(#[trigger] self.rounds.configs@[j]),
            decreases n_configs - i,
        {
            if !config_is_valid(&self.rounds.configs[i]) {
                return Err(
                    ContractError::ValidationError {
                        reason: Some("round config percentages must sum to at most 100".to_string()),
                    },
                );
            }
            i += 1;
        }
        Ok(())
    }

    pub fn is_active(&self) -> (r: bool)
        ensures
            r == (self.status == LotteryStatus::Active),
    {
        self.status == LotteryStatus::Active
    }
}

} // verus!
