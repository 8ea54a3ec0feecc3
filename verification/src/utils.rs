use vstd::prelude::*;

use crate::error::ContractError;

verus! {

/// One native coin of a payment, as the host hands it over: a denomination
/// and an amount of its smallest unit.
#[derive(Clone, Debug, PartialEq, Eq)]
pub struct Coin {
    pub denom: String,
    pub amount: u128,
}

/// `amount * pct / 100`, rounding down.
pub open spec fn pct_of(amount: u128, pct: u8) -> int {
    amount * pct / 100
}

/// Apply a percentage to an amount, rounding down.
pub fn apply_pct(amount: u128, pct: u8) -> (r: u128)
    requires
        amount * pct <= u128::MAX,
    ensures
        r == pct_of(amount, pct),
{
    proof {
        assert(amount * pct / 100 <= amount * pct) by (nonlinear_arith);
    }
    amount * (pct as u128) / 100
}

/// Index of the first coin with the given denomination, if any.
pub open spec fn coin_index(funds: Seq<Coin>, denom: Seq<char>) -> Option<int>
    decreases funds.len(),
{
    if funds.len() == 0 {
        None
    } else if funds[0].denom@ == denom {
        Some(0)
    } else {
        match coin_index(funds.skip(1), denom) {
            Some(i) => Some(i + 1),
            None => None,
        }
    }
}

/// Check a native payment against the price of an order: the first coin of
/// the expected denomination must carry exactly the required amount.
///
/// Returns `FundsInvalid` when no coin names the denomination,
/// `InsufficientFunds` when the coin carries less than the required amount,
/// and `ExcessiveFunds` when it carries more.
pub fn verify_native_funds(
    funds: &Vec<Coin>,
    amount: u128,
    denom: &String,
) -> (r: Result<(), ContractError>)
    ensures
        match coin_index(funds@, denom@) {
            None => r matches Err(e) && e matches ContractError::FundsInvalid { .. },
            Some(i) => {
                let paid = funds@[i].amount;
                if paid < amount {
                    r == Err::<(), ContractError>(ContractError::InsufficientFunds)
                } else if paid > amount {
                    r == Err::<(), ContractError>(ContractError::ExcessiveFunds)
                } else {
                    r == Ok::<(), ContractError>(())
                }
            },
        },
{
    let n = funds.len();
    let mut j: usize = 0;
    while j < n
        invariant
            n == funds@.len(),
            j <= n,
            forall|k: int| 0 <= k < j ==> funds@[k].denom@ != denom@,
        decreases n - j,
    {
        if funds[j].denom.eq(denom) {
            proof {
                lemma_coin_index_first(funds@, denom@, j as int);
            }
            let paid = funds[j].amount;
            if paid < amount {
                return Err(ContractError::InsufficientFunds);
            } else if paid > amount {
                return Err(ContractError::ExcessiveFunds);
            } else {
                return Ok(());
            }
        }
        j += 1;
    }
    proof {
        lemma_coin_index_none(funds@, denom@);
    }
    Err(ContractError::FundsInvalid { reason: "payment does not name the round's token".to_string() })
}

/// If every coin before position `j` misses the denomination and the coin at
/// `j` hits it, then `j` is the first hit.
proof fn lemma_coin_index_first(funds: Seq<Coin>, denom: Seq<char>, j: int)
    requires
        0 <= j < funds.len(),
        funds[j].denom@ == denom,
        forall|k: int| 0 <= k < j ==> funds[k].denom@ != denom,
    ensures
        coin_index(funds, denom) == Some(j),
    decreases j,
{
    if j > 0 {
        lemma_coin_index_first(funds.skip(1), denom, j - 1);
    }
}

/// If no coin carries the denomination, the search misses.
proof fn lemma_coin_index_none(funds: Seq<Coin>, denom: Seq<char>)
    requires
        forall|k: int| 0 <= k < funds.len() ==> funds[k].denom@ != denom,
    ensures
        coin_index(funds, denom) is None,
    decreases funds.len(),
{
    if funds.len() > 0 {
        lemma_coin_index_none(funds.skip(1), denom);
    }
}

} // verus!
