use vstd::prelude::*;

use vstd::arithmetic::div_mod::lemma_fundamental_div_mod;
use vstd::arithmetic::mul::{lemma_mul_inequality, lemma_mul_is_distributive_add_other_way};

verus! {

/// Lifecycle of one sale-and-draw cycle.
#[derive(Clone, Copy, Debug, PartialEq, Eq, Structural)]
pub enum RoundStatus {
    Pending,
    Active,
    Closed,
    Complete,
    Canceled,
}

/// The token tickets are paid in: a native denomination, or a fungible-token
/// contract identified by its address.
#[derive(Clone, Debug, PartialEq, Eq)]
pub enum Token {
    Native { denom: String },
    Cw20 { address: Vec<u8> },
}

/// A configured cut of the pot: paid out immediately when `autosend` is set,
/// accrued as a claim otherwise.
#[derive(Clone, Debug, PartialEq, Eq)]
pub struct RoyaltyRecipient {
    pub address: Vec<u8>,
    pub autosend: Option<bool>,
    pub pct: u8,
}

/// End targets of a round: a funding level in token units, or a duration in
/// minutes from the round's start.  A round with neither never auto-ends.
#[derive(Clone, Copy, Debug, PartialEq, Eq, Structural)]
pub struct Targets {
    pub funding_level: Option<u128>,
    pub duration_minutes: Option<u32>,
}

/// How the winner count and the per-winner shares are derived.
#[derive(Clone, Debug, PartialEq, Eq)]
pub enum WinnerSelectionMethod {
    /// `max(1, wallets * pct / 100)` winners, each with an equal share of
    /// `100 / count` percent; a configured positive `max` caps the count.
    /// (The cap never acts as a floor: that is this engine's resolution of an
    /// ambiguity between the two derivations of the drawing count.)
    Percent { pct: u8, max: Option<u32> },
    /// As many winners as the list has entries (truncated to the wallet
    /// count), the k-th winner taking the k-th percentage.
    Fixed(Vec<u8>),
}

#[derive(Clone, Debug, PartialEq, Eq)]
pub struct WinnerSelection {
    pub method: WinnerSelectionMethod,
    pub with_replacement: bool,
}

/// Immutable rules for a round.  With several configs, round `i` uses config
/// `i % len`.
#[derive(Clone, Debug, PartialEq, Eq)]
pub struct Config {
    pub name: Option<String>,
    pub targets: Targets,
    pub selection: WinnerSelection,
    pub token: Token,
    pub ticket_price: u128,
    pub max_tickets_per_wallet: Option<u32>,
    pub royalties: Vec<RoyaltyRecipient>,
}

/// Aggregate metrics of a round.
#[derive(Clone, Copy, Debug, PartialEq, Eq, Structural)]
pub struct Counts {
    pub drawings: u32,
    pub wallets: u32,
    pub tickets: u32,
    pub orders: u32,
}

/// One sale-and-draw cycle.
#[derive(Clone, Debug, PartialEq, Eq)]
pub struct Round {
    pub status: RoundStatus,
    pub counts: Counts,
    pub started_at: Option<u64>,
    pub ended_by: Option<Vec<u8>>,
    pub index: u32,
}

/// Total ticket revenue of a round: tickets times ticket price.
pub open spec fn pot_size(tickets: u32, price: u128) -> int {
    tickets * price
}

/// Sum of the royalty percentages of a config.
pub open spec fn pct_sum(rs: Seq<RoyaltyRecipient>) -> int
    decreases rs.len(),
{
    if rs.len() == 0 {
        0
    } else {
        pct_sum(rs.drop_last()) + rs.last().pct
    }
}

/// Sum of a fixed winner split.
pub open spec fn split_sum(split: Seq<u8>) -> int
    decreases split.len(),
{
    if split.len() == 0 {
        0
    } else {
        split_sum(split.drop_last()) + split.last()
    }
}

/// Total royalty amount taken off a pot of size `total`: every recipient's
/// percentage applied to `total`, each share rounding down.
pub open spec fn royalty_sum(rs: Seq<RoyaltyRecipient>, total: u128) -> int
    decreases rs.len(),
{
    if rs.len() == 0 {
        0
    } else {
        royalty_sum(rs.drop_last(), total) + crate::utils::pct_of(total, rs.last().pct)
    }
}

/// A config the engine accepts at setup time: royalty percentages sum to at
/// most 100 (so royalties never overdraw the pot), a fixed split sums to at
/// most 100 and names at most 100 places, and a percent-based winner count
/// uses a percentage of at most 100.
pub open spec fn config_valid(c: Config) -> bool {
    &&& pct_sum(c.royalties@) <= 100
    &&& match c.selection.method {
        WinnerSelectionMethod::Fixed(split) => split_sum(split@) <= 100 && split@.len() <= 100,
        WinnerSelectionMethod::Percent { pct, max } => pct <= 100,
    }
}

/// Should the round end now?  A funding target is met when ticket revenue
/// reaches it; else a duration target is met when the clock reaches the
/// round's start plus the duration; a round with neither target never
/// auto-ends.
pub open spec fn spec_should_end(r: Round, c: Config, block_time: u64) -> bool {
    match c.targets.funding_level {
        Some(fl) => pot_size(r.counts.tickets, c.ticket_price) >= fl,
        None => match c.targets.duration_minutes {
            Some(m) => match r.started_at {
                Some(st) => block_time >= st + m * 60,
                None => false,
            },
            None => false,
        },
    }
}

/// `a/100 + b/100 <= (a+b)/100` for nonnegative `a`, `b`.
pub proof fn lemma_div100_add(a: int, b: int)
    requires
        a >= 0,
        b >= 0,
    ensures
        a / 100 + b / 100 <= (a + b) / 100,
        a / 100 >= 0,
{
    lemma_fundamental_div_mod(a, 100);
    lemma_fundamental_div_mod(b, 100);
    lemma_fundamental_div_mod(a + b, 100);
    if a / 100 < 0 {
        assert(a == 100 * (a / 100) + a % 100);
        assert(100 * (a / 100) <= -100) by (nonlinear_arith)
            requires
                a / 100 <= -1,
        ;
    }
    if b / 100 < 0 {
        assert(100 * (b / 100) <= -100) by (nonlinear_arith)
            requires
                b / 100 <= -1,
        ;
    }
    let q = (a + b) / 100;
    let qa = a / 100;
    let qb = b / 100;
    assert(100 * q + (a + b) % 100 == 100 * qa + a % 100 + 100 * qb + b % 100);
    if q < qa + qb {
        assert(100 * q <= 100 * (qa + qb) - 100) by (nonlinear_arith)
            requires
                q <= qa + qb - 1,
        ;
        assert(100 * (qa + qb) == 100 * qa + 100 * qb) by (nonlinear_arith);
    }
}

/// Royalties are bounded by their percentage total: the royalty amount never
/// exceeds `total * pct_sum / 100`, hence never the pot itself when the
/// percentages sum to at most 100.
pub proof fn lemma_royalty_sum_bound(rs: Seq<RoyaltyRecipient>, total: u128)
    ensures
        0 <= royalty_sum(rs, total),
        royalty_sum(rs, total) <= total * pct_sum(rs) / 100,
        pct_sum(rs) >= 0,
    decreases rs.len(),
{
    if rs.len() == 0 {
        assert(total * 0 == 0) by (nonlinear_arith);
    } else {
        let head = rs.drop_last();
        let p = rs.last().pct;
        lemma_royalty_sum_bound(head, total);
        lemma_div100_add(total * pct_sum(head), total * p);
        assert(total * pct_sum(head) + total * p == total * (pct_sum(head) + p)) by (nonlinear_arith);
        assert(total * p >= 0) by (nonlinear_arith);
        lemma_div100_add(total * p, 0);
    }
}

proof fn lemma_pct_sum_nonneg(rs: Seq<RoyaltyRecipient>)
    ensures
        pct_sum(rs) >= 0,
    decreases rs.len(),
{
    if rs.len() > 0 {
        lemma_pct_sum_nonneg(rs.drop_last());
    }
}

/// Each royalty percentage is at most the percentage total.
pub proof fn lemma_pct_elem_le_sum(rs: Seq<RoyaltyRecipient>, i: int)
    requires
        0 <= i < rs.len(),
    ensures
        rs[i].pct <= pct_sum(rs),
    decreases rs.len(),
{
    if i == rs.len() - 1 {
        lemma_pct_sum_nonneg(rs.drop_last());
    } else {
        lemma_pct_elem_le_sum(rs.drop_last(), i);
    }
}

/// Any prefix of the royalty list keeps its percentage total at most the
/// whole list's.
pub proof fn lemma_pct_sum_prefix(rs: Seq<RoyaltyRecipient>, k: int)
    requires
        0 <= k <= rs.len(),
    ensures
        pct_sum(rs.take(k)) <= pct_sum(rs),
    decreases rs.len() - k,
{
    if k < rs.len() {
        lemma_pct_sum_prefix(rs, k + 1);
        assert(rs.take(k + 1).drop_last() =~= rs.take(k));
        assert(rs.take(k + 1).last() == rs[k]);
    } else {
        assert(rs.take(k) =~= rs);
    }
}

impl Round {
    /// A fresh round at the given index: active (with its start time
    /// recorded) or pending, with zeroed counts.
    pub fn new(started_at: u64, is_active: bool, index: u32) -> (r: Round)
        ensures
            r.ended_by is None,
            r.started_at == if is_active {
                Some(started_at)
            } else {
                None::<u64>
            },
            r.index == index,
            r.status == if is_active {
                RoundStatus::Active
            } else {
                RoundStatus::Pending
            },
            r.counts == (Counts { drawings: 0, wallets: 0, tickets: 0, orders: 0 }),
    {
        Round {
            ended_by: None,
            started_at: if is_active {
                Some(started_at)
            } else {
                None
            },
            index,
            status: if is_active {
                RoundStatus::Active
            } else {
                RoundStatus::Pending
            },
            counts: Counts { drawings: 0, wallets: 0, tickets: 0, orders: 0 },
        }
    }

    pub fn is_active(&self) -> (r: bool)
        ensures
            r == (self.status == RoundStatus::Active),
    {
        self.status == RoundStatus::Active
    }

    pub fn is_canceled(&self) -> (r: bool)
        ensures
            r == (self.status == RoundStatus::Canceled),
    {
        self.status == RoundStatus::Canceled
    }

    /// Evaluate the round's end condition against its config and the clock.
    pub fn should_end(&self, config: &Config, block_time: u64) -> (r: bool)
        ensures
            r == spec_should_end(*self, *config, block_time),
    {
        if let Some(fl) = config.targets.funding_level {
            let t = self.counts.tickets as u128;
            let price = config.ticket_price;
            if price != 0 && t > u128::MAX / price {
                proof {
                    lemma_fundamental_div_mod(u128::MAX as int, price as int);
                    lemma_mul_inequality(
                        u128::MAX as int / price as int + 1,
                        t as int,
                        price as int,
                    );
                    lemma_mul_is_distributive_add_other_way(
                        price as int,
                        u128::MAX as int / price as int,
                        1,
                    );
                    assert(t * price > u128::MAX);
                }
                true
            } else {
                proof {
                    if price != 0 {
                        lemma_fundamental_div_mod(u128::MAX as int, price as int);
                        lemma_mul_inequality(
                            t as int,
                            u128::MAX as int / price as int,
                            price as int,
                        );
                        assert((u128::MAX as int / price as int) * price <= u128::MAX);
                    } else {
                        assert(t * price == 0) by (nonlinear_arith)
                            requires
                                price == 0,
                        ;
                    }
                }
                t * price >= fl
            }
        } else if let Some(m) = config.targets.duration_minutes {
            if let Some(st) = self.started_at {
                (block_time as u128) >= (st as u128) + (m as u128) * 60
            } else {
                false
            }
        } else {
            false
        }
    }

    /// Total ticket revenue of this round.
    pub fn get_pot_size(&self, config: &Config) -> (r: u128)
        requires
            pot_size(self.counts.tickets, config.ticket_price) <= u128::MAX,
        ensures
            r == pot_size(self.counts.tickets, config.ticket_price),
    {
        (self.counts.tickets as u128) * config.ticket_price
    }

    /// Total royalty amount owed out of a pot of size `total`.
    pub fn get_total_royalty_amount(&self, config: &Config, total: u128) -> (r: u128)
        requires
            total * 100 <= u128::MAX,
            pct_sum(config.royalties@) <= 100,
        ensures
            r == royalty_sum(config.royalties@, total),
            r <= total,
    {
        let n = config.royalties.len();
        let mut acc: u128 = 0;
        let mut i: usize = 0;
        proof {
            lemma_royalty_sum_bound(config.royalties@, total);
        }
        while i < n
            invariant
                n == config.royalties@.len(),
                i <= n,
                total * 100 <= u128::MAX,
                pct_sum(config.royalties@) <= 100,
                acc == royalty_sum(config.royalties@.take(i as int), total),
                acc <= total,
            decreases n - i,
        {
            let ghost rs = config.royalties@;
            let p = config.royalties[i].pct;
            proof {
                lemma_pct_sum_prefix(rs, i + 1);
                lemma_royalty_sum_bound(rs.take(i + 1), total);
                assert(rs.take(i + 1).drop_last() =~= rs.take(i as int));
                assert(rs.take(i + 1).last() == rs[i as int]);
                assert(total * pct_sum(rs.take(i + 1)) <= total * 100) by (nonlinear_arith)
                    requires
                        pct_sum(rs.take(i + 1)) <= 100,
                        total >= 0,
                ;
                vstd::arithmetic::div_mod::lemma_div_is_ordered(
                    total * pct_sum(rs.take(i + 1)),
                    total * 100,
                    100,
                );
                vstd::arithmetic::div_mod::lemma_div_multiples_vanish(total as int, 100);
                lemma_pct_elem_le_sum(rs, i as int);
                assert(p <= 100);
                assert(total * p <= total * 100) by (nonlinear_arith)
                    requires
                        p <= 100,
                        total >= 0,
                ;
            }
            acc = acc + (total * (p as u128)) / 100;
            i += 1;
        }
        proof {
            assert(config.royalties@.take(n as int) =~= config.royalties@);
        }
        acc
    }
}

} // verus!
