use vstd::prelude::*;

use crate::error::ContractError;
use crate::player::Player;
use crate::random::{rng_mix, rng_step, seed_int, seed_wf, Prng};
use crate::round::{
    config_valid, lemma_div100_add, split_sum, Config, Round, WinnerSelectionMethod,
};
use crate::royalties::{claims_view, upsert_claim, upsert_v, Claim, ClaimV};
use crate::utils::{apply_pct, pct_of};

verus! {

// The winner selection engine draws wallets out of a flat sample pool that
// repeats each player's position once per ticket, so draw probability is
// proportional to ticket count.  Drawing without replacement removes the
// drawn player's entries from the pool, which keeps the remaining draws
// proportional to the remaining tickets; once every distinct player has been
// drawn the pool is refilled and repeats become possible.

/// The weighted sample pool of a player list: position `i` repeated once per
/// ticket player `i` holds.
pub open spec fn pool_of(ps: Seq<Player>) -> Seq<u32>
    decreases ps.len(),
{
    if ps.len() == 0 {
        Seq::empty()
    } else {
        pool_of(ps.drop_last()) + Seq::new(
            ps.last().ticket_count as nat,
            |j: int| (ps.len() - 1) as u32,
        )
    }
}

/// The pool holds one entry per ticket.
pub proof fn lemma_pool_len(ps: Seq<Player>)
    ensures
        pool_of(ps).len() == crate::player::sum_tickets(ps),
    decreases ps.len(),
{
    if ps.len() > 0 {
        lemma_pool_len(ps.drop_last());
    }
}

/// Every pool entry is a valid player position.
pub proof fn lemma_pool_elems(ps: Seq<Player>)
    requires
        ps.len() <= u32::MAX,
    ensures
        forall|i: int| 0 <= i < pool_of(ps).len() ==> (#[trigger] pool_of(ps)[i]) < ps.len(),
    decreases ps.len(),
{
    if ps.len() > 0 {
        lemma_pool_elems(ps.drop_last());
        let left = pool_of(ps.drop_last());
        let right = Seq::new(ps.last().ticket_count as nat, |j: int| (ps.len() - 1) as u32);
        assert forall|i: int| 0 <= i < pool_of(ps).len() implies (#[trigger] pool_of(ps)[i])
            < ps.len() by {
            if i < left.len() {
                assert(pool_of(ps)[i] == left[i]);
            } else {
                assert(pool_of(ps)[i] == right[i - left.len()]);
            }
        }
    }
}

/// The number of winners drawn: for a fixed split, one per listed percentage
/// (truncated to the wallet count); for a percent-based selection,
/// `max(1, wallets * pct / 100)`, capped by a configured positive maximum.
pub open spec fn spec_winner_count(method: WinnerSelectionMethod, wallets: u32) -> int {
    match method {
        WinnerSelectionMethod::Fixed(split) => if wallets < split@.len() {
            wallets as int
        } else {
            split@.len() as int
        },
        WinnerSelectionMethod::Percent { pct, max } => {
            let base = if wallets * pct / 100 < 1 {
                1
            } else {
                wallets * pct / 100
            };
            match max {
                Some(m) => if m > 0 && base > m {
                    m as int
                } else {
                    base
                },
                None => base,
            }
        },
    }
}

/// The percentage of the winnings each drawn winner takes, by place.
pub open spec fn spec_claim_pcts(method: WinnerSelectionMethod, wallets: u32) -> Seq<u8> {
    match method {
        WinnerSelectionMethod::Fixed(split) => split@.take(spec_winner_count(method, wallets)),
        WinnerSelectionMethod::Percent { pct, max } => Seq::new(
            spec_winner_count(method, wallets) as nat,
            |i: int| (100 as int / spec_winner_count(method, wallets)) as u8,
        ),
    }
}

proof fn lemma_split_sum_prefix(s: Seq<u8>, k: int)
    requires
        0 <= k <= s.len(),
    ensures
        split_sum(s.take(k)) <= split_sum(s),
        split_sum(s.take(k)) >= 0,
    decreases s.len() - k,
{
    lemma_split_sum_nonneg(s.take(k));
    if k < s.len() {
        lemma_split_sum_prefix(s, k + 1);
        assert(s.take(k + 1).drop_last() =~= s.take(k));
        assert(s.take(k + 1).last() == s[k]);
    } else {
        assert(s.take(k) =~= s);
    }
}

proof fn lemma_split_sum_nonneg(s: Seq<u8>)
    ensures
        split_sum(s) >= 0,
    decreases s.len(),
{
    if s.len() > 0 {
        lemma_split_sum_nonneg(s.drop_last());
    }
}

proof fn lemma_split_sum_repeat(v: u8, n: nat)
    ensures
        split_sum(Seq::new(n, |i: int| v)) == n * v,
    decreases n,
{
    let s = Seq::new(n, |i: int| v);
    if n == 0 {
        assert(n * v == 0) by (nonlinear_arith)
            requires
                n == 0,
        ;
    } else {
        lemma_split_sum_repeat(v, (n - 1) as nat);
        assert(s.drop_last() =~= Seq::new((n - 1) as nat, |i: int| v));
        assert(n * v == (n - 1) * v + v) by (nonlinear_arith);
    }
}

/// The per-winner percentages always sum to at most 100 under a valid
/// config: a fixed split by validation, a uniform split because `n` winners
/// take `100 / n` percent each.
pub proof fn lemma_claim_pcts_sum(method: WinnerSelectionMethod, wallets: u32)
    requires
        match method {
            WinnerSelectionMethod::Fixed(split) => split_sum(split@) <= 100,
            WinnerSelectionMethod::Percent { pct, max } => true,
        },
    ensures
        split_sum(spec_claim_pcts(method, wallets)) <= 100,
        spec_claim_pcts(method, wallets).len() == spec_winner_count(method, wallets),
{
    match method {
        WinnerSelectionMethod::Fixed(split) => {
            lemma_split_sum_prefix(split@, spec_winner_count(method, wallets));
        },
        WinnerSelectionMethod::Percent { pct, max } => {
            let n = spec_winner_count(method, wallets);
            assert(n >= 1);
            let each = (100 as int / n) as u8;
            assert(100 as int / n <= 100) by {
                vstd::arithmetic::div_mod::lemma_div_is_ordered_by_denominator(100, 1, n);
            }
            assert(100 as int / n >= 0) by {
                vstd::arithmetic::div_mod::lemma_div_pos_is_pos(100, n);
            }
            lemma_split_sum_repeat(each, n as nat);
            assert(n * each <= 100) by {
                vstd::arithmetic::div_mod::lemma_fundamental_div_mod(100, n);
                assert(n * (100 as int / n) <= 100);
            }
        },
    }
}

proof fn lemma_split_elem_le_sum(s: Seq<u8>, i: int)
    requires
        0 <= i < s.len(),
    ensures
        s[i] <= split_sum(s),
    decreases s.len(),
{
    if i == s.len() - 1 {
        lemma_split_sum_nonneg(s.drop_last());
    } else {
        lemma_split_elem_le_sum(s.drop_last(), i);
    }
}

/// Each per-winner percentage is at most 100 under a valid config.
pub proof fn lemma_claim_pcts_elem(method: WinnerSelectionMethod, wallets: u32)
    requires
        match method {
            WinnerSelectionMethod::Fixed(split) => split_sum(split@) <= 100,
            WinnerSelectionMethod::Percent { pct, max } => true,
        },
    ensures
        forall|i: int|
            0 <= i < spec_claim_pcts(method, wallets).len() ==> (#[trigger] spec_claim_pcts(
                method,
                wallets,
            )[i]) <= 100,
{
    match method {
        WinnerSelectionMethod::Fixed(split) => {
            assert forall|i: int| 0 <= i < spec_claim_pcts(method, wallets).len() implies (
            #[trigger] spec_claim_pcts(method, wallets)[i]) <= 100 by {
                assert(spec_claim_pcts(method, wallets)[i] == split@[i]);
                lemma_split_elem_le_sum(split@, i);
            }
        },
        WinnerSelectionMethod::Percent { pct, max } => {
            let n = spec_winner_count(method, wallets);
            assert(n >= 1);
            assert(100 as int / n <= 100) by {
                vstd::arithmetic::div_mod::lemma_div_is_ordered_by_denominator(100, 1, n);
            }
            assert(100 as int / n >= 0) by {
                vstd::arithmetic::div_mod::lemma_div_pos_is_pos(100, n);
            }
        },
    }
}

/// Sum of the winners' amounts: each percentage applied to the winnings.
pub open spec fn terms_sum(w: u128, pcts: Seq<u8>) -> int
    decreases pcts.len(),
{
    if pcts.len() == 0 {
        0
    } else {
        terms_sum(w, pcts.drop_last()) + pct_of(w, pcts.last())
    }
}

/// The winners' amounts never exceed the winnings when the percentages sum
/// to at most 100.
pub proof fn lemma_terms_sum_bound(w: u128, pcts: Seq<u8>)
    ensures
        0 <= terms_sum(w, pcts),
        terms_sum(w, pcts) <= w * split_sum(pcts) / 100,
    decreases pcts.len(),
{
    if pcts.len() == 0 {
        assert(w * 0 == 0) by (nonlinear_arith);
    } else {
        let head = pcts.drop_last();
        let p = pcts.last();
        lemma_terms_sum_bound(w, head);
        lemma_split_sum_nonneg(head);
        assert(w * p >= 0) by (nonlinear_arith)
            requires
                w >= 0,
                p >= 0,
        ;
        assert(w * split_sum(head) >= 0) by (nonlinear_arith)
            requires
                w >= 0,
                split_sum(head) >= 0,
        ;
        lemma_div100_add(w * split_sum(head), w * p);
        assert(w * split_sum(head) + w * p == w * (split_sum(head) + p)) by (nonlinear_arith);
        lemma_div100_add(w * p, 0);
    }
}

/// `terms_sum` over a prefix, one more place.
pub proof fn lemma_terms_sum_take(w: u128, pcts: Seq<u8>, k: int)
    requires
        0 <= k < pcts.len(),
    ensures
        terms_sum(w, pcts.take(k + 1)) == terms_sum(w, pcts.take(k)) + pct_of(w, pcts[k]),
{
    assert(pcts.take(k + 1).drop_last() =~= pcts.take(k));
    assert(pcts.take(k + 1).last() == pcts[k]);
}

/// `split_sum` of a prefix is bounded by the whole, so `terms_sum` of a
/// prefix is bounded by the winnings.
pub proof fn lemma_terms_prefix_bound(w: u128, pcts: Seq<u8>, k: int)
    requires
        0 <= k <= pcts.len(),
        split_sum(pcts) <= 100,
    ensures
        terms_sum(w, pcts.take(k)) <= w,
        terms_sum(w, pcts.take(k)) >= 0,
{
    lemma_terms_sum_bound(w, pcts.take(k));
    lemma_split_sum_prefix(pcts, k);
    assert(w * split_sum(pcts.take(k)) <= w * 100) by (nonlinear_arith)
        requires
            split_sum(pcts.take(k)) <= 100,
            w >= 0,
    ;
    vstd::arithmetic::div_mod::lemma_div_is_ordered(w * split_sum(pcts.take(k)), w * 100, 100);
    vstd::arithmetic::div_mod::lemma_div_multiples_vanish(w as int, 100);
}

/// Build the weighted sample pool of a player list.
#[verifier::loop_isolation(false)]
pub fn build_pool(players: &Vec<Player>) -> (r: Vec<u32>)
    requires
        players@.len() <= u32::MAX,
    ensures
        r@ == pool_of(players@),
    decreases players@.len(),
{
    let mut pool: Vec<u32> = Vec::new();
    let n = players.len();
    let mut i: usize = 0;
    while i < n
        invariant
            i <= n,
            pool@ == pool_of(players@.take(i as int)),
        decreases n - i,
    {
        let t = players[i].ticket_count;
        let mut j: u32 = 0;
        while j < t
            invariant
                j <= t,
                pool@ == pool_of(players@.take(i as int)) + Seq::new(j as nat, |q: int| i as u32),
            decreases t - j,
        {
            pool.push(i as u32);
            proof {
                assert(pool@ =~= pool_of(players@.take(i as int)) + Seq::new(
                    (j + 1) as nat,
                    |q: int| i as u32,
                ));
            }
            j += 1;
        }
        proof {
            assert(players@.take(i + 1).drop_last() =~= players@.take(i as int));
            assert(players@.take(i + 1).last() == players@[i as int]);
            assert(pool@ =~= pool_of(players@.take(i + 1)));
        }
        i += 1;
    }
    proof {
        assert(players@.take(n as int) =~= players@);
    }
    pool
}

/// A pool with every entry equal to `x` removed.
pub open spec fn remove_all(s: Seq<u32>, x: u32) -> Seq<u32>
    decreases s.len(),
{
    if s.len() == 0 {
        Seq::empty()
    } else if s.last() == x {
        remove_all(s.drop_last(), x)
    } else {
        remove_all(s.drop_last(), x).push(s.last())
    }
}

/// Removal keeps every other entry and drops the removed one.
pub proof fn lemma_remove_all_elems(s: Seq<u32>, x: u32)
    ensures
        forall|i: int|
            0 <= i < remove_all(s, x).len() ==> (#[trigger] remove_all(s, x)[i]) != x && s.contains(
                remove_all(s, x)[i],
            ),
        remove_all(s, x).to_set() == s.to_set().remove(x),
    decreases s.len(),
{
    let r = remove_all(s, x);
    if s.len() == 0 {
        assert(r.to_set() =~= s.to_set().remove(x));
    } else {
        lemma_remove_all_elems(s.drop_last(), x);
        assert forall|i: int| 0 <= i < r.len() implies (#[trigger] r[i]) != x && s.contains(
            r[i],
        ) by {
            if s.last() != x && i == r.len() - 1 {
                assert(r[i] == s.last());
                assert(s.contains(s.last()));
            } else {
                assert(remove_all(s.drop_last(), x).contains(r[i]));
                let j = choose|j: int|
                    0 <= j < s.drop_last().len() && s.drop_last()[j] == remove_all(
                        s.drop_last(),
                        x,
                    )[i];
                assert(s[j] == r[i]);
            }
        }
        assert(s.to_set() =~= s.drop_last().to_set().insert(s.last())) by {
            lemma_to_set_drop_last(s);
        }
        assert(r.to_set() =~= s.to_set().remove(x)) by {
            if s.last() == x {
                assert(r.to_set() == s.drop_last().to_set().remove(x));
            } else {
                lemma_to_set_drop_last(r);
                assert(r.drop_last() =~= remove_all(s.drop_last(), x));
                assert(r.to_set() == remove_all(s.drop_last(), x).to_set().insert(s.last()));
            }
        }
    }
}

/// A sequence's element set is its dropped prefix's set plus its last element.
proof fn lemma_to_set_drop_last(s: Seq<u32>)
    requires
        s.len() > 0,
    ensures
        s.to_set() == s.drop_last().to_set().insert(s.last()),
{
    assert forall|y: u32| s.to_set().contains(y) implies s.drop_last().to_set().insert(
        s.last(),
    ).contains(y) by {
        let j = choose|j: int| 0 <= j < s.len() && s[j] == y;
        if j < s.len() - 1 {
            assert(s.drop_last()[j] == y);
            assert(s.drop_last().contains(y));
        }
    }
    assert forall|y: u32| s.drop_last().to_set().insert(s.last()).contains(y) implies s.to_set()
        .contains(y) by {
        if s.drop_last().to_set().contains(y) {
            let j = choose|j: int| 0 <= j < s.drop_last().len() && s.drop_last()[j] == y;
            assert(s[j] == y);
        } else {
            assert(s[s.len() - 1] == y);
        }
    }
    assert(s.to_set() =~= s.drop_last().to_set().insert(s.last()));
}

/// Remove every entry equal to `x` from a pool.
#[verifier::loop_isolation(false)]
pub fn remove_all_x(s: &Vec<u32>, x: u32) -> (r: Vec<u32>)
    ensures
        r@ == remove_all(s@, x),
{
    let mut out: Vec<u32> = Vec::new();
    let n = s.len();
    let mut i: usize = 0;
    while i < n
        invariant
            i <= n,
            out@ == remove_all(s@.take(i as int), x),
        decreases n - i,
    {
        proof {
            assert(s@.take(i + 1).drop_last() =~= s@.take(i as int));
            assert(s@.take(i + 1).last() == s@[i as int]);
        }
        if s[i] != x {
            out.push(s[i]);
        }
        i += 1;
    }
    proof {
        assert(s@.take(n as int) =~= s@);
    }
    out
}

/// Derive the per-winner percentages for a round under its config.
#[verifier::loop_isolation(false)]
pub fn calculate_claim_percentages(config: &Config, round: &Round) -> (r: Vec<u8>)
    requires
        config_valid(*config),
    ensures
        r@ == spec_claim_pcts(config.selection.method, round.counts.wallets),
{
    match &config.selection.method {
        WinnerSelectionMethod::Fixed(split) => {
            let wallets = round.counts.wallets;
            let n_winners: usize = if (wallets as usize) < split.len() {
                wallets as usize
            } else {
                split.len()
            };
            let mut out: Vec<u8> = Vec::new();
            let mut i: usize = 0;
            while i < n_winners
                invariant
                    i <= n_winners,
                    out@ == split@.take(i as int),
                decreases n_winners - i,
            {
                out.push(split[i]);
                proof {
                    assert(out@ =~= split@.take(i + 1));
                }
                i += 1;
            }
            out
        },
        WinnerSelectionMethod::Percent { pct, max } => {
            let wallets = round.counts.wallets;
            proof {
                assert((wallets as int) * (*pct as int) <= (u32::MAX as int) * 100) by (nonlinear_arith)
                    requires
                        wallets <= u32::MAX,
                        *pct <= 100,
                ;
            }
            let base: u64 = (wallets as u64) * (*pct as u64) / 100;
            proof {
                assert((wallets as int) * (*pct as int) / 100 <= (wallets as int) * 100 / 100) by {
                    assert((wallets as int) * (*pct as int) <= (wallets as int) * 100) by (nonlinear_arith)
                        requires
                            *pct <= 100,
                            wallets >= 0,
                    ;
                    vstd::arithmetic::div_mod::lemma_div_is_ordered(
                        (wallets as int) * (*pct as int),
                        (wallets as int) * 100,
                        100,
                    );
                }
                vstd::arithmetic::div_mod::lemma_div_multiples_vanish(wallets as int, 100);
                assert(base <= wallets);
            }
            let mut n: u64 = if base < 1 {
                1
            } else {
                base
            };
            if let Some(m) = max {
                if *m > 0 && n > (*m as u64) {
                    n = *m as u64;
                }
            }
            proof {
                assert(n == spec_winner_count(config.selection.method, wallets));
            }
            let each = (100 / n) as u8;
            let count = n as usize;
            let mut out: Vec<u8> = Vec::new();
            let mut i: usize = 0;
            while i < count
                invariant
                    i <= count,
                    out@ =~= Seq::new(i as nat, |q: int| each),
                decreases count - i,
            {
                out.push(each);
                proof {
                    assert(out@ =~= Seq::new((i + 1) as nat, |q: int| each));
                }
                i += 1;
            }
            proof {
                assert(out@ =~= spec_claim_pcts(config.selection.method, wallets));
            }
            out
        },
    }
}

/// One draw: take the refilled pool if the working pool is exhausted, draw a
/// uniformly random pool index, and (without replacement) remove the drawn
/// position's entries.  Yields the new generator state, the new pool and the
/// drawn position.
pub open spec fn draw_once(s: u64, pool: Seq<u32>, full: Seq<u32>, wr: bool) -> (u64, Seq<u32>, u32) {
    let p = if pool.len() == 0 {
        full
    } else {
        pool
    };
    let s2 = rng_step(s);
    let out = rng_mix(s2);
    let idx = out as int % p.len() as int;
    let pos = p[idx];
    let p2 = if wr {
        p
    } else {
        remove_all(p, pos)
    };
    (s2, p2, pos)
}

/// Generator state, working pool and drawn positions after `k` draws.
pub open spec fn draw_state(s0: u64, pool0: Seq<u32>, full: Seq<u32>, wr: bool, k: nat) -> (
    u64,
    Seq<u32>,
    Seq<u32>,
)
    decreases k,
{
    if k == 0 {
        (s0, pool0, Seq::<u32>::empty())
    } else {
        let prev = draw_state(s0, pool0, full, wr, (k - 1) as nat);
        let step = draw_once(prev.0, prev.1, full, wr);
        (step.0, step.1, prev.2.push(step.2))
    }
}

/// The player positions a finalized seed draws out of a pool, in draw order.
/// A pure function of the seed value, the pool and the winner count: the
/// whole selection is reproducible from them.
pub open spec fn drawn_positions(seed_val: u64, pool: Seq<u32>, wr: bool, n: nat) -> Seq<u32> {
    draw_state(seed_val, pool, pool, wr, n).2
}

/// The claims ledger after crediting each drawn position's player with its
/// place's share of the winnings.
pub open spec fn winner_claims(
    cv: Seq<ClaimV>,
    players: Seq<Player>,
    ps: Seq<u32>,
    pcts: Seq<u8>,
    winnings: u128,
) -> Seq<ClaimV>
    decreases ps.len(),
{
    if ps.len() == 0 {
        cv
    } else {
        let prev = winner_claims(cv, players, ps.drop_last(), pcts, winnings);
        upsert_v(
            prev,
            players[ps.last() as int].wallet@,
            pct_of(winnings, pcts[ps.len() - 1]) as u128,
        )
    }
}

/// Seed a generator from the finalized seed, draw the winners and credit
/// their claims.  The resulting ledger is a pure function of the ledger
/// before, the player list, the config, the winnings and the seed: the draw
/// is deterministic and bit-for-bit reproducible.
#[verifier::loop_isolation(false)]
pub fn pick_winners_and_upsert_claims(
    claims: &mut Vec<Claim>,
    players: &Vec<Player>,
    config: &Config,
    round: &Round,
    balance: u128,
    seed: &Vec<u8>,
) -> (r: Result<(), ContractError>)
    requires
        seed_wf(seed@),
        config_valid(*config),
        players@.len() == round.counts.wallets,
        pool_of(players@).len() > 0,
        balance * 100 <= u128::MAX,
        forall|i: int|
            0 <= i < old(claims)@.len() ==> #[trigger] claims_view(old(claims)@)[i].amount
                + balance <= u128::MAX,
    ensures
        r == Ok::<(), ContractError>(()),
        claims_view(final(claims)@) == winner_claims(
            claims_view(old(claims)@),
            players@,
            drawn_positions(
                seed_int(seed@) as u64,
                pool_of(players@),
                config.selection.with_replacement,
                spec_claim_pcts(config.selection.method, round.counts.wallets).len() as nat,
            ),
            spec_claim_pcts(config.selection.method, round.counts.wallets),
            balance,
        ),
{
    let mut rng = match Prng::from_seed(seed) {
        Ok(r) => r,
        Err(e) => {
            proof {
                assert(false);
            }
            return Err(e);
        },
    };
    let mut pool = build_pool(players);
    let ghost full = pool@;
    let ghost s0 = rng.state;
    let wr = config.selection.with_replacement;
    let pcts = calculate_claim_percentages(config, round);
    let n = pcts.len();
    let ghost cv0 = claims_view(claims@);
    let ghost mut drawn: Seq<u32> = Seq::empty();
    proof {
        lemma_claim_pcts_sum(config.selection.method, round.counts.wallets);
        lemma_pool_elems(players@);
        lemma_terms_prefix_bound(balance, pcts@, 0);
        assert(pcts@.take(0) =~= Seq::<u8>::empty());
    }
    let mut k: usize = 0;
    while k < n
        invariant
            k <= n,
            rng.state == draw_state(s0, full, full, wr, k as nat).0,
            pool@ == draw_state(s0, full, full, wr, k as nat).1,
            drawn == draw_state(s0, full, full, wr, k as nat).2,
            drawn.len() == k,
            claims_view(claims@) == winner_claims(cv0, players@, drawn, pcts@, balance),
            forall|i: int|
                0 <= i < claims_view(claims@).len() ==> #[trigger] claims_view(
                    claims@,
                )[i].amount + (balance - terms_sum(balance, pcts@.take(k as int))) <= u128::MAX,
            terms_sum(balance, pcts@.take(k as int)) >= 0,
            forall|i: int| 0 <= i < pool@.len() ==> (#[trigger] pool@[i]) < players@.len(),
        decreases n - k,
    {
        if pool.len() == 0 {
            pool = build_pool(players);
        }
        let out = rng.next_u64();
        let plen = pool.len() as u64;
        let idx = (out % plen) as usize;
        let pos = pool[idx];
        proof {
            lemma_terms_sum_take(balance, pcts@, k as int);
            lemma_terms_prefix_bound(balance, pcts@, k + 1);
            assert(pct_of(balance, pcts@[k as int]) <= balance - terms_sum(
                balance,
                pcts@.take(k as int),
            ));
            lemma_claim_pcts_elem(config.selection.method, round.counts.wallets);
            assert(balance * pcts@[k as int] <= balance * 100) by (nonlinear_arith)
                requires
                    pcts@[k as int] <= 100,
                    balance >= 0,
            ;
        }
        let amount = apply_pct(balance, pcts[k]);
        proof {
            crate::royalties::lemma_upsert_budget(
                claims_view(claims@),
                players@[pos as int].wallet@,
                amount,
                balance - terms_sum(balance, pcts@.take(k as int)),
            );
        }
        upsert_claim(claims, &players[pos as usize].wallet, amount);
        if !wr {
            pool = remove_all_x(&pool, pos);
        }
        proof {
            let prev = draw_state(s0, full, full, wr, k as nat);
            let step = draw_once(prev.0, prev.1, full, wr);
            assert(draw_state(s0, full, full, wr, (k + 1) as nat).0 == step.0);
            assert(step.2 == pos);
            drawn = drawn.push(pos);
            assert(drawn.drop_last() =~= draw_state(s0, full, full, wr, k as nat).2);
            assert(claims_view(claims@) == winner_claims(cv0, players@, drawn, pcts@, balance));
            if !wr {
                lemma_remove_all_elems(if prev.1.len() == 0 {
                    full
                } else {
                    prev.1
                }, pos);
            }
            assert forall|i: int| 0 <= i < pool@.len() implies (#[trigger] pool@[i])
                < players@.len() by {}
        }
        k += 1;
    }
    proof {
        assert(pcts@.take(n as int) =~= pcts@);
    }
    Ok(())
}


/// Invariant of the draw machine without replacement, while distinct
/// positions remain: every drawn position leaves the pool, so the working
/// pool is always the original pool minus the drawn positions.
proof fn lemma_draw_state_inv(s0: u64, pool0: Seq<u32>, k: nat)
    requires
        pool0.len() > 0,
        k <= pool0.to_set().len(),
    ensures
        ({
            let st = draw_state(s0, pool0, pool0, false, k);
            &&& st.2.len() == k
            &&& st.2.no_duplicates()
            &&& st.1.to_set() == pool0.to_set().difference(st.2.to_set())
            &&& st.1.to_set().len() == pool0.to_set().len() - k
            &&& st.1.to_set().finite()
            &&& forall|i: int| 0 <= i < st.2.len() ==> pool0.to_set().contains(#[trigger] st.2[i])
        }),
    decreases k,
{
    broadcast use vstd::seq_lib::seq_to_set_is_finite;
    broadcast use vstd::set::group_set_axioms;

    let st = draw_state(s0, pool0, pool0, false, k);
    if k == 0 {
        assert(Seq::<u32>::empty().to_set() =~= Set::<u32>::empty());
        assert(st.1.to_set() =~= pool0.to_set().difference(st.2.to_set()));
    } else {
        lemma_draw_state_inv(s0, pool0, (k - 1) as nat);
        let prev = draw_state(s0, pool0, pool0, false, (k - 1) as nat);
        if prev.1.len() == 0 {
            assert(prev.1.to_set() =~= Set::<u32>::empty());
            assert(prev.1.to_set().len() == 0);
            assert(false);
        }
        let p = prev.1;
        let s2 = rng_step(prev.0);
        let out = rng_mix(s2);
        let idx = out as int % p.len() as int;
        vstd::arithmetic::div_mod::lemma_mod_bound(out as int, p.len() as int);
        let pos = p[idx];
        assert(p.contains(pos));
        assert(p.to_set().contains(pos));
        assert(!prev.2.to_set().contains(pos));
        assert(!prev.2.contains(pos));
        assert(st.2 == prev.2.push(pos));
        assert(st.2.no_duplicates()) by {
            assert forall|i: int, j: int|
                0 <= i < st.2.len() && 0 <= j < st.2.len() && i != j implies st.2[i]
                != st.2[j] by {
                if i < st.2.len() - 1 && j < st.2.len() - 1 {
                    assert(st.2[i] == prev.2[i] && st.2[j] == prev.2[j]);
                }
            }
        }
        lemma_to_set_drop_last(st.2);
        assert(st.2.drop_last() =~= prev.2);
        assert(st.2.to_set() == prev.2.to_set().insert(pos));
        lemma_remove_all_elems(p, pos);
        assert(st.1 == remove_all(p, pos));
        assert(st.1.to_set() =~= pool0.to_set().difference(st.2.to_set()));
        assert(p.to_set().remove(pos).len() == p.to_set().len() - 1);
        assert forall|i: int| 0 <= i < st.2.len() implies pool0.to_set().contains(
            #[trigger] st.2[i],
        ) by {
            if i < st.2.len() - 1 {
                assert(st.2[i] == prev.2[i]);
            } else {
                assert(st.2[i] == pos);
            }
        }
    }
}

/// Selection without replacement: as long as the winner count does not
/// exceed the number of distinct positions in the pool, no position is ever
/// drawn twice.
pub proof fn lemma_selection_without_replacement(seed_val: u64, pool: Seq<u32>, n: nat)
    requires
        pool.len() > 0,
        n <= pool.to_set().len(),
    ensures
        drawn_positions(seed_val, pool, false, n).no_duplicates(),
        forall|i: int|
            0 <= i < drawn_positions(seed_val, pool, false, n).len() ==> pool.to_set().contains(
                #[trigger] drawn_positions(seed_val, pool, false, n)[i],
            ),
{
    lemma_draw_state_inv(seed_val, pool, n);
}

} // verus!
