use vstd::prelude::*;

use crate::bytes::{bytes_eq, bytes_lt, clone_bytes, lex_lt};
use crate::error::ContractError;
use crate::incentive::{Incentive, Reward};
use crate::lottery::LotteryStatus;
use crate::player::{lemma_sum_tickets_ge_len, players_view, Player, PlayerV};
use crate::random::{seed_finalize, seed_int, spec_seed_finalize};
use crate::round::{
    config_valid, pct_sum, pot_size, royalty_sum, spec_should_end, Config, Round, RoundStatus,
    RoyaltyRecipient, WinnerSelectionMethod,
};
use crate::royalties::{claims_view, lemma_upsert_unique, upsert_claim, upsert_v, Claim, ClaimV};
use crate::selection::{
    drawn_positions, lemma_pool_len, pick_winners_and_upsert_claims, pool_of, spec_claim_pcts,
    winner_claims,
};
use crate::state::{
    claims_unique, find_player, has_player, lemma_player_index_hit, lemma_player_le_sum,
    load_round, player_index, players_sorted, state_wf, RoundData, State,
};
use crate::ticket_order::{OrderEntry, TicketOrder};
use crate::utils::{apply_pct, pct_of};

verus! {

/// The config governing the current round.
pub open spec fn cur_config(s: State) -> Config {
    s.lottery.rounds.configs@[s.lottery.rounds.index as int % s.lottery.rounds.configs@.len() as int]
}

/// The current round's data.
pub open spec fn cur_round_data(s: State) -> RoundData {
    s.rounds@[s.lottery.rounds.index as int]
}

/// The current round's pot: its ticket revenue.
pub open spec fn cur_pot(s: State) -> int {
    pot_size(cur_round_data(s).round.counts.tickets, cur_config(s).ticket_price)
}

/// The arithmetic headroom a settlement needs: the pot (times the largest
/// percentage factor) and every claim credited out of it stay within the
/// machine's integers.
pub open spec fn end_arith_ok(s: State) -> bool {
    &&& cur_pot(s) * 100 <= u128::MAX
    &&& forall|i: int|
        0 <= i < s.claims@.len() ==> #[trigger] claims_view(s.claims@)[i].amount + cur_pot(s)
            <= u128::MAX
}

/// The ledger after crediting every non-autosend royalty recipient with its
/// percentage of the pot.
pub open spec fn royalty_claims(cv: Seq<ClaimV>, rs: Seq<RoyaltyRecipient>, total: u128) -> Seq<
    ClaimV,
>
    decreases rs.len(),
{
    if rs.len() == 0 {
        cv
    } else {
        let prev = royalty_claims(cv, rs.drop_last(), total);
        let r = rs.last();
        if r.autosend == Some(true) {
            prev
        } else {
            upsert_v(prev, r.address@, pct_of(total, r.pct) as u128)
        }
    }
}

/// What the non-autosend royalty recipients are credited in all.
pub open spec fn credited_sum(rs: Seq<RoyaltyRecipient>, total: u128) -> int
    decreases rs.len(),
{
    if rs.len() == 0 {
        0
    } else {
        credited_sum(rs.drop_last(), total) + if rs.last().autosend == Some(true) {
            0
        } else {
            pct_of(total, rs.last().pct)
        }
    }
}

proof fn lemma_credited_le_roysum(rs: Seq<RoyaltyRecipient>, total: u128)
    ensures
        0 <= credited_sum(rs, total),
        credited_sum(rs, total) <= royalty_sum(rs, total),
    decreases rs.len(),
{
    if rs.len() > 0 {
        lemma_credited_le_roysum(rs.drop_last(), total);
        assert(total * rs.last().pct >= 0) by (nonlinear_arith)
            requires
                total >= 0,
                rs.last().pct >= 0,
        ;
        crate::round::lemma_div100_add(total * rs.last().pct, 0);
    }
}

proof fn lemma_royalty_sum_prefix_le_total(rs: Seq<RoyaltyRecipient>, total: u128, k: int)
    requires
        0 <= k <= rs.len(),
        pct_sum(rs) <= 100,
    ensures
        royalty_sum(rs.take(k), total) <= total,
        0 <= credited_sum(rs.take(k), total),
        credited_sum(rs.take(k), total) <= royalty_sum(rs.take(k), total),
{
    crate::round::lemma_royalty_sum_bound(rs.take(k), total);
    crate::round::lemma_pct_sum_prefix(rs, k);
    assert(total * pct_sum(rs.take(k)) <= total * 100) by (nonlinear_arith)
        requires
            pct_sum(rs.take(k)) <= 100,
            total >= 0,
    ;
    vstd::arithmetic::div_mod::lemma_div_is_ordered(
        total * pct_sum(rs.take(k)),
        total * 100,
        100,
    );
    vstd::arithmetic::div_mod::lemma_div_multiples_vanish(total as int, 100);
    lemma_credited_le_roysum(rs.take(k), total);
}

/// Royalty crediting keeps the ledger's wallets unique.
proof fn lemma_royalty_claims_unique(cv: Seq<ClaimV>, rs: Seq<RoyaltyRecipient>, total: u128)
    requires
        claims_unique(cv),
    ensures
        claims_unique(royalty_claims(cv, rs, total)),
    decreases rs.len(),
{
    if rs.len() > 0 {
        lemma_royalty_claims_unique(cv, rs.drop_last(), total);
        if !(rs.last().autosend == Some(true)) {
            lemma_upsert_unique(
                royalty_claims(cv, rs.drop_last(), total),
                rs.last().address@,
                pct_of(total, rs.last().pct) as u128,
            );
        }
    }
}

/// Winner crediting keeps the ledger's wallets unique.
proof fn lemma_winner_claims_unique(
    cv: Seq<ClaimV>,
    players: Seq<Player>,
    ps: Seq<u32>,
    pcts: Seq<u8>,
    winnings: u128,
)
    requires
        claims_unique(cv),
    ensures
        claims_unique(winner_claims(cv, players, ps, pcts, winnings)),
    decreases ps.len(),
{
    if ps.len() > 0 {
        lemma_winner_claims_unique(cv, players, ps.drop_last(), pcts, winnings);
        lemma_upsert_unique(
            winner_claims(cv, players, ps.drop_last(), pcts, winnings),
            players[ps.last() as int].wallet@,
            pct_of(winnings, pcts[ps.len() - 1]) as u128,
        );
    }
}

/// Credit each non-autosend royalty recipient with its share of the pot.
#[verifier::loop_isolation(false)]
pub fn upsert_royalty_claims(claims: &mut Vec<Claim>, royalties: &Vec<RoyaltyRecipient>, total: u128)
    requires
        total * 100 <= u128::MAX,
        pct_sum(royalties@) <= 100,
        forall|i: int|
            0 <= i < old(claims)@.len() ==> #[trigger] claims_view(old(claims)@)[i].amount + total
                <= u128::MAX,
    ensures
        claims_view(final(claims)@) == royalty_claims(claims_view(old(claims)@), royalties@, total),
        forall|i: int|
            0 <= i < final(claims)@.len() ==> #[trigger] claims_view(final(claims)@)[i].amount + (
            total - royalty_sum(royalties@, total)) <= u128::MAX,
{
    let ghost cv0 = claims_view(claims@);
    let n = royalties.len();
    let mut k: usize = 0;
    proof {
        assert(royalties@.take(0) =~= Seq::<RoyaltyRecipient>::empty());
    }
    while k < n
        invariant
            k <= n,
            claims_view(claims@) == royalty_claims(cv0, royalties@.take(k as int), total),
            forall|i: int|
                0 <= i < claims@.len() ==> #[trigger] claims_view(claims@)[i].amount + (total
                    - credited_sum(royalties@.take(k as int), total)) <= u128::MAX,
        decreases n - k,
    {
        proof {
            assert(royalties@.take(k + 1).drop_last() =~= royalties@.take(k as int));
            assert(royalties@.take(k + 1).last() == royalties@[k as int]);
            lemma_royalty_sum_prefix_le_total(royalties@, total, k as int);
            lemma_royalty_sum_prefix_le_total(royalties@, total, k + 1);
            crate::round::lemma_pct_elem_le_sum(royalties@, k as int);
            assert(total * royalties@[k as int].pct <= total * 100) by (nonlinear_arith)
                requires
                    royalties@[k as int].pct <= 100,
                    total >= 0,
            ;
        }
        let autosend = match royalties[k].autosend {
            Some(b) => b,
            None => false,
        };
        if !autosend {
            let amount = apply_pct(total, royalties[k].pct);
            proof {
                crate::royalties::lemma_upsert_budget(
                    claims_view(claims@),
                    royalties@[k as int].address@,
                    amount,
                    total - credited_sum(royalties@.take(k as int), total),
                );
            }
            upsert_claim(claims, &royalties[k].address, amount);
        }
        k += 1;
    }
    proof {
        assert(royalties@.take(n as int) =~= royalties@);
        lemma_credited_le_roysum(royalties@, total);
    }
}

/// The autosend royalty recipients of a config, in config order.
pub open spec fn autosend_of(rs: Seq<RoyaltyRecipient>) -> Seq<RoyaltyRecipient>
    decreases rs.len(),
{
    if rs.len() == 0 {
        Seq::empty()
    } else {
        let prev = autosend_of(rs.drop_last());
        if rs.last().autosend == Some(true) {
            prev.push(rs.last())
        } else {
            prev
        }
    }
}

/// Field-level equality of royalty lists.
pub open spec fn royalties_match(a: Seq<RoyaltyRecipient>, b: Seq<RoyaltyRecipient>) -> bool {
    &&& a.len() == b.len()
    &&& forall|i: int|
        0 <= i < a.len() ==> (#[trigger] a[i]).address@ == (#[trigger] b[i]).address@
            && a[i].autosend == b[i].autosend && a[i].pct == b[i].pct
}

/// Collect the autosend royalty recipients of a config.
#[verifier::loop_isolation(false)]
fn collect_autosend(royalties: &Vec<RoyaltyRecipient>) -> (r: Vec<RoyaltyRecipient>)
    ensures
        royalties_match(r@, autosend_of(royalties@)),
{
    let mut out: Vec<RoyaltyRecipient> = Vec::new();
    let n = royalties.len();
    let mut k: usize = 0;
    proof {
        assert(royalties@.take(0) =~= Seq::<RoyaltyRecipient>::empty());
    }
    while k < n
        invariant
            k <= n,
            royalties_match(out@, autosend_of(royalties@.take(k as int))),
        decreases n - k,
    {
        proof {
            assert(royalties@.take(k + 1).drop_last() =~= royalties@.take(k as int));
            assert(royalties@.take(k + 1).last() == royalties@[k as int]);
        }
        let autosend = match royalties[k].autosend {
            Some(b) => b,
            None => false,
        };
        if autosend {
            out.push(
                RoyaltyRecipient {
                    address: clone_bytes(&royalties[k].address),
                    autosend: royalties[k].autosend,
                    pct: royalties[k].pct,
                },
            );
        }
        k += 1;
    }
    proof {
        assert(royalties@.take(n as int) =~= royalties@);
    }
    out
}

/// How a completed settlement relates the state after to the state before:
/// the round is marked complete by the ending actor, the lottery either
/// completes or opens the next active round, the seed is finalized, and the
/// claims ledger gains the non-autosend royalties and the drawn winners'
/// shares — all of it a pure function of the state before and the ending
/// actor, time and height.
pub open spec fn completed_round_spec(
    pre: State,
    post: State,
    sender: Seq<u8>,
    time: u64,
    height: u64,
) -> bool {
    let idx = pre.lottery.rounds.index as int;
    let rd = pre.rounds@[idx];
    let cfg = cur_config(pre);
    let pot = cur_pot(pre) as u128;
    let roysum = royalty_sum(cfg.royalties@, pot);
    let winnings = (pot - roysum) as u128;
    let newseed = spec_seed_finalize(pre.seed@, sender, height);
    let pcts = spec_claim_pcts(cfg.selection.method, rd.round.counts.wallets);
    let is_final = idx == pre.lottery.rounds.count - 1;
    &&& post.seed@ == newseed
    &&& claims_view(post.claims@) == winner_claims(
        royalty_claims(claims_view(pre.claims@), cfg.royalties@, pot),
        rd.players@,
        drawn_positions(
            seed_int(newseed) as u64,
            pool_of(rd.players@),
            cfg.selection.with_replacement,
            pcts.len() as nat,
        ),
        pcts,
        winnings,
    )
    &&& post.rounds@[idx].round.status == RoundStatus::Complete
    &&& post.rounds@[idx].round.ended_by matches Some(w) && w@ == sender
    &&& post.rounds@[idx].round.counts == rd.round.counts
    &&& post.rounds@[idx].round.started_at == rd.round.started_at
    &&& post.rounds@[idx].round.index == rd.round.index
    &&& post.rounds@[idx].players@ == rd.players@
    &&& post.rounds@[idx].orders@ == rd.orders@
    &&& post.rounds@[idx].incentives@ == rd.incentives@
    &&& post.rounds@[idx].winners@ == rd.winners@
    &&& post.lottery.owner@ == pre.lottery.owner@
    &&& post.lottery.name == pre.lottery.name
    &&& post.lottery.tournament == pre.lottery.tournament
    &&& post.lottery.rounds.configs@ == pre.lottery.rounds.configs@
    &&& post.lottery.rounds.count == pre.lottery.rounds.count
    &&& if is_final {
        &&& post.lottery.status == LotteryStatus::Complete
        &&& post.lottery.rounds.index == idx
        &&& post.rounds@.len() == pre.rounds@.len()
    } else {
        &&& post.lottery.status == pre.lottery.status
        &&& post.lottery.rounds.index == idx + 1
        &&& post.rounds@.len() == pre.rounds@.len() + 1
        &&& post.rounds@.last().round.status == RoundStatus::Active
        &&& post.rounds@.last().round.started_at == Some(time)
        &&& post.rounds@.last().round.index == idx + 1
        &&& post.rounds@.last().round.ended_by is None
        &&& post.rounds@.last().round.counts == (crate::round::Counts {
            drawings: 0,
            wallets: 0,
            tickets: 0,
            orders: 0,
        })
        &&& post.rounds@.last().players@.len() == 0
        &&& post.rounds@.last().orders@.len() == 0
        &&& post.rounds@.last().incentives@.len() == 0
        &&& post.rounds@.last().winners@.len() == 0
    }
    &&& forall|q: int| 0 <= q < pre.rounds@.len() && q != idx ==> post.rounds@[q] == pre.rounds@[q]
}

/// What ending the current round does, for every case: a non-active round is
/// refused; a round with no participating wallets is silently absorbed; a
/// one-wallet round is absorbed too (its refund mechanics are a stub); any
/// other round settles, and the autosend royalty recipients come back for
/// the caller to pay out immediately.
pub open spec fn end_round_spec(
    pre: State,
    post: State,
    sender: Seq<u8>,
    time: u64,
    height: u64,
    r: Result<Vec<RoyaltyRecipient>, ContractError>,
) -> bool {
    let rd = cur_round_data(pre);
    if rd.round.status != RoundStatus::Active {
        r == Err::<Vec<RoyaltyRecipient>, ContractError>(ContractError::NotActive) && post == pre
    } else if rd.round.counts.wallets == 0 || rd.round.counts.wallets == 1 {
        (r matches Ok(v) && v@.len() == 0) && post == pre
    } else {
        completed_round_spec(pre, post, sender, time, height) && (r matches Ok(v)
            && royalties_match(v@, autosend_of(cur_config(pre).royalties@)))
    }
}

/// End the current round: mark it complete, open the next round (or complete
/// the lottery), finalize the entropy seed, credit royalty claims and draw
/// the winners' claims.
pub fn end_round(state: &mut State, sender: &Vec<u8>, block_time: u64, block_height: u64) -> (r:
    Result<Vec<RoyaltyRecipient>, ContractError>)
    requires
        state_wf(*old(state)),
        end_arith_ok(*old(state)),
    ensures
        state_wf(*final(state)),
        end_round_spec(*old(state), *final(state), sender@, block_time, block_height, r),
{
    let idx = state.lottery.rounds.index as usize;
    let ghost pre = *state;
    if !state.rounds[idx].round.is_active() {
        return Err(ContractError::NotActive);
    }
    let wallets = state.rounds[idx].round.counts.wallets;
    if wallets == 0 {
        return Ok(Vec::new());
    }
    if wallets == 1 {
        // refund stubs: a one-wallet round is absorbed without a draw
        return Ok(Vec::new());
    }
    let ci = state.lottery.get_config_index();
    proof {
        assert(config_valid(cur_config(pre)));
    }
    let pot = state.rounds[idx].round.get_pot_size(&state.lottery.rounds.configs[ci]);
    let total_royalty = state.rounds[idx].round.get_total_royalty_amount(
        &state.lottery.rounds.configs[ci],
        pot,
    );
    let winnings = pot - total_royalty;

    // end the current round
    state.rounds[idx].round.ended_by = Some(clone_bytes(sender));
    state.rounds[idx].round.status = RoundStatus::Complete;

    // advance the lottery: complete it after the final round, else open the
    // next active round
    let is_final_round = state.lottery.rounds.index == state.lottery.rounds.count - 1;
    if is_final_round {
        state.lottery.status = LotteryStatus::Complete;
    } else {
        let next_round_index = state.lottery.rounds.index + 1;
        state.lottery.rounds.index = next_round_index;
        state.rounds.push(
            RoundData {
                round: Round::new(block_time, true, next_round_index),
                players: Vec::new(),
                orders: Vec::new(),
                incentives: Vec::new(),
                winners: Vec::new(),
            },
        );
    }

    // finalize and persist the seed that drives this draw and seeds the next
    // round
    let new_seed = seed_finalize(&state.seed, sender, block_height);
    state.seed = new_seed;

    // credit claims for every non-autosend royalty recipient
    upsert_royalty_claims(&mut state.claims, &state.lottery.rounds.configs[ci].royalties, pot);

    // draw the winners and credit their claims
    proof {
        lemma_pool_len(pre.rounds@[idx as int].players@);
        lemma_sum_tickets_ge_len(pre.rounds@[idx as int].players@);
        crate::round::lemma_royalty_sum_bound(cur_config(pre).royalties@, pot);
    }
    let rr = pick_winners_and_upsert_claims(
        &mut state.claims,
        &state.rounds[idx].players,
        &state.lottery.rounds.configs[ci],
        &state.rounds[idx].round,
        winnings,
        &state.seed,
    );
    match rr {
        Ok(_) => {},
        Err(e) => {
            proof {
                assert(false);
            }
            return Err(e);
        },
    }

    // the caller pays the autosend royalty recipients out immediately
    let royalties = collect_autosend(&state.lottery.rounds.configs[ci].royalties);
    proof {
        lemma_royalty_claims_unique(claims_view(pre.claims@), cur_config(pre).royalties@, pot);
        lemma_winner_claims_unique(
            royalty_claims(claims_view(pre.claims@), cur_config(pre).royalties@, pot),
            pre.rounds@[idx as int].players@,
            drawn_positions(
                seed_int(state.seed@) as u64,
                pool_of(pre.rounds@[idx as int].players@),
                cur_config(pre).selection.with_replacement,
                spec_claim_pcts(
                    cur_config(pre).selection.method,
                    pre.rounds@[idx as int].round.counts.wallets,
                ).len() as nat,
            ),
            spec_claim_pcts(
                cur_config(pre).selection.method,
                pre.rounds@[idx as int].round.counts.wallets,
            ),
            winnings,
        );
    }
    Ok(royalties)
}


/// Where a wallet's row stands, or would be inserted, in a sorted player
/// table: the length of the leading run of smaller wallets.
pub open spec fn insert_pos(ps: Seq<Player>, w: Seq<u8>) -> int
    decreases ps.len(),
{
    if ps.len() == 0 {
        0
    } else if lex_lt(ps[0].wallet@, w) {
        1 + insert_pos(ps.skip(1), w)
    } else {
        0
    }
}

proof fn lemma_insert_pos_char(ps: Seq<Player>, w: Seq<u8>, p: int)
    requires
        0 <= p <= ps.len(),
        forall|j: int| 0 <= j < p ==> lex_lt((#[trigger] ps[j]).wallet@, w),
        p < ps.len() ==> !lex_lt(ps[p].wallet@, w),
    ensures
        insert_pos(ps, w) == p,
    decreases p,
{
    if p > 0 {
        lemma_insert_pos_char(ps.skip(1), w, p - 1);
        assert(forall|j: int| 0 <= j < p - 1 ==> ps.skip(1)[j] == ps[j + 1]);
        if p - 1 < ps.skip(1).len() {
            assert(ps.skip(1)[p - 1] == ps[p]);
        }
    }
}

/// The player table after a purchase: the buyer's row gains the tickets and
/// the order index, or a fresh row is inserted at the buyer's sorted
/// position.
pub open spec fn purchase_players(ps: Seq<Player>, w: Seq<u8>, count: u32, order_index: u32) -> Seq<
    PlayerV,
> {
    match player_index(ps, w) {
        Some(i) => players_view(ps).update(
            i,
            PlayerV {
                wallet: w,
                ticket_count: (ps[i].ticket_count + count) as u32,
                order_indices: ps[i].order_indices@.push(order_index),
            },
        ),
        None => players_view(ps).insert(
            insert_pos(ps, w),
            PlayerV { wallet: w, ticket_count: count, order_indices: seq![order_index] },
        ),
    }
}

/// The drawings count recorded on a purchase, from the pre-purchase wallet
/// count: the fixed split's full length, or the percent-based winner count.
pub open spec fn spec_updated_drawings(method: WinnerSelectionMethod, wallets: u32) -> int {
    match method {
        WinnerSelectionMethod::Fixed(split) => split@.len() as int,
        WinnerSelectionMethod::Percent { pct, max } => crate::selection::spec_winner_count(
            method,
            wallets,
        ),
    }
}

/// Recompute the round's drawings count after a purchase.
fn get_updated_winner_count(config: &Config, round: &Round) -> (r: u32)
    requires
        config_valid(*config),
    ensures
        r == spec_updated_drawings(config.selection.method, round.counts.wallets),
{
    match &config.selection.method {
        WinnerSelectionMethod::Fixed(split) => split.len() as u32,
        WinnerSelectionMethod::Percent { pct, max } => {
            let wallets = round.counts.wallets;
            proof {
                assert((wallets as int) * (*pct as int) <= (u32::MAX as int) * 100)
                    by (nonlinear_arith)
                    requires
                        wallets <= u32::MAX,
                        *pct <= 100,
                ;
            }
            let base: u64 = (wallets as u64) * (*pct as u64) / 100;
            let mut n: u64 = if base < 1 {
                1
            } else {
                base
            };
            if let Some(m) = max {
                if *m > 0 && n > (*m as u64) {
                    n = *m as u64;
                }
            }
            proof {
                assert((wallets as int) * (*pct as int) / 100 <= (wallets as int) * 100 / 100) by {
                    assert((wallets as int) * (*pct as int) <= (wallets as int) * 100)
                        by (nonlinear_arith)
                        requires
                            *pct <= 100,
                            wallets >= 0,
                    ;
                    vstd::arithmetic::div_mod::lemma_div_is_ordered(
                        (wallets as int) * (*pct as int),
                        (wallets as int) * 100,
                        100,
                    );
                }
                vstd::arithmetic::div_mod::lemma_div_multiples_vanish(wallets as int, 100);
                assert(n <= u32::MAX);
            }
            n as u32
        },
    }
}

/// The bytes the entropy accumulator folds for an order message.
pub open spec fn msg_bytes(m: Option<String>) -> Option<Seq<u8>> {
    match m {
        Some(s) => Some(vstd::utf8::encode_utf8(s@)),
        None => None,
    }
}

/// How the state right after a purchase is applied relates to the state
/// before: the buyer's row and the round counts grow, the order is recorded
/// under the next order index, and the purchase is folded into the running
/// seed.  Nothing else moves.
pub open spec fn purchase_effects(
    pre: State,
    post: State,
    sender: Seq<u8>,
    count: u32,
    message: Option<String>,
    is_public: bool,
    height: u64,
) -> bool {
    let idx = pre.lottery.rounds.index as int;
    let rd = pre.rounds@[idx];
    let cfg = cur_config(pre);
    let order_index = rd.round.counts.orders;
    let existing = player_index(rd.players@, sender);
    &&& post.lottery == pre.lottery
    &&& post.claims@ == pre.claims@
    &&& post.rounds@.len() == pre.rounds@.len()
    &&& forall|q: int| 0 <= q < pre.rounds@.len() && q != idx ==> post.rounds@[q] == pre.rounds@[q]
    &&& players_view(post.rounds@[idx].players@) == purchase_players(
        rd.players@,
        sender,
        count,
        order_index,
    )
    &&& post.rounds@[idx].round.counts.tickets == rd.round.counts.tickets + count
    &&& post.rounds@[idx].round.counts.orders == order_index + 1
    &&& post.rounds@[idx].round.counts.wallets == rd.round.counts.wallets + (
    if existing is Some {
        0int
    } else {
        1int
    })
    &&& post.rounds@[idx].round.counts.drawings == spec_updated_drawings(
        cfg.selection.method,
        rd.round.counts.wallets,
    )
    &&& post.rounds@[idx].round.status == rd.round.status
    &&& post.rounds@[idx].round.started_at == rd.round.started_at
    &&& post.rounds@[idx].round.ended_by == rd.round.ended_by
    &&& post.rounds@[idx].round.index == rd.round.index
    &&& post.rounds@[idx].orders@.len() == rd.orders@.len() + 1
    &&& post.rounds@[idx].orders@.drop_last() == rd.orders@
    &&& post.rounds@[idx].orders@.last().index == order_index
    &&& post.rounds@[idx].orders@.last().order.wallet@ == sender
    &&& post.rounds@[idx].orders@.last().order.ticket_count == count
    &&& post.rounds@[idx].orders@.last().order.message == message
    &&& post.rounds@[idx].orders@.last().order.is_public == is_public
    &&& post.rounds@[idx].incentives@ == rd.incentives@
    &&& post.rounds@[idx].winners@ == rd.winners@
    &&& post.seed@ == crate::random::spec_seed_update(
        pre.seed@,
        sender,
        count,
        height,
        msg_bytes(message),
    )
}

/// Buy tickets in the current round: reject an inactive round, a tournament
/// entry without a prior-round player row, and a purchase past the per
/// wallet cap, all without touching state; otherwise apply the purchase and,
/// if the round's end condition is now met, settle the round.
///
/// The contract names the purchase-applied state `mid`: [`purchase_effects`]
/// pins everything observable about it, and the settlement relation then
/// pins the final state against `mid`, so the whole outcome is a function of
/// the state before, the buyer, the order and the block.
#[verifier::loop_isolation(false)]
pub fn buy_tickets(
    state: &mut State,
    sender: &Vec<u8>,
    order_ticket_count: u32,
    message: Option<String>,
    is_public: bool,
    block_time: u64,
    block_height: u64,
) -> (r: Result<Vec<RoyaltyRecipient>, ContractError>)
    requires
        state_wf(*old(state)),
        order_ticket_count >= 1,
        cur_round_data(*old(state)).round.counts.tickets + order_ticket_count <= u32::MAX,
        cur_round_data(*old(state)).round.counts.orders + 1 <= u32::MAX,
        cur_round_data(*old(state)).round.counts.wallets + 1 <= u32::MAX,
        (cur_round_data(*old(state)).round.counts.tickets + order_ticket_count) * cur_config(
            *old(state),
        ).ticket_price * 100 <= u128::MAX,
        forall|i: int|
            0 <= i < old(state).claims@.len() ==> #[trigger] claims_view(
                old(state).claims@,
            )[i].amount + (cur_round_data(*old(state)).round.counts.tickets + order_ticket_count)
                * cur_config(*old(state)).ticket_price <= u128::MAX,
    ensures
        state_wf(*final(state)),
        ({
            let pre = *old(state);
            let idx = pre.lottery.rounds.index as int;
            let rd = cur_round_data(pre);
            let cfg = cur_config(pre);
            let ci = idx % pre.lottery.rounds.configs@.len() as int;
            let gated = pre.lottery.tournament == Some(true) && ci > 0 && !has_player(
                pre.rounds@[idx - 1].players@,
                sender@,
            );
            let new_total = (match player_index(rd.players@, sender@) {
                Some(i) => rd.players@[i].ticket_count as int,
                None => 0int,
            }) + order_ticket_count;
            let capped = cfg.max_tickets_per_wallet matches Some(m) && new_total > m;
            if rd.round.status != RoundStatus::Active {
                r == Err::<Vec<RoyaltyRecipient>, ContractError>(ContractError::InactiveRound)
                    && *final(state) == pre
            } else if gated {
                r == Err::<Vec<RoyaltyRecipient>, ContractError>(ContractError::Forbidden)
                    && *final(state) == pre
            } else if capped {
                (cfg.max_tickets_per_wallet matches Some(m) && r == Err::<
                    Vec<RoyaltyRecipient>,
                    ContractError,
                >(ContractError::TooManyTickets { max_tickets_per_wallet: m })) && *final(state)
                    == pre
            } else {
                exists|mid: State|
                    {
                        &&& #[trigger] purchase_effects(
                            pre,
                            mid,
                            sender@,
                            order_ticket_count,
                            message,
                            is_public,
                            block_height,
                        )
                        &&& if spec_should_end(mid.rounds@[idx].round, cfg, block_time) {
                            end_round_spec(
                                mid,
                                *final(state),
                                sender@,
                                block_time,
                                block_height,
                                r,
                            )
                        } else {
                            *final(state) == mid && (r matches Ok(v) && v@.len() == 0)
                        }
                    }
            }
        }),
{
    let ghost pre = *state;
    let idx = state.lottery.rounds.index as usize;
    if !state.rounds[idx].round.is_active() {
        return Err(ContractError::InactiveRound);
    }
    let ci = state.lottery.get_config_index();
    let tournament = match state.lottery.tournament {
        Some(b) => b,
        None => false,
    };
    if tournament && ci > 0 {
        proof {
            if idx == 0 {
                vstd::arithmetic::div_mod::lemma_small_mod(
                    0nat,
                    pre.lottery.rounds.configs@.len() as nat,
                );
            }
        }
        match find_player(&state.rounds[idx - 1].players, sender) {
            Some(_) => {},
            None => {
                return Err(ContractError::Forbidden);
            },
        }
    }
    let existing = find_player(&state.rounds[idx].players, sender);
    let prior: u32 = match existing {
        Some(i) => {
            proof {
                lemma_player_le_sum(pre.rounds@[idx as int].players@, i as int);
            }
            state.rounds[idx].players[i].ticket_count
        },
        None => 0,
    };
    let new_total = prior + order_ticket_count;
    if let Some(m) = state.lottery.rounds.configs[ci].max_tickets_per_wallet {
        if new_total > m {
            return Err(ContractError::TooManyTickets { max_tickets_per_wallet: m });
        }
    }

    // apply the purchase to the current round
    let order_index = state.rounds[idx].round.counts.orders;
    let drawings = get_updated_winner_count(
        &state.lottery.rounds.configs[ci],
        &state.rounds[idx].round,
    );
    let mut rdat = state.rounds.remove(idx);
    rdat.round.counts.tickets = rdat.round.counts.tickets + order_ticket_count;
    rdat.round.counts.drawings = drawings;
    rdat.round.counts.orders = order_index + 1;
    match existing {
        Some(i) => {
            let mut pl = rdat.players.remove(i);
            pl.ticket_count = new_total;
            pl.order_indices.push(order_index);
            rdat.players.insert(i, pl);
            proof {
                assert(rdat.players@ =~= pre.rounds@[idx as int].players@.update(
                    i as int,
                    rdat.players@[i as int],
                ));
                crate::player::lemma_sum_tickets_update(
                    pre.rounds@[idx as int].players@,
                    i as int,
                    rdat.players@[i as int],
                );
                assert(players_view(rdat.players@) =~~= purchase_players(
                    pre.rounds@[idx as int].players@,
                    sender@,
                    order_ticket_count,
                    order_index,
                ));
                assert(players_sorted(rdat.players@)) by {
                    assert forall|a: int, b: int|
                        0 <= a < b < rdat.players@.len() implies lex_lt(
                        (#[trigger] rdat.players@[a]).wallet@,
                        (#[trigger] rdat.players@[b]).wallet@,
                    ) by {
                        assert(rdat.players@[a].wallet@ == pre.rounds@[
                            idx as int
                        ].players@[a].wallet@);
                        assert(rdat.players@[b].wallet@ == pre.rounds@[
                            idx as int
                        ].players@[b].wallet@);
                    }
                }
            }
        },
        None => {
            rdat.round.counts.wallets = rdat.round.counts.wallets + 1;
            let n = rdat.players.len();
            let mut p: usize = 0;
            while p < n && bytes_lt(&rdat.players[p].wallet, sender)
                invariant
                    p <= n,
                    forall|j: int| 0 <= j < p ==> lex_lt((#[trigger] rdat.players@[j]).wallet@, sender@),
                decreases n - p,
            {
                p += 1;
            }
            proof {
                lemma_insert_pos_char(rdat.players@, sender@, p as int);
                lemma_player_index_hit(rdat.players@, sender@);
                if (p as int) < rdat.players@.len() {
                    crate::bytes::lemma_lex_total(rdat.players@[p as int].wallet@, sender@);
                }
            }
            let mut first_orders: Vec<u32> = Vec::new();
            first_orders.push(order_index);
            let new_player = Player {
                wallet: clone_bytes(sender),
                ticket_count: order_ticket_count,
                order_indices: first_orders,
            };
            let ghost before = rdat.players@;
            rdat.players.insert(p, new_player);
            proof {
                crate::player::lemma_sum_tickets_insert(before, p as int, new_player);
                assert(players_view(rdat.players@) =~~= purchase_players(
                    before,
                    sender@,
                    order_ticket_count,
                    order_index,
                ));
                assert(players_sorted(rdat.players@)) by {
                    assert forall|a: int, b: int|
                        0 <= a < b < rdat.players@.len() implies lex_lt(
                        (#[trigger] rdat.players@[a]).wallet@,
                        (#[trigger] rdat.players@[b]).wallet@,
                    ) by {
                        let pi = p as int;
                        if b < pi {
                            assert(rdat.players@[a] == before[a] && rdat.players@[b] == before[b]);
                        } else if a > pi {
                            assert(rdat.players@[a] == before[a - 1]);
                            assert(rdat.players@[b] == before[b - 1]);
                        } else if a < pi && b > pi {
                            assert(rdat.players@[a] == before[a]);
                            assert(rdat.players@[b] == before[b - 1]);
                        } else if a == pi {
                            assert(rdat.players@[b] == before[b - 1]);
                            assert(b - 1 >= pi);
                            if b - 1 > pi {
                                crate::bytes::lemma_lex_trans(
                                    sender@,
                                    before[pi].wallet@,
                                    before[b - 1].wallet@,
                                );
                            }
                        } else {
                            assert(b == pi);
                            assert(rdat.players@[a] == before[a]);
                        }
                    }
                }
            }
        },
    }
    let mbytes: Option<Vec<u8>> = match &message {
        Some(m) => Some(m.as_str().as_bytes_vec()),
        None => None,
    };
    rdat.orders.push(
        OrderEntry {
            index: order_index,
            order: TicketOrder {
                wallet: clone_bytes(sender),
                ticket_count: order_ticket_count,
                message,
                is_public,
            },
        },
    );
    proof {
        assert(rdat.orders@.drop_last() =~= pre.rounds@[idx as int].orders@);
    }
    state.rounds.insert(idx, rdat);
    proof {
        assert(state.rounds@ =~= pre.rounds@.update(idx as int, state.rounds@[idx as int]));
    }
    let s2 = crate::random::seed_update(
        &state.seed,
        sender,
        order_ticket_count,
        block_height,
        &mbytes,
    );
    state.seed = s2;
    let ghost mid = *state;
    proof {
        assert(purchase_effects(
            pre,
            mid,
            sender@,
            order_ticket_count,
            message,
            is_public,
            block_height,
        ));
        assert(state_wf(mid));
        assert(cur_pot(mid) == (cur_round_data(pre).round.counts.tickets + order_ticket_count)
            * cur_config(pre).ticket_price);
    }
    let should = state.rounds[idx].round.should_end(
        &state.lottery.rounds.configs[ci],
        block_time,
    );
    if should && state.lottery.rounds.index < state.lottery.rounds.count {
        end_round(state, sender, block_time, block_height)
    } else {
        proof {
            assert(state.lottery.rounds.index < state.lottery.rounds.count);
        }
        Ok(Vec::new())
    }
}

/// Explicitly ask the engine to end the current round: settle it if its end
/// condition is met, otherwise do nothing.
pub fn terminate_round(state: &mut State, sender: &Vec<u8>, block_time: u64, block_height: u64) -> (r: Result<Vec<RoyaltyRecipient>, ContractError>)
    requires
        state_wf(*old(state)),
        end_arith_ok(*old(state)),
    ensures
        state_wf(*final(state)),
        if spec_should_end(cur_round_data(*old(state)).round, cur_config(*old(state)), block_time) {
            end_round_spec(*old(state), *final(state), sender@, block_time, block_height, r)
        } else {
            *final(state) == *old(state) && (r matches Ok(v) && v@.len() == 0)
        },
{
    let idx = state.lottery.rounds.index as usize;
    let ci = state.lottery.get_config_index();
    let should = state.rounds[idx].round.should_end(&state.lottery.rounds.configs[ci], block_time);
    if should && state.lottery.rounds.index < state.lottery.rounds.count {
        end_round(state, sender, block_time, block_height)
    } else {
        proof {
            assert(state.lottery.rounds.index < state.lottery.rounds.count);
        }
        Ok(Vec::new())
    }
}

/// Donate extra rewards to the current round's pot.  Rejected on a
/// non-active round and for an empty rewards list, touching nothing; the
/// host verifies and moves the donated funds themselves.
pub fn add_incentives(state: &mut State, sender: &Vec<u8>, rewards: Vec<Reward>) -> (r: Result<
    (),
    ContractError,
>)
    requires
        state_wf(*old(state)),
    ensures
        state_wf(*final(state)),
        ({
            let pre = *old(state);
            let idx = pre.lottery.rounds.index as int;
            if cur_round_data(pre).round.status != RoundStatus::Active {
                r == Err::<(), ContractError>(ContractError::NotActive) && *final(state) == pre
            } else if rewards@.len() == 0 {
                r == Err::<(), ContractError>(ContractError::MissingRewards) && *final(state) == pre
            } else {
                &&& r == Ok::<(), ContractError>(())
                &&& final(state).lottery == pre.lottery
                &&& final(state).claims@ == pre.claims@
                &&& final(state).seed@ == pre.seed@
                &&& final(state).rounds@.len() == pre.rounds@.len()
                &&& forall|q: int|
                    0 <= q < pre.rounds@.len() && q != idx ==> final(state).rounds@[q]
                        == pre.rounds@[q]
                &&& final(state).rounds@[idx].round == pre.rounds@[idx].round
                &&& final(state).rounds@[idx].players@ == pre.rounds@[idx].players@
                &&& final(state).rounds@[idx].orders@ == pre.rounds@[idx].orders@
                &&& final(state).rounds@[idx].winners@ == pre.rounds@[idx].winners@
                &&& final(state).rounds@[idx].incentives@.len() == pre.rounds@[
                    idx
                ].incentives@.len() + 1
                &&& final(state).rounds@[idx].incentives@.drop_last() == pre.rounds@[
                    idx
                ].incentives@
                &&& final(state).rounds@[idx].incentives@.last().source@ == sender@
                &&& final(state).rounds@[idx].incentives@.last().rewards@ == rewards@
            }
        }),
{
    let ghost pre = *state;
    let idx = state.lottery.rounds.index as usize;
    if !state.rounds[idx].round.is_active() {
        return Err(ContractError::NotActive);
    }
    if rewards.len() == 0 {
        return Err(ContractError::MissingRewards);
    }
    let mut rdat = state.rounds.remove(idx);
    rdat.incentives.push(Incentive { source: clone_bytes(sender), rewards });
    proof {
        assert(rdat.incentives@.drop_last() =~= pre.rounds@[idx as int].incentives@);
    }
    state.rounds.insert(idx, rdat);
    proof {
        assert(state.rounds@ =~= pre.rounds@.update(idx as int, state.rounds@[idx as int]));
    }
    Ok(())
}

/// Refund one wallet's tickets in one round.  Only the lottery owner may ask
/// for it, only while the round is canceled, and only for a wallet that
/// holds a player row there; the refund amount is the wallet's tickets times
/// the round's ticket price, and the wallet's rows leave the round.
#[verifier::loop_isolation(false)]
pub fn issue_refund(state: &mut State, sender: &Vec<u8>, round_index: u32, recipient: &Vec<u8>) -> (r: Result<u128, ContractError>)
    requires
        state_wf(*old(state)),
        round_index <= old(state).lottery.rounds.index ==> pot_size(
            old(state).rounds@[round_index as int].round.counts.tickets,
            old(state).lottery.rounds.configs@[round_index as int % old(
                state,
            ).lottery.rounds.configs@.len() as int].ticket_price,
        ) <= u128::MAX,
    ensures
        state_wf(*final(state)),
        ({
            let pre = *old(state);
            let ri = round_index as int;
            let cfg_price = pre.lottery.rounds.configs@[ri % pre.lottery.rounds.configs@.len() as int].ticket_price;
            if round_index > pre.lottery.rounds.index {
                r == Err::<u128, ContractError>(ContractError::RoundNotFound) && *final(state) == pre
            } else if sender@ != pre.lottery.owner@ {
                r == Err::<u128, ContractError>(ContractError::NotAuthorized) && *final(state) == pre
            } else if pre.rounds@[ri].round.status != RoundStatus::Canceled {
                r == Err::<u128, ContractError>(ContractError::Forbidden) && *final(state) == pre
            } else {
                match player_index(pre.rounds@[ri].players@, recipient@) {
                    None => r == Err::<u128, ContractError>(ContractError::PlayerNotFound)
                        && *final(state) == pre,
                    Some(i) => {
                        let pl = pre.rounds@[ri].players@[i];
                        &&& r == Ok::<u128, ContractError>(
                            (pl.ticket_count * cfg_price) as u128,
                        )
                        &&& final(state).lottery == pre.lottery
                        &&& final(state).claims@ == pre.claims@
                        &&& final(state).seed@ == pre.seed@
                        &&& final(state).rounds@.len() == pre.rounds@.len()
                        &&& forall|q: int|
                            0 <= q < pre.rounds@.len() && q != ri ==> final(state).rounds@[q]
                                == pre.rounds@[q]
                        &&& final(state).rounds@[ri].players@ == pre.rounds@[ri].players@.remove(i)
                        &&& final(state).rounds@[ri].orders@ == crate::state::orders_without(
                            pre.rounds@[ri].orders@,
                            pl.order_indices@,
                        )
                        &&& final(state).rounds@[ri].round.counts.wallets == pre.rounds@[
                            ri
                        ].round.counts.wallets - 1
                        &&& final(state).rounds@[ri].round.counts.tickets == pre.rounds@[
                            ri
                        ].round.counts.tickets - pl.ticket_count
                        &&& final(state).rounds@[ri].round.counts.orders == final(state).rounds@[ri].orders@.len()
                        &&& final(state).rounds@[ri].round.status == pre.rounds@[ri].round.status
                    },
                }
            }
        }),
{
    let ghost pre = *state;
    let target = match load_round(state, Some(round_index)) {
        Ok(t) => t,
        Err(e) => {
            return Err(e);
        },
    };
    if !bytes_eq(sender, &state.lottery.owner) {
        return Err(ContractError::NotAuthorized);
    }
    if !state.rounds[target].round.is_canceled() {
        return Err(ContractError::Forbidden);
    }
    let found = match find_player(&state.rounds[target].players, recipient) {
        Some(i) => i,
        None => {
            return Err(ContractError::PlayerNotFound);
        },
    };
    let ci = (round_index as usize) % state.lottery.rounds.configs.len();
    proof {
        lemma_player_le_sum(pre.rounds@[target as int].players@, found as int);
        assert(pre.rounds@[target as int].players@[found as int].ticket_count * state.lottery.rounds.configs@[ci as int].ticket_price <= pot_size(
            pre.rounds@[target as int].round.counts.tickets,
            state.lottery.rounds.configs@[ci as int].ticket_price,
        )) by (nonlinear_arith)
            requires
                pre.rounds@[target as int].players@[found as int].ticket_count <= pre.rounds@[
                    target as int
                ].round.counts.tickets,
                state.lottery.rounds.configs@[ci as int].ticket_price >= 0,
        ;
    }
    let mut rdat = state.rounds.remove(target);
    let player = crate::state::remove_player_from_round(&mut rdat, found);
    state.rounds.insert(target, rdat);
    proof {
        assert(state.rounds@ =~= pre.rounds@.update(target as int, state.rounds@[target as int]));
    }
    let refund_amount = player.amount_spent_in_round(&state.lottery.rounds.configs[ci]);
    Ok(refund_amount)
}

/// Claiming accrued rewards is a stub in this engine: the ledger is read by
/// the host, and nothing here moves funds or decrements a claim.
pub fn claim_rewards(state: &mut State, sender: &Vec<u8>) -> (r: Result<(), ContractError>)
    requires
        state_wf(*old(state)),
    ensures
        state_wf(*final(state)),
        *final(state) == *old(state),
        r == Ok::<(), ContractError>(()),
{
    Ok(())
}
} // verus!
