use vstd::prelude::*;

use crate::bytes::{bytes_eq, lex_lt};
use crate::error::ContractError;
use crate::incentive::Incentive;
use crate::lottery::{lottery_valid, Lottery};
use crate::msg::InstantiateMsg;
use crate::player::{sum_tickets, Player};
use crate::random::{seed_init, seed_wf, spec_seed_init};
use crate::round::Round;
use crate::royalties::{claims_view, Claim, ClaimV};
use crate::ticket_order::OrderEntry;
use crate::winner::Winner;

verus! {

/// Everything the engine keeps for one round: the round record, the player
/// table in strictly increasing wallet order, the order table, and the
/// incentives and recorded winners of the round.
#[derive(Debug, PartialEq, Eq)]
pub struct RoundData {
    pub round: Round,
    pub players: Vec<Player>,
    pub orders: Vec<OrderEntry>,
    pub incentives: Vec<Incentive>,
    pub winners: Vec<Winner>,
}

/// The engine's whole persistent state.  The host persists it between
/// invocations; the engine only computes on it.
#[derive(Debug, PartialEq, Eq)]
pub struct State {
    pub lottery: Lottery,
    pub rounds: Vec<RoundData>,
    pub claims: Vec<Claim>,
    pub seed: Vec<u8>,
}

/// The player table is strictly sorted by wallet (so wallets are unique and
/// iteration order is the stable by-key order the draw relies on).
pub open spec fn players_sorted(ps: Seq<Player>) -> bool {
    forall|i: int, j: int|
        0 <= i < j < ps.len() ==> lex_lt(#[trigger] ps[i].wallet@, #[trigger] ps[j].wallet@)
}

/// Index of the player row held by a wallet, if any.
pub open spec fn player_index(ps: Seq<Player>, w: Seq<u8>) -> Option<int>
    decreases ps.len(),
{
    if ps.len() == 0 {
        None
    } else if ps[0].wallet@ == w {
        Some(0)
    } else {
        match player_index(ps.skip(1), w) {
            Some(i) => Some(i + 1),
            None => None,
        }
    }
}

/// A wallet holds a player row iff it has bought at least one ticket.
pub open spec fn has_player(ps: Seq<Player>, w: Seq<u8>) -> bool {
    player_index(ps, w) is Some
}

/// Well-formedness of one round's data: conservation (the ticket count is
/// the sum of the players' tickets), the wallet count is the player count,
/// the order count is the order-table size, players are strictly sorted by
/// wallet, and every player holds at least one ticket.
pub open spec fn round_wf(rd: RoundData) -> bool {
    &&& sum_tickets(rd.players@) == rd.round.counts.tickets
    &&& rd.players@.len() == rd.round.counts.wallets
    &&& rd.orders@.len() == rd.round.counts.orders
    &&& players_sorted(rd.players@)
    &&& forall|i: int| 0 <= i < rd.players@.len() ==> (#[trigger] rd.players@[i]).ticket_count >= 1
}

/// The claims ledger maps each wallet to at most one row.
pub open spec fn claims_unique(cv: Seq<ClaimV>) -> bool {
    forall|i: int, j: int|
        0 <= i < j < cv.len() ==> (#[trigger] cv[i].wallet) != (#[trigger] cv[j].wallet)
}

/// Well-formedness of the whole engine state.
pub open spec fn state_wf(s: State) -> bool {
    &&& lottery_valid(s.lottery)
    &&& s.lottery.rounds.index < s.lottery.rounds.count
    &&& s.rounds@.len() == s.lottery.rounds.index + 1
    &&& forall|r: int| 0 <= r < s.rounds@.len() ==> round_wf(#[trigger] s.rounds@[r])
    &&& forall|r: int| 0 <= r < s.rounds@.len() ==> (#[trigger] s.rounds@[r]).round.index == r
    &&& claims_unique(claims_view(s.claims@))
    &&& seed_wf(s.seed@)
}

/// Initialize the engine: build and validate the lottery, create round 0
/// (active iff the lottery starts active) and seed the entropy accumulator
/// from the creator and the creation height.
pub fn initialize(sender: Vec<u8>, msg: InstantiateMsg, block_time: u64, block_height: u64) -> (r:
    Result<State, ContractError>)
    requires
        msg.rounds.configs@.len() <= u32::MAX,
    ensures
        match r {
            Ok(s) => {
                &&& state_wf(s)
                &&& s.lottery.owner@ == sender@
                &&& s.lottery.rounds.index == 0
                &&& s.rounds@.len() == 1
                &&& s.rounds@[0].round.status == if s.lottery.status
                    == crate::lottery::LotteryStatus::Active {
                    crate::round::RoundStatus::Active
                } else {
                    crate::round::RoundStatus::Pending
                }
                &&& s.rounds@[0].players@.len() == 0
                &&& s.rounds@[0].orders@.len() == 0
                &&& s.rounds@[0].incentives@.len() == 0
                &&& s.claims@.len() == 0
                &&& s.seed@ == spec_seed_init(sender@, block_height)
                &&& s.lottery.rounds.configs@ == msg.rounds.configs@
            },
            Err(e) => e matches ContractError::ValidationError { .. },
        },
        r is Ok <==> (msg.rounds.configs@.len() >= 1 && forall|i: int|
            0 <= i < msg.rounds.configs@.len() ==> crate::round::config_valid(
                #[trigger] msg.rounds.configs@[i],
            )),
{
    let seed = seed_init(&sender, block_height);
    let lottery = match Lottery::instantiate(sender, msg) {
        Ok(l) => l,
        Err(e) => {
            return Err(e);
        },
    };
    let round = Round::new(block_time, lottery.is_active(), 0);
    let mut rounds: Vec<RoundData> = Vec::new();
    rounds.push(
        RoundData {
            round,
            players: Vec::new(),
            orders: Vec::new(),
            incentives: Vec::new(),
            winners: Vec::new(),
        },
    );
    let state = State { lottery, rounds, claims: Vec::new(), seed };
    Ok(state)
}

/// Resolve a round index (the current round when none is given) to its slot,
/// or `RoundNotFound` past the current round.
pub fn load_round(state: &State, round_index: Option<u32>) -> (r: Result<usize, ContractError>)
    requires
        state_wf(*state),
    ensures
        match r {
            Ok(i) => {
                &&& i < state.rounds@.len()
                &&& i == match round_index {
                    Some(x) => x as int,
                    None => state.lottery.rounds.index as int,
                }
            },
            Err(e) => {
                &&& e == ContractError::RoundNotFound
                &&& round_index matches Some(x) && x > state.lottery.rounds.index
            },
        },
{
    let target = match round_index {
        Some(x) => x,
        None => state.lottery.rounds.index,
    };
    if target > state.lottery.rounds.index {
        return Err(ContractError::RoundNotFound);
    }
    Ok(target as usize)
}

/// Find a wallet's player row in a player table.
#[verifier::loop_isolation(false)]
pub fn find_player(players: &Vec<Player>, wallet: &Vec<u8>) -> (r: Option<usize>)
    ensures
        match r {
            Some(i) => player_index(players@, wallet@) == Some(i as int) && i < players@.len()
                && players@[i as int].wallet@ == wallet@,
            None => player_index(players@, wallet@) is None,
        },
{
    let n = players.len();
    let mut j: usize = 0;
    while j < n
        invariant
            j <= n,
            forall|k: int| 0 <= k < j ==> (#[trigger] players@[k]).wallet@ != wallet@,
        decreases n - j,
    {
        if bytes_eq(&players[j].wallet, wallet) {
            proof {
                lemma_player_index_first(players@, wallet@, j as int);
            }
            return Some(j);
        }
        j += 1;
    }
    proof {
        lemma_player_index_none(players@, wallet@);
    }
    None
}

proof fn lemma_player_index_first(ps: Seq<Player>, w: Seq<u8>, j: int)
    requires
        0 <= j < ps.len(),
        ps[j].wallet@ == w,
        forall|k: int| 0 <= k < j ==> (#[trigger] ps[k]).wallet@ != w,
    ensures
        player_index(ps, w) == Some(j),
    decreases j,
{
    if j > 0 {
        lemma_player_index_first(ps.skip(1), w, j - 1);
    }
}

proof fn lemma_player_index_none(ps: Seq<Player>, w: Seq<u8>)
    requires
        forall|k: int| 0 <= k < ps.len() ==> (#[trigger] ps[k]).wallet@ != w,
    ensures
        player_index(ps, w) is None,
    decreases ps.len(),
{
    if ps.len() > 0 {
        lemma_player_index_none(ps.skip(1), w);
    }
}

/// A found player index is a hit; a miss means no row holds the wallet.
pub proof fn lemma_player_index_hit(ps: Seq<Player>, w: Seq<u8>)
    ensures
        match player_index(ps, w) {
            Some(i) => 0 <= i < ps.len() && ps[i].wallet@ == w,
            None => forall|k: int| 0 <= k < ps.len() ==> (#[trigger] ps[k]).wallet@ != w,
        },
    decreases ps.len(),
{
    if ps.len() > 0 && ps[0].wallet@ != w {
        lemma_player_index_hit(ps.skip(1), w);
        match player_index(ps.skip(1), w) {
            Some(i) => {
                assert(ps.skip(1)[i] == ps[i + 1]);
            },
            None => {
                assert forall|k: int| 0 <= k < ps.len() implies (#[trigger] ps[k]).wallet@
                    != w by {
                    if k > 0 {
                        assert(ps.skip(1)[k - 1] == ps[k]);
                    }
                }
            },
        }
    }
}


/// Look a wallet's player row up in a round, `PlayerNotFound` if the wallet
/// never bought a ticket there.
pub fn load_player<'a>(rd: &'a RoundData, wallet: &Vec<u8>) -> (r: Result<
    &'a Player,
    ContractError,
>)
    ensures
        match r {
            Ok(p) => player_index(rd.players@, wallet@) matches Some(i) && *p == rd.players@[i],
            Err(e) => e == ContractError::PlayerNotFound && player_index(rd.players@, wallet@)
                is None,
        },
{
    match find_player(&rd.players, wallet) {
        Some(i) => Ok(&rd.players[i]),
        None => Err(ContractError::PlayerNotFound),
    }
}

/// The order table without every order of the given indices.
pub open spec fn orders_without(os: Seq<OrderEntry>, idxs: Seq<u32>) -> Seq<OrderEntry>
    decreases os.len(),
{
    if os.len() == 0 {
        Seq::empty()
    } else {
        let prev = orders_without(os.drop_last(), idxs);
        if idxs.contains(os.last().index) {
            prev
        } else {
            prev.push(os.last())
        }
    }
}

proof fn lemma_orders_without_len(os: Seq<OrderEntry>, idxs: Seq<u32>)
    ensures
        orders_without(os, idxs).len() <= os.len(),
    decreases os.len(),
{
    if os.len() > 0 {
        lemma_orders_without_len(os.drop_last(), idxs);
    }
}

/// Each player holds at most the round's whole ticket count.
pub proof fn lemma_player_le_sum(ps: Seq<Player>, i: int)
    requires
        0 <= i < ps.len(),
    ensures
        ps[i].ticket_count <= sum_tickets(ps),
    decreases ps.len(),
{
    if i == ps.len() - 1 {
        crate::player::lemma_sum_tickets_nonneg(ps.drop_last());
    } else {
        lemma_player_le_sum(ps.drop_last(), i);
    }
}

/// Remove one player and all of its orders from a round, decrementing the
/// round's aggregate counts accordingly.  Only meaningful while the round is
/// canceled; the caller checks that.
#[verifier::loop_isolation(false)]
pub fn remove_player_from_round(rd: &mut RoundData, p: usize) -> (removed: Player)
    requires
        round_wf(*old(rd)),
        p < old(rd).players@.len(),
    ensures
        removed == old(rd).players@[p as int],
        final(rd).players@ == old(rd).players@.remove(p as int),
        final(rd).orders@ == orders_without(old(rd).orders@, old(rd).players@[p as int].order_indices@),
        final(rd).round.counts.wallets == old(rd).round.counts.wallets - 1,
        final(rd).round.counts.tickets == old(rd).round.counts.tickets - old(
            rd,
        ).players@[p as int].ticket_count,
        final(rd).round.counts.orders == final(rd).orders@.len(),
        final(rd).round.counts.drawings == old(rd).round.counts.drawings,
        final(rd).round.status == old(rd).round.status,
        final(rd).round.started_at == old(rd).round.started_at,
        final(rd).round.ended_by == old(rd).round.ended_by,
        final(rd).round.index == old(rd).round.index,
        final(rd).incentives@ == old(rd).incentives@,
        final(rd).winners@ == old(rd).winners@,
        round_wf(*final(rd)),
{
    proof {
        lemma_player_le_sum(rd.players@, p as int);
    }
    let player = rd.players.remove(p);
    proof {
        crate::player::lemma_sum_tickets_remove(old(rd).players@, p as int);
    }
    // rebuild the order table without the player's orders
    let ghost orders0 = rd.orders@;
    let n = rd.orders.len();
    let mut kept: Vec<OrderEntry> = Vec::new();
    let mut i: usize = 0;
    while i < n
        invariant
            i <= n,
            n == orders0.len(),
            rd.orders@ == orders0.skip(i as int),
            kept@ == orders_without(orders0.take(i as int), player.order_indices@),
            rd.players@ == old(rd).players@.remove(p as int),
            rd.round == old(rd).round,
            rd.incentives@ == old(rd).incentives@,
            rd.winners@ == old(rd).winners@,
        decreases n - i,
    {
        proof {
            assert(orders0.take(i + 1).drop_last() =~= orders0.take(i as int));
            assert(orders0.take(i + 1).last() == orders0[i as int]);
            assert(rd.orders@[0] == orders0[i as int]);
        }
        let entry = rd.orders.remove(0);
        proof {
            assert(orders0.skip(i as int).remove(0) =~= orders0.skip(i + 1));
        }
        let idx = entry.index;
        let mut hit = false;
        let m = player.order_indices.len();
        let mut q: usize = 0;
        while q < m
            invariant
                q <= m,
                hit == exists|t: int| 0 <= t < q && player.order_indices@[t] == idx,
            decreases m - q,
        {
            if player.order_indices[q] == idx {
                hit = true;
            }
            q += 1;
        }
        proof {
            assert(hit == player.order_indices@.contains(idx));
        }
        if !hit {
            kept.push(entry);
        }
        i += 1;
    }
    proof {
        assert(orders0.take(n as int) =~= orders0);
        lemma_orders_without_len(orders0, player.order_indices@);
    }
    rd.orders = kept;
    rd.round.counts.wallets = rd.round.counts.wallets - 1;
    rd.round.counts.tickets = rd.round.counts.tickets - player.ticket_count;
    rd.round.counts.orders = rd.orders.len() as u32;
    proof {
        assert(players_sorted(rd.players@)) by {
            assert forall|a: int, b: int| 0 <= a < b < rd.players@.len() implies lex_lt(
                #[trigger] rd.players@[a].wallet@,
                #[trigger] rd.players@[b].wallet@,
            ) by {
                let pa = if a < p {
                    a
                } else {
                    a + 1
                };
                let pb = if b < p {
                    b
                } else {
                    b + 1
                };
                assert(rd.players@[a] == old(rd).players@[pa]);
                assert(rd.players@[b] == old(rd).players@[pb]);
            }
        }
    }
    player
}

} // verus!
