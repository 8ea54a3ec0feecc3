use vstd::prelude::*;

use crate::bytes::clone_bytes;
use crate::error::ContractError;
use crate::player::Player;
use crate::round::{Config, Counts, RoundStatus, RoyaltyRecipient, Token, WinnerSelectionMethod};
use crate::state::{state_wf, State};
use crate::ticket_order::{OrderEntry, TicketOrder};
use crate::winner::Winner;

verus! {

/// A queried view of one round: its config, status and counts, and — on
/// request — its players, recorded winners and orders, each newest key
/// first.
pub struct GetRoundResponse {
    pub config: Config,
    pub players: Option<Vec<Player>>,
    pub winners: Option<Vec<Winner>>,
    pub orders: Option<Vec<TicketOrder>>,
    pub status: RoundStatus,
    pub counts: Counts,
    pub started_at: Option<u64>,
    pub ended_by: Option<Vec<u8>>,
}

/// View-level equality of optional strings.
pub open spec fn opt_str_eq(a: Option<String>, b: Option<String>) -> bool {
    match (a, b) {
        (Some(x), Some(y)) => x@ == y@,
        (None, None) => true,
        _ => false,
    }
}

/// View-level equality of optional byte strings.
pub open spec fn opt_bytes_eq(a: Option<Vec<u8>>, b: Option<Vec<u8>>) -> bool {
    match (a, b) {
        (Some(x), Some(y)) => x@ == y@,
        (None, None) => true,
        _ => false,
    }
}

/// View-level equality of tokens.
pub open spec fn token_matches(a: Token, b: Token) -> bool {
    match (a, b) {
        (Token::Native { denom: da }, Token::Native { denom: db }) => da@ == db@,
        (Token::Cw20 { address: aa }, Token::Cw20 { address: ab }) => aa@ == ab@,
        _ => false,
    }
}

/// View-level equality of selection methods.
pub open spec fn method_matches(a: WinnerSelectionMethod, b: WinnerSelectionMethod) -> bool {
    match (a, b) {
        (WinnerSelectionMethod::Fixed(sa), WinnerSelectionMethod::Fixed(sb)) => sa@ == sb@,
        (
            WinnerSelectionMethod::Percent { pct: pa, max: ma },
            WinnerSelectionMethod::Percent { pct: pb, max: mb },
        ) => pa == pb && ma == mb,
        _ => false,
    }
}

/// View-level equality of configs.
pub open spec fn config_matches(a: Config, b: Config) -> bool {
    &&& opt_str_eq(a.name, b.name)
    &&& a.targets == b.targets
    &&& method_matches(a.selection.method, b.selection.method)
    &&& a.selection.with_replacement == b.selection.with_replacement
    &&& token_matches(a.token, b.token)
    &&& a.ticket_price == b.ticket_price
    &&& a.max_tickets_per_wallet == b.max_tickets_per_wallet
    &&& crate::execute::royalties_match(a.royalties@, b.royalties@)
}

/// View-level equality of ticket orders.
pub open spec fn order_matches(a: TicketOrder, b: TicketOrder) -> bool {
    &&& a.wallet@ == b.wallet@
    &&& a.ticket_count == b.ticket_count
    &&& opt_str_eq(a.message, b.message)
    &&& a.is_public == b.is_public
}

fn clone_opt_string(s: &Option<String>) -> (r: Option<String>)
    ensures
        opt_str_eq(r, *s),
{
    match s {
        Some(x) => Some(x.clone()),
        None => None,
    }
}

fn clone_token(t: &Token) -> (r: Token)
    ensures
        token_matches(r, *t),
{
    match t {
        Token::Native { denom } => Token::Native { denom: denom.clone() },
        Token::Cw20 { address } => Token::Cw20 { address: clone_bytes(address) },
    }
}

#[verifier::loop_isolation(false)]
fn clone_royalties(rs: &Vec<RoyaltyRecipient>) -> (r: Vec<RoyaltyRecipient>)
    ensures
        crate::execute::royalties_match(r@, rs@),
{
    let mut out: Vec<RoyaltyRecipient> = Vec::new();
    let n = rs.len();
    let mut i: usize = 0;
    while i < n
        invariant
            i <= n,
            out@.len() == i,
            crate::execute::royalties_match(out@, rs@.take(i as int)),
        decreases n - i,
    {
        out.push(
            RoyaltyRecipient {
                address: clone_bytes(&rs[i].address),
                autosend: rs[i].autosend,
                pct: rs[i].pct,
            },
        );
        i += 1;
    }
    proof {
        assert(rs@.take(n as int) =~= rs@);
    }
    out
}

fn clone_config(c: &Config) -> (r: Config)
    ensures
        config_matches(r, *c),
{
    let method = match &c.selection.method {
        WinnerSelectionMethod::Fixed(split) => WinnerSelectionMethod::Fixed(clone_bytes(split)),
        WinnerSelectionMethod::Percent { pct, max } => WinnerSelectionMethod::Percent {
            pct: *pct,
            max: *max,
        },
    };
    Config {
        name: clone_opt_string(&c.name),
        targets: c.targets,
        selection: crate::round::WinnerSelection {
            method,
            with_replacement: c.selection.with_replacement,
        },
        token: clone_token(&c.token),
        ticket_price: c.ticket_price,
        max_tickets_per_wallet: c.max_tickets_per_wallet,
        royalties: clone_royalties(&c.royalties),
    }
}

/// Copy a round's players, newest wallet key first.
#[verifier::loop_isolation(false)]
fn collect_players_desc(ps: &Vec<Player>) -> (r: Vec<Player>)
    ensures
        r@.len() == ps@.len(),
        forall|i: int| 0 <= i < r@.len() ==> (#[trigger] r@[i])@ == ps@[ps@.len() - 1 - i]@,
{
    let mut out: Vec<Player> = Vec::new();
    let n = ps.len();
    let mut i: usize = 0;
    while i < n
        invariant
            i <= n,
            out@.len() == i,
            forall|j: int| 0 <= j < i ==> (#[trigger] out@[j])@ == ps@[n - 1 - j]@,
        decreases n - i,
    {
        let src = &ps[n - 1 - i];
        let mut indices: Vec<u32> = Vec::new();
        let m = src.order_indices.len();
        let mut q: usize = 0;
        while q < m
            invariant
                q <= m,
                indices@ == src.order_indices@.take(q as int),
            decreases m - q,
        {
            indices.push(src.order_indices[q]);
            proof {
                assert(indices@ =~= src.order_indices@.take(q + 1));
            }
            q += 1;
        }
        proof {
            assert(src.order_indices@.take(m as int) =~= src.order_indices@);
        }
        out.push(
            Player {
                wallet: clone_bytes(&src.wallet),
                ticket_count: src.ticket_count,
                order_indices: indices,
            },
        );
        i += 1;
    }
    out
}

/// Copy a round's recorded winners, newest wallet key first.
#[verifier::loop_isolation(false)]
fn collect_winners_desc(ws: &Vec<Winner>) -> (r: Vec<Winner>)
    ensures
        r@.len() == ws@.len(),
        forall|i: int|
            0 <= i < r@.len() ==> {
                let src = ws@[ws@.len() - 1 - i];
                (#[trigger] r@[i]).wallet@ == src.wallet@ && r@[i].amount_total == src.amount_total
                    && r@[i].amount_claimed == src.amount_claimed && r@[i].position == src.position
            },
{
    let mut out: Vec<Winner> = Vec::new();
    let n = ws.len();
    let mut i: usize = 0;
    while i < n
        invariant
            i <= n,
            out@.len() == i,
            forall|j: int|
                0 <= j < i ==> {
                    let src = ws@[n - 1 - j];
                    (#[trigger] out@[j]).wallet@ == src.wallet@ && out@[j].amount_total
                        == src.amount_total && out@[j].amount_claimed == src.amount_claimed
                        && out@[j].position == src.position
                },
        decreases n - i,
    {
        let src = &ws[n - 1 - i];
        out.push(
            Winner {
                wallet: clone_bytes(&src.wallet),
                amount_total: src.amount_total,
                amount_claimed: src.amount_claimed,
                position: src.position,
            },
        );
        i += 1;
    }
    out
}

/// Copy a round's orders, newest order index first.
#[verifier::loop_isolation(false)]
fn collect_orders_desc(os: &Vec<OrderEntry>) -> (r: Vec<TicketOrder>)
    ensures
        r@.len() == os@.len(),
        forall|i: int|
            0 <= i < r@.len() ==> order_matches(#[trigger] r@[i], os@[os@.len() - 1 - i].order),
{
    let mut out: Vec<TicketOrder> = Vec::new();
    let n = os.len();
    let mut i: usize = 0;
    while i < n
        invariant
            i <= n,
            out@.len() == i,
            forall|j: int| 0 <= j < i ==> order_matches(#[trigger] out@[j], os@[n - 1 - j].order),
        decreases n - i,
    {
        let src = &os[n - 1 - i].order;
        out.push(
            TicketOrder {
                wallet: clone_bytes(&src.wallet),
                ticket_count: src.ticket_count,
                message: clone_opt_string(&src.message),
                is_public: src.is_public,
            },
        );
        i += 1;
    }
    out
}

/// Look one round up: its config, status and counts, and on request its
/// players, winners and orders, each in descending key order.  Asking past
/// the current round is `RoundNotFound`.
pub fn get_round(
    state: &State,
    round_index: u32,
    include_players: Option<bool>,
    include_winners: Option<bool>,
    include_orders: Option<bool>,
) -> (r: Result<GetRoundResponse, ContractError>)
    requires
        state_wf(*state),
    ensures
        ({
            let ri = round_index as int;
            if round_index > state.lottery.rounds.index {
                r == Err::<GetRoundResponse, ContractError>(ContractError::RoundNotFound)
            } else {
                let rd = state.rounds@[ri];
                let cfg = state.lottery.rounds.configs@[ri % state.lottery.rounds.configs@.len() as int];
                match r {
                    Err(_) => false,
                    Ok(resp) => {
                        &&& config_matches(resp.config, cfg)
                        &&& resp.status == rd.round.status
                        &&& resp.counts == rd.round.counts
                        &&& resp.started_at == rd.round.started_at
                        &&& opt_bytes_eq(resp.ended_by, rd.round.ended_by)
                        &&& if include_players == Some(true) {
                            resp.players matches Some(v) && v@.len() == rd.players@.len() && forall|
                                i: int,
                            |
                                0 <= i < v@.len() ==> (#[trigger] v@[i])@ == rd.players@[
                                    rd.players@.len() - 1 - i
                                ]@
                        } else {
                            resp.players is None
                        }
                        &&& if include_winners == Some(true) {
                            resp.winners matches Some(v) && v@.len() == rd.winners@.len() && forall|
                                i: int,
                            |
                                0 <= i < v@.len() ==> {
                                    let src = rd.winners@[rd.winners@.len() - 1 - i];
                                    (#[trigger] v@[i]).wallet@ == src.wallet@ && v@[i].amount_total
                                        == src.amount_total && v@[i].amount_claimed
                                        == src.amount_claimed && v@[i].position == src.position
                                }
                        } else {
                            resp.winners is None
                        }
                        &&& if include_orders == Some(true) {
                            resp.orders matches Some(v) && v@.len() == rd.orders@.len() && forall|
                                i: int,
                            |
                                0 <= i < v@.len() ==> order_matches(
                                    #[trigger] v@[i],
                                    rd.orders@[rd.orders@.len() - 1 - i].order,
                                )
                        } else {
                            resp.orders is None
                        }
                    },
                }
            }
        }),
{
    if round_index > state.lottery.rounds.index {
        return Err(ContractError::RoundNotFound);
    }
    let ri = round_index as usize;
    let ci = ri % state.lottery.rounds.configs.len();
    let config = clone_config(&state.lottery.rounds.configs[ci]);
    let players = if matches!(include_players, Some(true)) {
        Some(collect_players_desc(&state.rounds[ri].players))
    } else {
        None
    };
    let winners = if matches!(include_winners, Some(true)) {
        Some(collect_winners_desc(&state.rounds[ri].winners))
    } else {
        None
    };
    let orders = if matches!(include_orders, Some(true)) {
        Some(collect_orders_desc(&state.rounds[ri].orders))
    } else {
        None
    };
    let ended_by = match &state.rounds[ri].round.ended_by {
        Some(w) => Some(clone_bytes(w)),
        None => None,
    };
    Ok(
        GetRoundResponse {
            config,
            players,
            winners,
            orders,
            status: state.rounds[ri].round.status,
            counts: state.rounds[ri].round.counts,
            started_at: state.rounds[ri].round.started_at,
            ended_by,
        },
    )
}

} // verus!
