use vstd::prelude::*;

use crate::round::Config;

verus! {

/// A wallet's position within one round: its total tickets and the indices
/// of its orders.  A player row exists in a round iff the wallet has placed
/// at least one order there.
#[derive(Clone, Debug, PartialEq, Eq)]
pub struct Player {
    pub wallet: Vec<u8>,
    pub ticket_count: u32,
    pub order_indices: Vec<u32>,
}

impl Player {
    /// What the wallet has spent on tickets in the round.
    pub fn amount_spent_in_round(&self, round_config: &Config) -> (r: u128)
        requires
            self.ticket_count * round_config.ticket_price <= u128::MAX,
        ensures
            r == self.ticket_count * round_config.ticket_price,
    {
        (self.ticket_count as u128) * round_config.ticket_price
    }
}

/// The mathematical shape of a player row.
pub ghost struct PlayerV {
    pub wallet: Seq<u8>,
    pub ticket_count: u32,
    pub order_indices: Seq<u32>,
}

impl View for Player {
    type V = PlayerV;

    open spec fn view(&self) -> PlayerV {
        PlayerV {
            wallet: self.wallet@,
            ticket_count: self.ticket_count,
            order_indices: self.order_indices@,
        }
    }
}

/// The player table as a sequence of player models, in table order.
pub open spec fn players_view(ps: Seq<Player>) -> Seq<PlayerV> {
    ps.map_values(|p: Player| p@)
}

/// Total tickets held across a player list.
pub open spec fn sum_tickets(ps: Seq<Player>) -> int
    decreases ps.len(),
{
    if ps.len() == 0 {
        0
    } else {
        sum_tickets(ps.drop_last()) + ps.last().ticket_count
    }
}

/// With every player holding at least one ticket, the round has at least as
/// many tickets as players.
pub proof fn lemma_sum_tickets_ge_len(ps: Seq<Player>)
    requires
        forall|i: int| 0 <= i < ps.len() ==> (#[trigger] ps[i]).ticket_count >= 1,
    ensures
        sum_tickets(ps) >= ps.len(),
    decreases ps.len(),
{
    if ps.len() > 0 {
        lemma_sum_tickets_ge_len(ps.drop_last());
    }
}

pub proof fn lemma_sum_tickets_nonneg(ps: Seq<Player>)
    ensures
        sum_tickets(ps) >= 0,
    decreases ps.len(),
{
    if ps.len() > 0 {
        lemma_sum_tickets_nonneg(ps.drop_last());
    }
}

/// Updating one player changes the ticket total by the difference.
pub proof fn lemma_sum_tickets_update(ps: Seq<Player>, i: int, p: Player)
    requires
        0 <= i < ps.len(),
    ensures
        sum_tickets(ps.update(i, p)) == sum_tickets(ps) - ps[i].ticket_count + p.ticket_count,
    decreases ps.len(),
{
    if i == ps.len() - 1 {
        assert(ps.update(i, p).drop_last() =~= ps.drop_last());
        assert(ps.update(i, p).last() == p);
    } else {
        lemma_sum_tickets_update(ps.drop_last(), i, p);
        assert(ps.update(i, p).drop_last() =~= ps.drop_last().update(i, p));
        assert(ps.update(i, p).last() == ps.last());
    }
}

/// Inserting a player adds its tickets to the total.
pub proof fn lemma_sum_tickets_insert(ps: Seq<Player>, i: int, p: Player)
    requires
        0 <= i <= ps.len(),
    ensures
        sum_tickets(ps.insert(i, p)) == sum_tickets(ps) + p.ticket_count,
    decreases ps.len(),
{
    if i == ps.len() {
        assert(ps.insert(i, p).drop_last() =~= ps);
        assert(ps.insert(i, p).last() == p);
    } else {
        lemma_sum_tickets_insert(ps.drop_last(), i, p);
        assert(ps.insert(i, p).drop_last() =~= ps.drop_last().insert(i, p));
        assert(ps.insert(i, p).last() == ps.last());
    }
}

/// Removing a player subtracts its tickets from the total.
pub proof fn lemma_sum_tickets_remove(ps: Seq<Player>, i: int)
    requires
        0 <= i < ps.len(),
    ensures
        sum_tickets(ps.remove(i)) == sum_tickets(ps) - ps[i].ticket_count,
    decreases ps.len(),
{
    if i == ps.len() - 1 {
        assert(ps.remove(i) =~= ps.drop_last());
    } else {
        lemma_sum_tickets_remove(ps.drop_last(), i);
        assert(ps.remove(i).drop_last() =~= ps.drop_last().remove(i));
        assert(ps.remove(i).last() == ps.last());
    }
}

} // verus!
