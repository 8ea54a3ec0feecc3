use vstd::prelude::*;

use crate::bytes::{lemma_lex_total, lex_lt};
use crate::execute::completed_round_spec;
use crate::player::{sum_tickets, Player};
use crate::selection::{drawn_positions, lemma_selection_without_replacement, pool_of};
use crate::state::{players_sorted, state_wf, State};

verus! {

/// Conservation: in every well-formed state, every round's ticket count is
/// exactly the sum of its players' ticket counts, and its wallet count is
/// exactly its player count.  Every operation of the engine preserves
/// well-formedness, so a refund that removes a player decreases both by
/// exactly that player's contribution.
pub proof fn lemma_conservation(s: State, r: int)
    requires
        state_wf(s),
        0 <= r < s.rounds@.len(),
    ensures
        sum_tickets(s.rounds@[r].players@) == s.rounds@[r].round.counts.tickets,
        s.rounds@[r].players@.len() == s.rounds@[r].round.counts.wallets,
        s.rounds@[r].orders@.len() == s.rounds@[r].round.counts.orders,
{
}

/// Determinism: settling the same state with the same ending actor at the
/// same block time and height produces bit-identical claims, the same
/// finalized seed and the same round records — the settlement relation pins
/// its outcome as a pure function of its inputs.
pub proof fn lemma_settlement_deterministic(
    pre: State,
    post1: State,
    post2: State,
    sender: Seq<u8>,
    time: u64,
    height: u64,
)
    requires
        completed_round_spec(pre, post1, sender, time, height),
        completed_round_spec(pre, post2, sender, time, height),
    ensures
        crate::royalties::claims_view(post1.claims@) == crate::royalties::claims_view(
            post2.claims@,
        ),
        post1.seed@ == post2.seed@,
        post1.lottery.rounds.index == post2.lottery.rounds.index,
        post1.lottery.status == post2.lottery.status,
{
}

/// Selection without replacement: as long as the winner count does not
/// exceed the number of distinct ticket-holding positions, no wallet is
/// drawn twice — the drawn positions are distinct, and distinct positions of
/// a sorted player table hold distinct wallets.
pub proof fn lemma_no_repeat_winners(players: Seq<Player>, seed_val: u64, n: nat)
    requires
        players_sorted(players),
        players.len() <= u32::MAX,
        pool_of(players).len() > 0,
        n <= pool_of(players).to_set().len(),
    ensures
        ({
            let d = drawn_positions(seed_val, pool_of(players), false, n);
            forall|a: int, b: int|
                0 <= a < b < d.len() ==> players[(#[trigger] d[a]) as int].wallet@ != players[(
                #[trigger] d[b]) as int].wallet@
        }),
{
    let pool = pool_of(players);
    lemma_selection_without_replacement(seed_val, pool, n);
    crate::selection::lemma_pool_elems(players);
    let d = drawn_positions(seed_val, pool, false, n);
    assert forall|a: int, b: int|
        0 <= a < b < d.len() implies players[(#[trigger] d[a]) as int].wallet@ != players[(
    #[trigger] d[b]) as int].wallet@ by {
        assert(pool.to_set().contains(d[a]));
        assert(pool.to_set().contains(d[b]));
        let ia = choose|i: int| 0 <= i < pool.len() && pool[i] == d[a];
        let ib = choose|i: int| 0 <= i < pool.len() && pool[i] == d[b];
        assert(d[a] < players.len());
        assert(d[b] < players.len());
        assert(d[a] != d[b]);
        let pa = d[a] as int;
        let pb = d[b] as int;
        if pa < pb {
            assert(lex_lt(players[pa].wallet@, players[pb].wallet@));
            lemma_lex_total(players[pa].wallet@, players[pb].wallet@);
        } else {
            assert(lex_lt(players[pb].wallet@, players[pa].wallet@));
            lemma_lex_total(players[pb].wallet@, players[pa].wallet@);
        }
    }
}

} // verus!
