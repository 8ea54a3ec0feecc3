use lottery_engine::error::ContractError;
use lottery_engine::execute::{add_incentives, buy_tickets, issue_refund, terminate_round};
use lottery_engine::incentive::Reward;
use lottery_engine::lottery::LotteryStatus;
use lottery_engine::msg::{InitialRounds, InstantiateMsg};
use lottery_engine::round::{
    Config, RoundStatus, RoyaltyRecipient, Targets, Token, WinnerSelection, WinnerSelectionMethod,
};
use lottery_engine::state::{initialize, State};

fn base_config() -> Config {
    Config {
        name: None,
        targets: Targets {
            funding_level: Some(100),
            duration_minutes: None,
        },
        selection: WinnerSelection {
            method: WinnerSelectionMethod::Fixed(vec![70, 30]),
            with_replacement: false,
        },
        token: Token::Native {
            denom: "token".to_string(),
        },
        ticket_price: 10,
        max_tickets_per_wallet: None,
        royalties: vec![RoyaltyRecipient {
            address: b"royal".to_vec(),
            autosend: None,
            pct: 10,
        }],
    }
}

fn fresh_state(config: Config) -> State {
    let msg = InstantiateMsg {
        name: Some("test".to_string()),
        rounds: InitialRounds {
            configs: vec![config],
            count: 3,
        },
        tournament: None,
        activate: None,
    };
    initialize(b"owner".to_vec(), msg, 1_000, 5).expect("valid config")
}

#[test]
fn initialize_rejects_empty_configs() {
    let msg = InstantiateMsg {
        name: None,
        rounds: InitialRounds {
            configs: vec![],
            count: 1,
        },
        tournament: None,
        activate: None,
    };
    let r = initialize(b"owner".to_vec(), msg, 0, 0);
    assert!(matches!(r, Err(ContractError::ValidationError { .. })));
}

#[test]
fn initialize_rejects_overdrawn_royalties() {
    let mut config = base_config();
    config.royalties = vec![
        RoyaltyRecipient {
            address: b"a".to_vec(),
            autosend: None,
            pct: 60,
        },
        RoyaltyRecipient {
            address: b"b".to_vec(),
            autosend: None,
            pct: 60,
        },
    ];
    let msg = InstantiateMsg {
        name: None,
        rounds: InitialRounds {
            configs: vec![config],
            count: 1,
        },
        tournament: None,
        activate: None,
    };
    let r = initialize(b"owner".to_vec(), msg, 0, 0);
    assert!(matches!(r, Err(ContractError::ValidationError { .. })));
}

#[test]
fn initialize_inactive_round_is_pending() {
    let msg = InstantiateMsg {
        name: None,
        rounds: InitialRounds {
            configs: vec![base_config()],
            count: 1,
        },
        tournament: None,
        activate: Some(false),
    };
    let state = initialize(b"owner".to_vec(), msg, 0, 0).unwrap();
    assert_eq!(state.lottery.status, LotteryStatus::Pending);
    assert_eq!(state.rounds[0].round.status, RoundStatus::Pending);
    assert_eq!(state.rounds[0].round.started_at, None);
}

fn claim_of(state: &State, wallet: &[u8]) -> Option<u128> {
    state
        .claims
        .iter()
        .find(|c| c.wallet == wallet)
        .map(|c| c.amount)
}

fn run_settlement_scenario() -> State {
    let mut state = fresh_state(base_config());
    // A buys 3 tickets: pot 30, round stays open
    let ra = buy_tickets(&mut state, &b"wallet_a".to_vec(), 3, None, true, 1_010, 6).unwrap();
    assert!(ra.is_empty());
    assert_eq!(state.rounds[0].round.counts.tickets, 3);
    assert_eq!(state.rounds[0].round.counts.wallets, 1);
    assert_eq!(state.rounds[0].round.counts.orders, 1);
    // B buys 7 tickets: pot 100 reaches the funding level and the round ends
    buy_tickets(&mut state, &b"wallet_b".to_vec(), 7, None, true, 1_020, 7).unwrap();
    state
}

#[test]
fn settlement_scenario_two_wallets() {
    let state = run_settlement_scenario();
    // round 0 completed, round 1 opened
    assert_eq!(state.rounds[0].round.status, RoundStatus::Complete);
    assert_eq!(
        state.rounds[0].round.ended_by.as_deref(),
        Some(b"wallet_b".as_slice())
    );
    assert_eq!(state.lottery.rounds.index, 1);
    assert_eq!(state.rounds.len(), 2);
    assert_eq!(state.rounds[1].round.status, RoundStatus::Active);
    // conservation within round 0
    let ticket_sum: u32 = state.rounds[0].players.iter().map(|p| p.ticket_count).sum();
    assert_eq!(ticket_sum, state.rounds[0].round.counts.tickets);
    assert_eq!(
        state.rounds[0].players.len() as u32,
        state.rounds[0].round.counts.wallets
    );
    // pot 100: royalty claim 10, winners split 90 as 63 and 27
    assert_eq!(claim_of(&state, b"royal"), Some(10));
    let a = claim_of(&state, b"wallet_a").unwrap_or(0);
    let b = claim_of(&state, b"wallet_b").unwrap_or(0);
    assert_eq!(a + b, 90);
    let mut shares = vec![a, b];
    shares.sort();
    assert_eq!(shares, vec![27, 63]);
    // without replacement: both winner claims exist, on distinct wallets
    assert!(a > 0 && b > 0);
}

#[test]
fn settlement_is_deterministic() {
    let s1 = run_settlement_scenario();
    let s2 = run_settlement_scenario();
    let s3 = run_settlement_scenario();
    assert_eq!(s1.claims, s2.claims);
    assert_eq!(s1.claims, s3.claims);
    assert_eq!(s1.seed, s2.seed);
    assert_eq!(s1, s3);
}

#[test]
fn purchase_on_inactive_round_is_rejected() {
    let msg = InstantiateMsg {
        name: None,
        rounds: InitialRounds {
            configs: vec![base_config()],
            count: 1,
        },
        tournament: None,
        activate: Some(false),
    };
    let mut state = initialize(b"owner".to_vec(), msg, 0, 0).unwrap();
    let r = buy_tickets(&mut state, &b"wallet_a".to_vec(), 1, None, true, 1, 1);
    assert_eq!(r, Err(ContractError::InactiveRound));
}

#[test]
fn ticket_cap_rejection_leaves_state_unchanged() {
    let mut config = base_config();
    config.max_tickets_per_wallet = Some(5);
    let mut state = fresh_state(config.clone());
    buy_tickets(&mut state, &b"wallet_a".to_vec(), 3, None, true, 1_010, 6).unwrap();
    // a second purchase would push wallet_a to 6 tickets, past the cap of 5
    let r = buy_tickets(&mut state, &b"wallet_a".to_vec(), 3, None, true, 1_011, 7);
    assert_eq!(
        r,
        Err(ContractError::TooManyTickets {
            max_tickets_per_wallet: 5
        })
    );
    // the failed purchase touched nothing: the state equals a fresh replay
    // of the successful prefix
    let mut replay = fresh_state(config);
    buy_tickets(&mut replay, &b"wallet_a".to_vec(), 3, None, true, 1_010, 6).unwrap();
    assert_eq!(state, replay);
}

#[test]
fn tournament_gating_requires_prior_round_play() {
    let mut config = base_config();
    config.targets.funding_level = Some(10);
    config.ticket_price = 1;
    config.max_tickets_per_wallet = None;
    let msg = InstantiateMsg {
        name: None,
        rounds: InitialRounds {
            configs: vec![config.clone(), config],
            count: 4,
        },
        tournament: Some(true),
        activate: None,
    };
    let mut state = initialize(b"owner".to_vec(), msg, 1_000, 5).unwrap();
    buy_tickets(&mut state, &b"wallet_a".to_vec(), 4, None, true, 1_010, 6).unwrap();
    buy_tickets(&mut state, &b"wallet_b".to_vec(), 6, None, true, 1_020, 7).unwrap();
    // round 0 ended; round 1 runs under config index 1 of the tournament
    assert_eq!(state.lottery.rounds.index, 1);
    // a wallet with no player row in round 0 is rejected
    let r = buy_tickets(&mut state, &b"wallet_c".to_vec(), 1, None, true, 1_030, 8);
    assert_eq!(r, Err(ContractError::Forbidden));
    // a round-0 participant may enter
    buy_tickets(&mut state, &b"wallet_a".to_vec(), 1, None, true, 1_040, 9).unwrap();
    assert_eq!(state.rounds[1].round.counts.wallets, 1);
}

#[test]
fn add_incentives_empty_rewards_touches_nothing() {
    let mut state = fresh_state(base_config());
    let r = add_incentives(&mut state, &b"donor".to_vec(), vec![]);
    assert_eq!(r, Err(ContractError::MissingRewards));
    assert_eq!(state, fresh_state(base_config()));
}

#[test]
fn add_incentives_records_the_donation() {
    let mut state = fresh_state(base_config());
    let rewards = vec![Reward {
        token: None,
        position: Some(1),
    }];
    add_incentives(&mut state, &b"donor".to_vec(), rewards.clone()).unwrap();
    assert_eq!(state.rounds[0].incentives.len(), 1);
    assert_eq!(state.rounds[0].incentives[0].source, b"donor".to_vec());
    assert_eq!(state.rounds[0].incentives[0].rewards, rewards);
}

#[test]
fn refund_on_active_round_is_forbidden() {
    let mut state = fresh_state(base_config());
    buy_tickets(&mut state, &b"wallet_a".to_vec(), 3, None, true, 1_010, 6).unwrap();
    let r = issue_refund(&mut state, &b"owner".to_vec(), 0, &b"wallet_a".to_vec());
    assert_eq!(r, Err(ContractError::Forbidden));
    // nothing was removed
    assert_eq!(state.rounds[0].players.len(), 1);
    assert_eq!(state.rounds[0].orders.len(), 1);
}

#[test]
fn refund_on_canceled_round_removes_the_player() {
    let mut state = fresh_state(base_config());
    buy_tickets(&mut state, &b"wallet_a".to_vec(), 3, None, true, 1_010, 6).unwrap();
    buy_tickets(&mut state, &b"wallet_a".to_vec(), 2, None, true, 1_011, 7).unwrap();
    buy_tickets(&mut state, &b"wallet_b".to_vec(), 1, None, true, 1_012, 8).unwrap();
    state.rounds[0].round.status = RoundStatus::Canceled;
    let r = issue_refund(&mut state, &b"owner".to_vec(), 0, &b"wallet_a".to_vec());
    assert_eq!(r, Ok(50)); // 5 tickets at price 10
    assert_eq!(state.rounds[0].players.len(), 1);
    assert_eq!(state.rounds[0].players[0].wallet, b"wallet_b".to_vec());
    assert_eq!(state.rounds[0].round.counts.tickets, 1);
    assert_eq!(state.rounds[0].round.counts.wallets, 1);
    assert_eq!(state.rounds[0].round.counts.orders, 1);
    assert_eq!(state.rounds[0].orders.len(), 1);
}

#[test]
fn refund_needs_the_owner() {
    let mut state = fresh_state(base_config());
    buy_tickets(&mut state, &b"wallet_a".to_vec(), 3, None, true, 1_010, 6).unwrap();
    state.rounds[0].round.status = RoundStatus::Canceled;
    let r = issue_refund(&mut state, &b"wallet_a".to_vec(), 0, &b"wallet_a".to_vec());
    assert_eq!(r, Err(ContractError::NotAuthorized));
}

#[test]
fn refund_for_unknown_player() {
    let mut state = fresh_state(base_config());
    buy_tickets(&mut state, &b"wallet_a".to_vec(), 3, None, true, 1_010, 6).unwrap();
    state.rounds[0].round.status = RoundStatus::Canceled;
    let r = issue_refund(&mut state, &b"owner".to_vec(), 0, &b"wallet_c".to_vec());
    assert_eq!(r, Err(ContractError::PlayerNotFound));
}

#[test]
fn refund_past_the_current_round() {
    let mut state = fresh_state(base_config());
    let r = issue_refund(&mut state, &b"owner".to_vec(), 7, &b"wallet_a".to_vec());
    assert_eq!(r, Err(ContractError::RoundNotFound));
}

#[test]
fn terminate_before_the_target_does_nothing() {
    let mut state = fresh_state(base_config());
    buy_tickets(&mut state, &b"wallet_a".to_vec(), 3, None, true, 1_010, 6).unwrap();
    let r = terminate_round(&mut state, &b"owner".to_vec(), 1_020, 7).unwrap();
    assert!(r.is_empty());
    assert_eq!(state.rounds[0].round.status, RoundStatus::Active);
    assert_eq!(state.lottery.rounds.index, 0);
}

#[test]
fn terminate_on_a_duration_target() {
    let mut config = base_config();
    config.targets = Targets {
        funding_level: None,
        duration_minutes: Some(10),
    };
    let mut state = fresh_state(config);
    buy_tickets(&mut state, &b"wallet_a".to_vec(), 3, None, true, 1_010, 6).unwrap();
    buy_tickets(&mut state, &b"wallet_b".to_vec(), 7, None, true, 1_020, 7).unwrap();
    // the round began at time 1_000; ten minutes is 600 seconds
    let early = terminate_round(&mut state, &b"owner".to_vec(), 1_599, 8).unwrap();
    assert!(early.is_empty());
    assert_eq!(state.rounds[0].round.status, RoundStatus::Active);
    terminate_round(&mut state, &b"owner".to_vec(), 1_600, 9).unwrap();
    assert_eq!(state.rounds[0].round.status, RoundStatus::Complete);
    assert_eq!(state.lottery.rounds.index, 1);
}

#[test]
fn autosend_royalties_come_back_to_the_caller() {
    let mut config = base_config();
    config.royalties = vec![
        RoyaltyRecipient {
            address: b"auto".to_vec(),
            autosend: Some(true),
            pct: 5,
        },
        RoyaltyRecipient {
            address: b"held".to_vec(),
            autosend: Some(false),
            pct: 10,
        },
    ];
    let mut state = fresh_state(config);
    buy_tickets(&mut state, &b"wallet_a".to_vec(), 3, None, true, 1_010, 6).unwrap();
    let royalties = buy_tickets(&mut state, &b"wallet_b".to_vec(), 7, None, true, 1_020, 7).unwrap();
    assert_eq!(royalties.len(), 1);
    assert_eq!(royalties[0].address, b"auto".to_vec());
    assert_eq!(royalties[0].pct, 5);
    // the autosend recipient accrues no claim; the held one does: 10% of 100
    assert_eq!(claim_of(&state, b"auto"), None);
    assert_eq!(claim_of(&state, b"held"), Some(10));
    // winners split pot minus both royalty cuts: 100 - 5 - 10 = 85
    let a = claim_of(&state, b"wallet_a").unwrap_or(0);
    let b = claim_of(&state, b"wallet_b").unwrap_or(0);
    assert_eq!(a + b, 59 + 25); // 70% and 30% of 85, rounded down
}

#[test]
fn final_round_completes_the_lottery() {
    let msg = InstantiateMsg {
        name: None,
        rounds: InitialRounds {
            configs: vec![base_config()],
            count: 1,
        },
        tournament: None,
        activate: None,
    };
    let mut state = initialize(b"owner".to_vec(), msg, 1_000, 5).unwrap();
    buy_tickets(&mut state, &b"wallet_a".to_vec(), 3, None, true, 1_010, 6).unwrap();
    buy_tickets(&mut state, &b"wallet_b".to_vec(), 7, None, true, 1_020, 7).unwrap();
    assert_eq!(state.lottery.status, LotteryStatus::Complete);
    assert_eq!(state.lottery.rounds.index, 0);
    assert_eq!(state.rounds.len(), 1);
}

#[test]
fn single_wallet_round_is_absorbed() {
    let mut state = fresh_state(base_config());
    // one wallet alone reaches the funding level; the round is not settled
    let r = buy_tickets(&mut state, &b"wallet_a".to_vec(), 10, None, true, 1_010, 6).unwrap();
    assert!(r.is_empty());
    assert_eq!(state.rounds[0].round.status, RoundStatus::Active);
    assert_eq!(state.lottery.rounds.index, 0);
    assert!(state.claims.is_empty());
}

#[test]
fn percent_selection_draws_winners() {
    let mut config = base_config();
    config.selection = WinnerSelection {
        method: WinnerSelectionMethod::Percent {
            pct: 100,
            max: None,
        },
        with_replacement: false,
    };
    config.royalties = vec![];
    let mut state = fresh_state(config);
    buy_tickets(&mut state, &b"wallet_a".to_vec(), 3, None, true, 1_010, 6).unwrap();
    buy_tickets(&mut state, &b"wallet_b".to_vec(), 7, None, true, 1_020, 7).unwrap();
    // two wallets at 100 percent: two winners, 50 each of the whole pot
    assert_eq!(claim_of(&state, b"wallet_a"), Some(50));
    assert_eq!(claim_of(&state, b"wallet_b"), Some(50));
}

#[test]
fn order_messages_perturb_the_seed() {
    let mut s1 = fresh_state(base_config());
    let mut s2 = fresh_state(base_config());
    buy_tickets(&mut s1, &b"wallet_a".to_vec(), 1, None, true, 1_010, 6).unwrap();
    buy_tickets(
        &mut s2,
        &b"wallet_a".to_vec(),
        1,
        Some("good luck".to_string()),
        true,
        1_010,
        6,
    )
    .unwrap();
    assert_ne!(s1.seed, s2.seed);
    assert_eq!(s1.rounds[0].orders[0].order.message, None);
    assert_eq!(
        s2.rounds[0].orders[0].order.message,
        Some("good luck".to_string())
    );
}

#[test]
fn percent_selection_max_acts_as_a_cap() {
    let mut config = base_config();
    config.selection = WinnerSelection {
        method: WinnerSelectionMethod::Percent {
            pct: 100,
            max: Some(1),
        },
        with_replacement: false,
    };
    config.royalties = vec![];
    let mut state = fresh_state(config);
    buy_tickets(&mut state, &b"wallet_a".to_vec(), 3, None, true, 1_010, 6).unwrap();
    buy_tickets(&mut state, &b"wallet_b".to_vec(), 7, None, true, 1_020, 7).unwrap();
    // two wallets at 100 percent would mean two winners, but the configured
    // maximum caps the drawing count at one, who takes the whole pot
    let winners: Vec<_> = state.claims.iter().filter(|c| c.amount > 0).collect();
    assert_eq!(winners.len(), 1);
    assert_eq!(winners[0].amount, 100);
}

#[test]
fn replacement_allows_repeat_wins() {
    let mut config = base_config();
    config.selection = WinnerSelection {
        method: WinnerSelectionMethod::Fixed(vec![50, 30, 20]),
        with_replacement: true,
    };
    config.royalties = vec![];
    let mut state = fresh_state(config);
    buy_tickets(&mut state, &b"wallet_a".to_vec(), 3, None, true, 1_010, 6).unwrap();
    buy_tickets(&mut state, &b"wallet_b".to_vec(), 7, None, true, 1_020, 7).unwrap();
    // the fixed split is truncated to the two participating wallets, so
    // two draws hand out 50 and 30 of the pot, possibly crediting one
    // wallet twice
    let total: u128 = state.claims.iter().map(|c| c.amount).sum();
    assert_eq!(total, 80);
    assert!(state.claims.len() <= 2 && !state.claims.is_empty());
}

#[test]
fn cw20_round_settles_like_a_native_one() {
    let mut config = base_config();
    config.token = Token::Cw20 {
        address: b"cw20_contract".to_vec(),
    };
    let mut state = fresh_state(config);
    buy_tickets(&mut state, &b"wallet_a".to_vec(), 3, None, true, 1_010, 6).unwrap();
    buy_tickets(&mut state, &b"wallet_b".to_vec(), 7, None, true, 1_020, 7).unwrap();
    assert_eq!(state.rounds[0].round.status, RoundStatus::Complete);
    let total: u128 = state.claims.iter().map(|c| c.amount).sum();
    assert_eq!(total, 100);
}
