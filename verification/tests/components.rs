use lottery_engine::error::ContractError;
use lottery_engine::execute::buy_tickets;
use lottery_engine::msg::{InitialRounds, InstantiateMsg};
use lottery_engine::query::get_round;
use lottery_engine::random::{seed_encode, seed_finalize, seed_init, seed_update, Prng};
use lottery_engine::round::{
    Config, RoundStatus, Targets, Token, WinnerSelection, WinnerSelectionMethod,
};
use lottery_engine::state::initialize;
use lottery_engine::utils::{apply_pct, verify_native_funds, Coin};

#[test]
fn apply_pct_rounds_down() {
    assert_eq!(apply_pct(100, 10), 10);
    assert_eq!(apply_pct(90, 70), 63);
    assert_eq!(apply_pct(90, 30), 27);
    assert_eq!(apply_pct(99, 50), 49);
    assert_eq!(apply_pct(0, 100), 0);
    assert_eq!(apply_pct(7, 0), 0);
}

#[test]
fn native_funds_are_checked_exactly() {
    let denom = "token".to_string();
    let exact = vec![Coin {
        denom: "token".to_string(),
        amount: 30,
    }];
    assert_eq!(verify_native_funds(&exact, 30, &denom), Ok(()));
    let low = vec![Coin {
        denom: "token".to_string(),
        amount: 29,
    }];
    assert_eq!(
        verify_native_funds(&low, 30, &denom),
        Err(ContractError::InsufficientFunds)
    );
    let high = vec![Coin {
        denom: "token".to_string(),
        amount: 31,
    }];
    assert_eq!(
        verify_native_funds(&high, 30, &denom),
        Err(ContractError::ExcessiveFunds)
    );
    let wrong = vec![Coin {
        denom: "other".to_string(),
        amount: 30,
    }];
    assert!(matches!(
        verify_native_funds(&wrong, 30, &denom),
        Err(ContractError::FundsInvalid { .. })
    ));
}

#[test]
fn seed_functions_are_deterministic() {
    let s0 = seed_init(&b"creator".to_vec(), 5);
    assert_eq!(s0, seed_init(&b"creator".to_vec(), 5));
    assert_ne!(s0, seed_init(&b"creator".to_vec(), 6));
    assert_eq!(s0.len(), 16);
    assert!(s0.iter().all(|b| b.is_ascii_hexdigit()));
    let s1 = seed_update(&s0, &b"buyer".to_vec(), 3, 10, &None);
    assert_eq!(s1, seed_update(&s0, &b"buyer".to_vec(), 3, 10, &None));
    assert_ne!(s1, seed_update(&s0, &b"buyer".to_vec(), 4, 10, &None));
    assert_ne!(
        s1,
        seed_update(&s0, &b"buyer".to_vec(), 3, 10, &Some(b"hi".to_vec()))
    );
    let s2 = seed_finalize(&s1, &b"ender".to_vec(), 11);
    assert_eq!(s2, seed_finalize(&s1, &b"ender".to_vec(), 11));
    assert_ne!(s2, seed_finalize(&s1, &b"other".to_vec(), 11));
}

#[test]
fn seed_decoding_round_trips() {
    let seed = seed_encode(0xdead_beef_1234_5678);
    let mut rng = Prng::from_seed(&seed).unwrap();
    assert_eq!(rng.state, 0xdead_beef_1234_5678);
    let a = rng.next_u64();
    let b = rng.next_u64();
    assert_ne!(a, b);
    let mut rng2 = Prng::from_seed(&seed).unwrap();
    assert_eq!(rng2.next_u64(), a);
    assert_eq!(rng2.next_u64(), b);
}

#[test]
fn malformed_seeds_are_refused() {
    assert_eq!(
        Prng::from_seed(&b"not hex".to_vec()).err(),
        Some(ContractError::InvalidSeed)
    );
    assert_eq!(
        Prng::from_seed(&b"0123456789ABCDEF".to_vec()).err(),
        Some(ContractError::InvalidSeed)
    );
    assert!(Prng::from_seed(&b"0123456789abcdef".to_vec()).is_ok());
}

fn settled_state() -> lottery_engine::state::State {
    let config = Config {
        name: Some("round".to_string()),
        targets: Targets {
            funding_level: Some(100),
            duration_minutes: None,
        },
        selection: WinnerSelection {
            method: WinnerSelectionMethod::Fixed(vec![70, 30]),
            with_replacement: false,
        },
        token: Token::Native {
            denom: "token".to_string(),
        },
        ticket_price: 10,
        max_tickets_per_wallet: None,
        royalties: vec![],
    };
    let msg = InstantiateMsg {
        name: None,
        rounds: InitialRounds {
            configs: vec![config],
            count: 2,
        },
        tournament: None,
        activate: None,
    };
    let mut state = initialize(b"owner".to_vec(), msg, 1_000, 5).unwrap();
    buy_tickets(&mut state, &b"wallet_a".to_vec(), 3, None, true, 1_010, 6).unwrap();
    buy_tickets(&mut state, &b"wallet_b".to_vec(), 7, None, false, 1_020, 7).unwrap();
    state
}

#[test]
fn get_round_reports_the_round() {
    let state = settled_state();
    let resp = get_round(&state, 0, Some(true), Some(true), Some(true)).unwrap();
    assert_eq!(resp.status, RoundStatus::Complete);
    assert_eq!(resp.counts.tickets, 10);
    assert_eq!(resp.counts.wallets, 2);
    assert_eq!(resp.counts.orders, 2);
    assert_eq!(resp.started_at, Some(1_000));
    assert_eq!(resp.ended_by, Some(b"wallet_b".to_vec()));
    assert_eq!(resp.config.ticket_price, 10);
    // players come back newest wallet key first
    let players = resp.players.unwrap();
    assert_eq!(players.len(), 2);
    assert_eq!(players[0].wallet, b"wallet_b".to_vec());
    assert_eq!(players[1].wallet, b"wallet_a".to_vec());
    // orders come back newest order index first
    let orders = resp.orders.unwrap();
    assert_eq!(orders.len(), 2);
    assert_eq!(orders[0].wallet, b"wallet_b".to_vec());
    assert!(!orders[0].is_public);
    assert_eq!(orders[1].wallet, b"wallet_a".to_vec());
    assert!(resp.winners.unwrap().is_empty());
}

#[test]
fn get_round_without_includes() {
    let state = settled_state();
    let resp = get_round(&state, 1, None, None, None).unwrap();
    assert_eq!(resp.status, RoundStatus::Active);
    assert!(resp.players.is_none());
    assert!(resp.winners.is_none());
    assert!(resp.orders.is_none());
}

#[test]
fn get_round_past_the_current_round() {
    let state = settled_state();
    assert_eq!(
        get_round(&state, 2, None, None, None).err(),
        Some(ContractError::RoundNotFound)
    );
}

#[test]
fn load_player_finds_a_row() {
    let state = settled_state();
    let player =
        lottery_engine::state::load_player(&state.rounds[0], &b"wallet_a".to_vec()).unwrap();
    assert_eq!(player.ticket_count, 3);
    assert_eq!(player.order_indices, vec![0]);
    assert_eq!(
        lottery_engine::state::load_player(&state.rounds[0], &b"wallet_c".to_vec()).err(),
        Some(ContractError::PlayerNotFound)
    );
}
