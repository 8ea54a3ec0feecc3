use vstd::prelude::*;

verus! {

/// Error kinds returned by the engine's fallible operations.
///
/// Every operation is a single fallible unit: on an error the caller must
/// discard the operation's mutations (the verified operations themselves
/// never leave the state partially mutated on an error path).
#[derive(Clone, Debug, PartialEq, Eq)]
pub enum ContractError {
    /// Setup-time structural violation of the lottery configuration.
    ValidationError { reason: Option<String> },
    /// A purchase was attempted on a round that is not active.
    InactiveRound,
    /// A purchase would push a wallet past the configured per-wallet cap.
    TooManyTickets { max_tickets_per_wallet: u32 },
    /// The caller lacks the required relationship (for a purchase: no player
    /// row in the previous round of a tournament; for a refund: the round is
    /// not canceled).
    Forbidden,
    /// An operation other than a purchase was attempted on a non-active round.
    NotActive,
    /// The caller is not the lottery owner.
    NotAuthorized,
    /// The submitted payment does not name the expected token.
    FundsInvalid { reason: String },
    /// A round lookup past the current round index.
    RoundNotFound,
    /// The submitted payment is below the required amount.
    InsufficientFunds,
    /// The submitted payment is above the required amount.
    ExcessiveFunds,
    /// A refund was attempted while the round is not canceled.
    NotCanceled,
    /// The refund recipient holds no player row in the round.
    PlayerNotFound,
    /// An incentive was submitted with an empty rewards list.
    MissingRewards,
    /// The persisted entropy seed could not be decoded.
    InvalidSeed,
}

} // verus!
