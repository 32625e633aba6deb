//! Plain data carried through the hub's transitions.
//!
//! Amounts are `u128` token quantities, times are unix seconds, batch ids
//! are `u64`.  Validators, denominations and account addresses are opaque
//! strings; the host validates address syntax before calling in.

use vstd::prelude::*;

verus! {

/// Number of atomic units in a whole: delegation-goal shares and the
/// protocol reward fee are fixed-point fractions over this scale.
pub const SHARE_SCALE: u128 = 1_000_000_000_000_000_000;

/// Hard cap on the protocol reward fee: one tenth of the scale.
pub const MAX_REWARD_FEE: u128 = 100_000_000_000_000_000;

/// First instant of the gauge calendar, unix seconds.
pub const EPOCH_START: u64 = 1664582400;

/// Length of one gauge period, unix seconds.
pub const WEEK: u64 = 604800;

/// Basis points in a whole; a defined strategy's shares sum to this.
pub const BPS_TOTAL: u64 = 10000;

/// A token amount of one denomination.
#[derive(Clone, Debug, PartialEq, Eq)]
pub struct Coin {
    pub denom: String,
    pub amount: u128,
}

/// An amount bonded, or to bond, with one validator.
#[derive(Clone, Debug, PartialEq, Eq)]
pub struct Delegation {
    pub validator: String,
    pub amount: u128,
}

/// An amount to undelegate from one validator.
#[derive(Clone, Debug, PartialEq, Eq)]
pub struct Undelegation {
    pub validator: String,
    pub amount: u128,
}

/// An amount to move from one validator to another.
#[derive(Clone, Debug, PartialEq, Eq)]
pub struct Redelegation {
    pub src: String,
    pub dst: String,
    pub amount: u128,
}

/// The single open batch that accumulates queued share redemptions.
#[derive(Clone, Copy, Debug, PartialEq, Eq)]
pub struct PendingBatch {
    pub id: u64,
    pub ustake_to_burn: u128,
    pub est_unbond_start_time: u64,
}

/// A submitted batch waiting out the unbonding window, then paying out.
#[derive(Clone, Copy, Debug, PartialEq, Eq)]
pub struct Batch {
    pub id: u64,
    pub total_shares: u128,
    pub utoken_unclaimed: u128,
    pub est_unbond_end_time: u64,
    pub reconciled: bool,
}

/// One user's queued share redemption within one batch.
#[derive(Clone, Debug, PartialEq, Eq)]
pub struct UnbondRequest {
    pub id: u64,
    pub user: String,
    pub shares: u128,
}

/// Protocol fee destination and rate, the rate a fraction of
/// [`SHARE_SCALE`].
#[derive(Clone, Debug, PartialEq, Eq)]
pub struct FeeConfig {
    pub protocol_fee_contract: String,
    pub protocol_reward_fee: u128,
}

/// Rule selecting which validators receive a bond and how an unbond is
/// split.  `Gauges` takes its desired split from an external gauge
/// loader; `Defined` carries an explicit basis-point split.
#[derive(Clone, Debug, PartialEq, Eq)]
pub enum DelegationStrategy {
    Uniform,
    Gauges,
    Defined { shares_bps: Vec<(String, u64)> },
}

/// A tuned per-validator desired split, each share a fraction of
/// [`SHARE_SCALE`].
#[derive(Clone, Debug, PartialEq, Eq)]
pub struct DelegationGoal {
    pub tune_time: u64,
    pub tune_period: u64,
    pub shares: Vec<(String, u128)>,
}

/// The stake denomination and its global totals.
#[derive(Clone, Debug, PartialEq, Eq)]
pub struct StakeToken {
    pub utoken: String,
    pub denom: String,
    pub total_supply: u128,
    pub total_utoken_bonded: u128,
}

/// The exchange rate recorded at one reinvest, kept as the exact pair.
#[derive(Clone, Copy, Debug, PartialEq, Eq)]
pub struct ExchangeRatePoint {
    pub time: u64,
    pub total_utoken_bonded: u128,
    pub total_supply: u128,
}

/// Everything a transition can reject.
#[derive(Clone, Debug, PartialEq, Eq)]
pub enum HubError {
    /// Caller holds neither the role the operation demands.
    Unauthorized,
    /// Caller of an ownership acceptance is not the proposed new owner.
    UnauthorizedSenderNotNewOwner,
    /// Proposed protocol reward fee exceeds the hard cap.
    ProtocolRewardFeeTooHigh,
    /// A tunable that must be positive was zero; carries its name.
    CantBeZero(String),
    /// Donations are switched off.
    DonationsDisabled,
    /// Exactly one coin had to be attached.
    ExpectingSingleCoin,
    /// An attached coin has the wrong denomination; carries it.
    WrongDenom(String),
    /// The operation's optional swap-pipeline arguments are not served.
    NotSupported,
    /// Batch submission attempted before the start time it carries.
    SubmitBatchAfter(u64),
    /// An operator-supplied undelegation split does not sum to the
    /// expected amount.
    SubmitBatchWrongSum,
    /// The reported bonded total no longer matches the stored one.
    StateChangedBonded,
    /// The reported delegation set has a different size than the ledger.
    StateChangedDelegations,
    /// A reported slash larger than the sanity cap was rejected.
    StateChangedBigSlash,
    /// An undelegation would drive a validator's balance negative.
    InsufficientBalance,
    /// A delta names a validator the ledger does not hold.
    ValidatorNotFound,
    /// A strategy entry names a validator outside the whitelist.
    NotWhitelisted(String),
    /// A strategy lists the same validator twice.
    Duplicated(String),
    /// A defined strategy's basis points do not sum to the whole.
    SharesWrongSum,
    /// A preset swap stage starts from the underlying or stake token.
    SwapFromNotAllowed(String),
    /// A preset swap stage fixes a belief price.
    BeliefPriceNotAllowed,
    /// Gauge shares handed to a tune do not sum to the whole.
    GaugesWrongSum,
    /// Reinvest found no unlocked coins to process.
    NoTokensAvailable,
    /// An addition left the 128-bit range.
    Overflow,
}

/// One stage of the preset reward-swap pipeline, reduced to what the
/// configuration rules inspect: the denomination swapped away and
/// whether a belief price was fixed.
#[derive(Clone, Debug, PartialEq, Eq)]
pub struct StageConfig {
    pub denom: String,
    pub has_belief_price: bool,
}

/// What the host must dispatch after a successful bond.
#[derive(Clone, Debug, PartialEq, Eq)]
pub struct BondPlan {
    /// The delegation to perform.
    pub delegation: Delegation,
    /// Shares to mint to the receiver; zero for a donation.
    pub mint_shares: u128,
}

/// What the host must dispatch after a successful batch submission.
#[derive(Clone, Debug, PartialEq, Eq)]
pub struct SubmitPlan {
    pub undelegations: Vec<Undelegation>,
    /// Shares to burn.
    pub burn_shares: u128,
}

/// What the host must dispatch after a successful reinvest.
#[derive(Clone, Debug, PartialEq, Eq)]
pub struct ReinvestPlan {
    /// Delegation of the unlocked underlying tokens, if any were held.
    pub delegation: Option<Delegation>,
    /// Stake tokens to burn, if any were held.
    pub burn_shares: u128,
    /// Protocol fees to pay out.
    pub fees: Vec<Coin>,
}

/// What the host must dispatch after a successful withdrawal.
#[derive(Clone, Debug, PartialEq, Eq)]
pub struct WithdrawPlan {
    /// Underlying tokens to send to the receiver.
    pub refund: u128,
    /// The batches the refund was drawn from.
    pub batch_ids: Vec<u64>,
}

} // verus!
