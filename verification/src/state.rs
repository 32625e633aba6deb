//! The hub's whole state and its well-formedness invariant.

use vstd::prelude::*;
use crate::batches::{sum_request_shares, uniq_batch_ids, uniq_request_keys};
use crate::coins::uniq_denoms;
use crate::ledger::AllianceDelegations;
use crate::math::{goal_wf, strategy_wf};
use crate::types::{
    Coin, DelegationGoal, DelegationStrategy, ExchangeRatePoint, FeeConfig, PendingBatch,
    StakeToken, UnbondRequest, MAX_REWARD_FEE,
};
use crate::types::Batch;

verus! {

/// Everything the hub persists.  A transition reads the state, returns
/// the next state together with the side effects the host must
/// dispatch, and the host commits both atomically.
#[derive(Clone, Debug)]
pub struct HubState {
    pub stake: StakeToken,
    pub delegations: AllianceDelegations,
    pub pending: PendingBatch,
    pub previous_batches: Vec<Batch>,
    pub unbond_requests: Vec<UnbondRequest>,
    pub unlocked_coins: Vec<Coin>,
    pub exchange_history: Vec<ExchangeRatePoint>,
    pub owner: String,
    pub new_owner: Option<String>,
    pub operator: String,
    pub validator_proxy: String,
    pub epoch_period: u64,
    pub unbond_period: u64,
    pub fee_config: FeeConfig,
    pub delegation_strategy: DelegationStrategy,
    pub delegation_goal: Option<DelegationGoal>,
    pub allow_donations: bool,
    pub default_max_spread: u64,
    pub stages_preset: Vec<Vec<crate::types::StageConfig>>,
    pub withdrawals_preset: Vec<String>,
    pub whale_denom: String,
    pub btc_denom: String,
    pub whale_btc_pool: String,
}

impl HubState {
    /// The invariant every transition preserves.
    ///
    /// The ledger's validators are distinct and its column sums to the
    /// bonded total.  Batch ids are distinct and all below the pending
    /// batch's id, so at most one batch accumulates and ids stay
    /// monotone.  Request keys are distinct, every request carries
    /// positive shares under a batch no newer than the pending one, and
    /// each batch's share total is exactly the sum of its requests.
    /// Unlocked coins are deduplicated by denomination, the reward fee
    /// honours its cap, the periods are positive, and any tuned goal or
    /// defined strategy is usable.
    pub open spec fn wf(self) -> bool {
        &&& self.delegations.wf()
        &&& self.delegations.total() == self.stake.total_utoken_bonded
        &&& uniq_batch_ids(self.previous_batches@)
        &&& forall|i: int|
            0 <= i < self.previous_batches@.len() ==> (#[trigger] self.previous_batches@[i]).id
                < self.pending.id
        &&& uniq_request_keys(self.unbond_requests@)
        &&& forall|i: int|
            0 <= i < self.unbond_requests@.len() ==> (#[trigger] self.unbond_requests@[i]).shares
                > 0 && self.unbond_requests@[i].id <= self.pending.id
        &&& self.pending.ustake_to_burn == sum_request_shares(
            self.unbond_requests@,
            self.pending.id,
        )
        &&& forall|i: int|
            0 <= i < self.previous_batches@.len() ==> (#[trigger] self.previous_batches@[
                i
            ]).total_shares == sum_request_shares(
                self.unbond_requests@,
                self.previous_batches@[i].id,
            )
        &&& uniq_denoms(self.unlocked_coins@)
        &&& self.fee_config.protocol_reward_fee <= MAX_REWARD_FEE
        &&& self.epoch_period > 0
        &&& self.unbond_period > 0
        &&& (self.delegation_goal matches Some(g) ==> goal_wf(g))
        &&& strategy_wf(self.delegation_strategy)
    }
}

} // verus!
