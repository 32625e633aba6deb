//! The hub's transitions.
//!
//! Each function takes the current [`HubState`] and plain inputs — the
//! caller, the block time, fresh balance or delegation queries — and
//! returns the next state together with what the host must dispatch, or
//! the error that aborts the whole transition.  Every transition
//! preserves [`HubState::wf`].

use vstd::prelude::*;
use crate::arith::{lemma_ratio_le_left, mul_ratio};
use crate::batches::{
    find_request, key_shares, lemma_key_shares_index, lemma_key_shares_push,
    lemma_key_shares_update, lemma_request_le_sum, lemma_request_shares_push,
    lemma_request_shares_update, sum_request_shares,
};
use crate::coins::{add_coin, coin_amount};
use crate::ledger::{sum_amounts, uniq_validators, AllianceDelegations};
use crate::types::Delegation;
use crate::math::{
    spec_defined_valid, spec_strategy_valid, spec_whitelisted, strategy_wf, sum_bps,
    uniq_bps_keys, uniq_share_keys, uniq_strings,
};
use crate::state::HubState;
use crate::types::{
    Coin, DelegationGoal, DelegationStrategy, FeeConfig, HubError, PendingBatch, StakeToken,
    UnbondRequest, BPS_TOTAL, MAX_REWARD_FEE,
};

verus! {

/// Whether a validator name stands in the whitelist.
pub fn contains_string(list: &Vec<String>, v: &String) -> (r: bool)
    ensures
        r == spec_whitelisted(list@, v@),
{
    let n: usize = list.len();
    let mut k: usize = 0;
    while k < n
        invariant
            n == list@.len(),
            k <= n,
            forall|i: int| 0 <= i < k ==> list@[i]@ != v@,
        decreases n - k,
    {
        if list[k] == *v {
            return true;
        }
        k += 1;
    }
    false
}

/// Check that exactly one coin of the expected denomination, with a
/// positive amount, was attached, and hand its amount back.
pub fn validate_received_funds(funds: &Vec<Coin>, denom: &String) -> (r: Result<u128, HubError>)
    ensures
        r is Ok <==> (funds@.len() == 1 && funds@[0].denom@ == denom@ && funds@[0].amount > 0),
        r is Ok ==> r->Ok_0 == funds@[0].amount,
        funds@.len() != 1 ==> r == Err::<u128, HubError>(HubError::ExpectingSingleCoin),
        funds@.len() == 1 && funds@[0].denom@ != denom@ ==> (r matches Err(
            HubError::WrongDenom(d),
        ) && d@ == funds@[0].denom@),
        funds@.len() == 1 && funds@[0].denom@ == denom@ && funds@[0].amount == 0 ==> (r matches Err(
            HubError::CantBeZero(m),
        ) && m@ == "deposit"@),
{
    if funds.len() != 1 {
        return Err(HubError::ExpectingSingleCoin);
    }
    if !(funds[0].denom == *denom) {
        return Err(HubError::WrongDenom(funds[0].denom.clone()));
    }
    if funds[0].amount == 0 {
        return Err(HubError::CantBeZero("deposit".to_owned()));
    }
    Ok(funds[0].amount)
}

/// Check a defined split against the whitelist, entry by entry: an
/// unlisted validator, then a duplicate, then a wrong basis-point sum
/// each abort.
pub fn validate_defined(shares_bps: &Vec<(String, u64)>, validators: &Vec<String>) -> (r: Result<
    (),
    HubError,
>)
    ensures
        r is Ok <==> spec_defined_valid(shares_bps@, validators@),
        r matches Err(HubError::NotWhitelisted(d)) ==> exists|i: int|
            0 <= i < shares_bps@.len() && (#[trigger] shares_bps@[i]).0@ == d@
                && !spec_whitelisted(validators@, d@),
        r matches Err(HubError::Duplicated(d)) ==> exists|i: int, j: int|
            0 <= i < j < shares_bps@.len() && shares_bps@[i].0@ == shares_bps@[j].0@
                && shares_bps@[j].0@ == d@,
        r is Err ==> (r->Err_0 matches HubError::NotWhitelisted(_) || r->Err_0 matches
            HubError::Duplicated(_) || r->Err_0 == HubError::SharesWrongSum),
        uniq_bps_keys(shares_bps@) && (exists|i: int|
            0 <= i < shares_bps@.len() && !spec_whitelisted(
                validators@,
                (#[trigger] shares_bps@[i]).0@,
            )) ==> (r matches Err(HubError::NotWhitelisted(d)) && !spec_whitelisted(
            validators@,
            d@,
        )),
        (forall|i: int|
            0 <= i < shares_bps@.len() ==> spec_whitelisted(
                validators@,
                (#[trigger] shares_bps@[i]).0@,
            )) && !uniq_bps_keys(shares_bps@) ==> r matches Err(HubError::Duplicated(_)),
        (forall|i: int|
            0 <= i < shares_bps@.len() ==> spec_whitelisted(
                validators@,
                (#[trigger] shares_bps@[i]).0@,
            )) && uniq_bps_keys(shares_bps@) && sum_bps(shares_bps@) != BPS_TOTAL ==> r == Err::<
            (),
            HubError,
        >(HubError::SharesWrongSum),
{
    let n: usize = shares_bps.len();
    let mut total: u128 = 0;
    let mut k: usize = 0;
    while k < n
        invariant
            n == shares_bps@.len(),
            k <= n,
            total == sum_bps(shares_bps@.subrange(0, k as int)),
            total <= (k as int) * 0xffff_ffff_ffff_ffffu64,
            forall|i: int|
                0 <= i < k ==> spec_whitelisted(validators@, (#[trigger] shares_bps@[i]).0@),
            forall|i: int, j: int| 0 <= i < j < k ==> shares_bps@[i].0@ != shares_bps@[j].0@,
        decreases n - k,
    {
        if !contains_string(validators, &shares_bps[k].0) {
            proof {
                assert(!spec_whitelisted(validators@, (shares_bps@[k as int]).0@));
            }
            return Err(HubError::NotWhitelisted(shares_bps[k].0.clone()));
        }
        let mut j: usize = 0;
        while j < k
            invariant
                k < n,
                n == shares_bps@.len(),
                j <= k,
                forall|i: int| 0 <= i < j ==> shares_bps@[i].0@ != shares_bps@[k as int].0@,
            decreases k - j,
        {
            if shares_bps[j].0 == shares_bps[k].0 {
                proof {
                    assert(shares_bps@[j as int].0@ == shares_bps@[k as int].0@);
                    assert(!uniq_bps_keys(shares_bps@));
                }
                return Err(HubError::Duplicated(shares_bps[k].0.clone()));
            }
            j += 1;
        }
        proof {
            assert(shares_bps@.subrange(0, k + 1).drop_last() =~= shares_bps@.subrange(
                0,
                k as int,
            ));
            assert(shares_bps@.subrange(0, k + 1).last() == shares_bps@[k as int]);
            vstd::arithmetic::mul::lemma_mul_is_distributive_add_other_way(
                0xffff_ffff_ffff_ffffu64 as int,
                k as int,
                1,
            );
        }
        total = total + shares_bps[k].1 as u128;
        k += 1;
    }
    proof {
        assert(shares_bps@.subrange(0, n as int) =~= shares_bps@);
    }
    if total != BPS_TOTAL as u128 {
        return Err(HubError::SharesWrongSum);
    }
    Ok(())
}

impl DelegationStrategy {
    /// Check a strategy against the whitelist: a defined strategy must
    /// name whitelisted, pairwise distinct validators whose basis
    /// points sum to the whole; the other strategies carry nothing to
    /// check.
    pub fn validate(&self, validators: &Vec<String>) -> (r: Result<(), HubError>)
        ensures
            r is Ok <==> spec_strategy_valid(*self, validators@),
            r is Ok ==> strategy_wf(*self),
            r is Err ==> (r->Err_0 matches HubError::NotWhitelisted(_) || r->Err_0 matches
                HubError::Duplicated(_) || r->Err_0 == HubError::SharesWrongSum),
            self matches DelegationStrategy::Defined { shares_bps } ==> ({
                &&& (r matches Err(HubError::NotWhitelisted(d)) ==> exists|i: int|
                    0 <= i < shares_bps@.len() && (#[trigger] shares_bps@[i]).0@ == d@
                        && !spec_whitelisted(validators@, d@))
                &&& (r matches Err(HubError::Duplicated(d)) ==> exists|i: int, j: int|
                    0 <= i < j < shares_bps@.len() && shares_bps@[i].0@ == shares_bps@[j].0@
                        && shares_bps@[j].0@ == d@)
                &&& (uniq_bps_keys(shares_bps@) && (exists|i: int|
                    0 <= i < shares_bps@.len() && !spec_whitelisted(
                        validators@,
                        (#[trigger] shares_bps@[i]).0@,
                    )) ==> (r matches Err(HubError::NotWhitelisted(d)) && !spec_whitelisted(
                    validators@,
                    d@,
                )))
                &&& ((forall|i: int|
                    0 <= i < shares_bps@.len() ==> spec_whitelisted(
                        validators@,
                        (#[trigger] shares_bps@[i]).0@,
                    )) && !uniq_bps_keys(shares_bps@) ==> r matches Err(
                    HubError::Duplicated(_),
                ))
                &&& ((forall|i: int|
                    0 <= i < shares_bps@.len() ==> spec_whitelisted(
                        validators@,
                        (#[trigger] shares_bps@[i]).0@,
                    )) && uniq_bps_keys(shares_bps@) && sum_bps(shares_bps@) != BPS_TOTAL ==> r
                    == Err::<(), HubError>(HubError::SharesWrongSum))
            }),
    {
        match self {
            DelegationStrategy::Defined { shares_bps } => {
                proof {
                    assert(*self == (DelegationStrategy::Defined { shares_bps: *shares_bps }));
                }
                validate_defined(shares_bps, validators)
            },
            _ => Ok(()),
        }
    }
}

/// No preset swap stage starts from either of the given denominations.
pub open spec fn spec_stages_swap_ok(
    stages: Seq<Vec<crate::types::StageConfig>>,
    utoken: Seq<char>,
    denom: Seq<char>,
) -> bool {
    forall|i: int, j: int|
        0 <= i < stages.len() && 0 <= j < stages[i]@.len() ==> (#[trigger] stages[i]@[j].denom)@
            != utoken && stages[i]@[j].denom@ != denom
}

/// No preset swap stage fixes a belief price.
pub open spec fn spec_stages_price_ok(stages: Seq<Vec<crate::types::StageConfig>>) -> bool {
    forall|i: int, j: int|
        0 <= i < stages.len() && 0 <= j < stages[i]@.len() ==> !(
        #[trigger] stages[i]@[j].has_belief_price)
}

/// The preset swap stages must not swap away the underlying token or
/// the stake token.
pub fn validate_no_utoken_or_ustake_swap(
    stages: &Vec<Vec<crate::types::StageConfig>>,
    stake: &StakeToken,
) -> (r: Result<(), HubError>)
    ensures
        r is Ok <==> spec_stages_swap_ok(stages@, stake.utoken@, stake.denom@),
        r matches Err(HubError::SwapFromNotAllowed(d)) ==> (d@ == stake.utoken@ || d@
            == stake.denom@),
        r is Err ==> r->Err_0 matches HubError::SwapFromNotAllowed(_),
{
    let n: usize = stages.len();
    let mut i: usize = 0;
    while i < n
        invariant
            n == stages@.len(),
            i <= n,
            forall|a: int, b: int|
                0 <= a < i && 0 <= b < stages@[a]@.len() ==> (#[trigger] stages@[a]@[b].denom)@
                    != stake.utoken@ && stages@[a]@[b].denom@ != stake.denom@,
        decreases n - i,
    {
        let m: usize = stages[i].len();
        let mut j: usize = 0;
        while j < m
            invariant
                i < n,
                n == stages@.len(),
                m == stages@[i as int]@.len(),
                j <= m,
                forall|b: int|
                    0 <= b < j ==> (#[trigger] stages@[i as int]@[b].denom)@ != stake.utoken@
                        && stages@[i as int]@[b].denom@ != stake.denom@,
            decreases m - j,
        {
            if stages[i][j].denom == stake.utoken || stages[i][j].denom == stake.denom {
                return Err(HubError::SwapFromNotAllowed(stages[i][j].denom.clone()));
            }
            j += 1;
        }
        i += 1;
    }
    Ok(())
}

/// The preset swap stages must not fix a belief price.
pub fn validate_no_belief_price(stages: &Vec<Vec<crate::types::StageConfig>>) -> (r: Result<
    (),
    HubError,
>)
    ensures
        r is Ok <==> spec_stages_price_ok(stages@),
        r is Err ==> r == Err::<(), HubError>(HubError::BeliefPriceNotAllowed),
{
    let n: usize = stages.len();
    let mut i: usize = 0;
    while i < n
        invariant
            n == stages@.len(),
            i <= n,
            forall|a: int, b: int|
                0 <= a < i && 0 <= b < stages@[a]@.len() ==> !(
                #[trigger] stages@[a]@[b].has_belief_price),
        decreases n - i,
    {
        let m: usize = stages[i].len();
        let mut j: usize = 0;
        while j < m
            invariant
                i < n,
                n == stages@.len(),
                m == stages@[i as int]@.len(),
                j <= m,
                forall|b: int|
                    0 <= b < j ==> !(#[trigger] stages@[i as int]@[b].has_belief_price),
            decreases m - j,
        {
            if stages[i][j].has_belief_price {
                return Err(HubError::BeliefPriceNotAllowed);
            }
            j += 1;
        }
        i += 1;
    }
    Ok(())
}

/// The exchange rate as the exact pair `(bonded, supply)`, or one to
/// one while no shares exist.
pub fn calc_current_exchange_rate(stake: &StakeToken) -> (r: (u128, u128))
    ensures
        stake.total_supply == 0 ==> r == (1u128, 1u128),
        stake.total_supply != 0 ==> r == (stake.total_utoken_bonded, stake.total_supply),
{
    if stake.total_supply == 0 {
        (1, 1)
    } else {
        (stake.total_utoken_bonded, stake.total_supply)
    }
}

/// Stand up a fresh hub.  The protocol fee must honour its cap, the
/// periods must be positive and the strategy must validate against the
/// whitelist; donations start disabled, totals at zero, and the first
/// pending batch opens with id 1.
pub fn instantiate(
    owner: String,
    operator: String,
    utoken: String,
    full_denom: String,
    epoch_period: u64,
    unbond_period: u64,
    protocol_fee_contract: String,
    protocol_reward_fee: u128,
    delegation_strategy: Option<DelegationStrategy>,
    validator_proxy: String,
    whale_denom: String,
    btc_denom: String,
    whale_btc_pool: String,
    validators: &Vec<String>,
    now: u64,
) -> (r: Result<HubState, HubError>)
    requires
        now + epoch_period <= u64::MAX,
    ensures
        match r {
            Ok(s) => s.wf() && protocol_reward_fee <= MAX_REWARD_FEE && epoch_period > 0
                && unbond_period > 0 && (match delegation_strategy {
                Some(st) => spec_strategy_valid(st, validators@) && s.delegation_strategy == st,
                None => s.delegation_strategy is Uniform,
            }) && s.owner@ == owner@ && s.operator@ == operator@ && s.stake.utoken@ == utoken@
                && s.stake.denom@ == full_denom@ && s.stake.total_supply == 0
                && s.stake.total_utoken_bonded == 0 && s.delegations.delegations@.len() == 0
                && s.pending == (PendingBatch {
                id: 1,
                ustake_to_burn: 0,
                est_unbond_start_time: (now + epoch_period) as u64,
            }) && s.previous_batches@.len() == 0 && s.unbond_requests@.len() == 0
                && s.unlocked_coins@.len() == 0 && s.exchange_history@.len() == 0 && s.new_owner
                is None && s.epoch_period == epoch_period && s.unbond_period == unbond_period
                && s.fee_config.protocol_reward_fee == protocol_reward_fee
                && s.fee_config.protocol_fee_contract@ == protocol_fee_contract@
                && !s.allow_donations && s.delegation_goal is None && s.validator_proxy@
                == validator_proxy@,
            Err(e) => {
                ||| e == HubError::ProtocolRewardFeeTooHigh && protocol_reward_fee
                    > MAX_REWARD_FEE
                ||| e matches HubError::CantBeZero(_) && (epoch_period == 0 || unbond_period == 0)
                ||| (e matches HubError::NotWhitelisted(_) || e matches HubError::Duplicated(_)
                    || e == HubError::SharesWrongSum) && (delegation_strategy matches Some(st)
                    && !spec_strategy_valid(st, validators@))
            },
        },
        protocol_reward_fee <= MAX_REWARD_FEE && epoch_period == 0 ==> (r matches Err(
            HubError::CantBeZero(m),
        ) && m@ == "epoch_period"@),
        protocol_reward_fee <= MAX_REWARD_FEE && epoch_period > 0 && unbond_period == 0 ==> (r
            matches Err(HubError::CantBeZero(m)) && m@ == "unbond_period"@),
        r is Err <==> (protocol_reward_fee > MAX_REWARD_FEE || epoch_period == 0 || unbond_period
            == 0 || (delegation_strategy matches Some(st) && !spec_strategy_valid(
            st,
            validators@,
        ))),
{
    if protocol_reward_fee > MAX_REWARD_FEE {
        return Err(HubError::ProtocolRewardFeeTooHigh);
    }
    if epoch_period == 0 {
        return Err(HubError::CantBeZero("epoch_period".to_owned()));
    }
    if unbond_period == 0 {
        return Err(HubError::CantBeZero("unbond_period".to_owned()));
    }
    let strategy: DelegationStrategy = match delegation_strategy {
        Some(st) => st,
        None => DelegationStrategy::Uniform,
    };
    match strategy.validate(validators) {
        Ok(()) => {},
        Err(e) => {
            return Err(e);
        },
    }
    Ok(
        HubState {
            stake: StakeToken {
                utoken,
                denom: full_denom,
                total_supply: 0,
                total_utoken_bonded: 0,
            },
            delegations: AllianceDelegations { delegations: Vec::new() },
            pending: PendingBatch {
                id: 1,
                ustake_to_burn: 0,
                est_unbond_start_time: now + epoch_period,
            },
            previous_batches: Vec::new(),
            unbond_requests: Vec::new(),
            unlocked_coins: Vec::new(),
            exchange_history: Vec::new(),
            owner,
            new_owner: None,
            operator,
            validator_proxy,
            epoch_period,
            unbond_period,
            fee_config: FeeConfig { protocol_fee_contract, protocol_reward_fee },
            delegation_strategy: strategy,
            delegation_goal: None,
            allow_donations: false,
            default_max_spread: 10,
            stages_preset: Vec::new(),
            withdrawals_preset: Vec::new(),
            whale_denom,
            btc_denom,
            whale_btc_pool,
        },
    )
}

/// Store the proposed new owner.  Only the current owner may propose.
pub fn transfer_ownership(state: HubState, sender: &String, new_owner: String) -> (r: Result<
    HubState,
    HubError,
>)
    requires
        state.wf(),
    ensures
        sender@ != state.owner@ ==> r == Err::<HubState, HubError>(HubError::Unauthorized),
        sender@ == state.owner@ ==> (r matches Ok(s) && s.wf() && (s.new_owner matches Some(n)
            && n@ == new_owner@) && s == (HubState { new_owner: s.new_owner, ..state })),
{
    if !(*sender == state.owner) {
        return Err(HubError::Unauthorized);
    }
    Ok(HubState { new_owner: Some(new_owner), ..state })
}

/// Clear any ownership proposal.  Only the current owner may.
pub fn drop_ownership_proposal(state: HubState, sender: &String) -> (r: Result<
    HubState,
    HubError,
>)
    requires
        state.wf(),
    ensures
        sender@ != state.owner@ ==> r == Err::<HubState, HubError>(HubError::Unauthorized),
        sender@ == state.owner@ ==> (r matches Ok(s) && s.wf() && s.new_owner is None && s == (
        HubState { new_owner: None, ..state })),
{
    if !(*sender == state.owner) {
        return Err(HubError::Unauthorized);
    }
    Ok(HubState { new_owner: None, ..state })
}

/// Commit a pending ownership transfer.  Only the proposed new owner
/// may accept; without a proposal nobody can.
pub fn accept_ownership(state: HubState, sender: &String) -> (r: Result<HubState, HubError>)
    requires
        state.wf(),
    ensures
        !(state.new_owner matches Some(n) && n@ == sender@) ==> r == Err::<HubState, HubError>(
            HubError::UnauthorizedSenderNotNewOwner,
        ),
        (state.new_owner matches Some(n) && n@ == sender@) ==> (r matches Ok(s) && s.wf()
            && s.owner@ == sender@ && s.new_owner is None && s == (HubState {
            owner: s.owner,
            new_owner: None,
            ..state
        })),
{
    let accepted: bool = match &state.new_owner {
        Some(n) => *n == *sender,
        None => false,
    };
    if accepted {
        let next = match state.new_owner {
            Some(n) => n,
            None => sender.clone(),
        };
        Ok(HubState { owner: next, new_owner: None, ..state })
    } else {
        Err(HubError::UnauthorizedSenderNotNewOwner)
    }
}

/// Queue a share redemption under the pending batch: the pending
/// total and the caller's request under `(batch, receiver)` both grow
/// by the burned amount.  When the pending batch's start time already
/// passed, the second component asks the host to submit at once.
pub fn queue_unbond(state: HubState, receiver: &String, ustake_to_burn: u128, now: u64) -> (r: (
    HubState,
    bool,
))
    requires
        state.wf(),
        ustake_to_burn > 0,
        state.pending.ustake_to_burn + ustake_to_burn <= u128::MAX,
    ensures
        r.0.wf(),
        r.0 == (HubState { pending: r.0.pending, unbond_requests: r.0.unbond_requests, ..state }),
        r.0.pending.id == state.pending.id,
        r.0.pending.est_unbond_start_time == state.pending.est_unbond_start_time,
        r.0.pending.ustake_to_burn == state.pending.ustake_to_burn + ustake_to_burn,
        key_shares(r.0.unbond_requests@, state.pending.id, receiver@) == key_shares(
            state.unbond_requests@,
            state.pending.id,
            receiver@,
        ) + ustake_to_burn,
        forall|id: u64, u: Seq<char>|
            !(id == state.pending.id && u == receiver@) ==> #[trigger] key_shares(
                r.0.unbond_requests@,
                id,
                u,
            ) == key_shares(state.unbond_requests@, id, u),
        r.1 == (now > state.pending.est_unbond_start_time),
{
    let mut s = state;
    let ghost before = s.unbond_requests@;
    let pending_id: u64 = s.pending.id;
    match find_request(&s.unbond_requests, pending_id, receiver) {
        Some(i) => {
            proof {
                lemma_key_shares_index(before, i as int);
                lemma_request_le_sum(before, i as int);
            }
            let new_shares: u128 = s.unbond_requests[i].shares + ustake_to_burn;
            s.unbond_requests[i].shares = new_shares;
            proof {
                let after = s.unbond_requests@;
                assert(after[i as int].id == before[i as int].id);
                assert(after[i as int].user@ == before[i as int].user@);
                assert(forall|a: int| 0 <= a < before.len() ==> after[a].id == before[a].id
                    && after[a].user@ == before[a].user@);
                assert forall|id: u64, u: Seq<char>| true implies #[trigger] key_shares(
                    after,
                    id,
                    u,
                ) == key_shares(before, id, u) + (if id == pending_id && u == receiver@ {
                    ustake_to_burn as int
                } else {
                    0int
                }) by {
                    lemma_key_shares_update(before, i as int, after[i as int], id, u);
                    lemma_key_shares_index(before, i as int);
                }
                assert forall|id: u64| true implies #[trigger] sum_request_shares(after, id)
                    == sum_request_shares(before, id) + (if id == pending_id {
                    ustake_to_burn as int
                } else {
                    0int
                }) by {
                    lemma_request_shares_update(before, i as int, after[i as int], id);
                }
            }
        },
        None => {
            let req = UnbondRequest {
                id: pending_id,
                user: receiver.clone(),
                shares: ustake_to_burn,
            };
            s.unbond_requests.push(req);
            proof {
                let after = s.unbond_requests@;
                assert forall|id: u64, u: Seq<char>| true implies #[trigger] key_shares(
                    after,
                    id,
                    u,
                ) == key_shares(before, id, u) + (if id == pending_id && u == receiver@ {
                    ustake_to_burn as int
                } else {
                    0int
                }) by {
                    lemma_key_shares_push(before, after.last(), id, u);
                }
                assert forall|id: u64| true implies #[trigger] sum_request_shares(after, id)
                    == sum_request_shares(before, id) + (if id == pending_id {
                    ustake_to_burn as int
                } else {
                    0int
                }) by {
                    lemma_request_shares_push(before, after.last(), id);
                }
                assert(after[after.len() - 1].id == pending_id);
                assert(after[after.len() - 1].user@ == receiver@);
                assert(forall|a: int| 0 <= a < before.len() ==> after[a] == before[a]);
            }
        },
    }
    let submit_now: bool = now > s.pending.est_unbond_start_time;
    let grown: u128 = s.pending.ustake_to_burn + ustake_to_burn;
    s.pending.ustake_to_burn = grown;
    (s, submit_now)
}

/// Atomically replace the ledger with an externally reported snapshot
/// and re-synchronise the bonded total, after the optimistic guards:
/// the caller holds a privileged role, the stored bonded total still
/// matches the reported one, the validator count matches, and the
/// reported sum keeps at least ninety-five hundredths of the total.
pub fn check_slashing(
    state: HubState,
    sender: &String,
    current_delegations: Vec<Delegation>,
    state_total_utoken_bonded: u128,
) -> (r: Result<HubState, HubError>)
    requires
        state.wf(),
        uniq_validators(current_delegations@),
        sum_amounts(current_delegations@) <= u128::MAX,
    ensures
        !(sender@ == state.owner@ || sender@ == state.operator@) ==> r == Err::<
            HubState,
            HubError,
        >(HubError::Unauthorized),
        (sender@ == state.owner@ || sender@ == state.operator@)
            && state.stake.total_utoken_bonded != state_total_utoken_bonded ==> r == Err::<
            HubState,
            HubError,
        >(HubError::StateChangedBonded),
        (sender@ == state.owner@ || sender@ == state.operator@)
            && state.stake.total_utoken_bonded == state_total_utoken_bonded
            && current_delegations@.len() != state.delegations.delegations@.len() ==> r == Err::<
            HubState,
            HubError,
        >(HubError::StateChangedDelegations),
        (sender@ == state.owner@ || sender@ == state.operator@)
            && state.stake.total_utoken_bonded == state_total_utoken_bonded
            && current_delegations@.len() == state.delegations.delegations@.len() && sum_amounts(
            current_delegations@,
        ) < (state_total_utoken_bonded as int) * 95 / 100 ==> r == Err::<HubState, HubError>(
            HubError::StateChangedBigSlash,
        ),
        r is Ok <==> ((sender@ == state.owner@ || sender@ == state.operator@)
            && state.stake.total_utoken_bonded == state_total_utoken_bonded
            && current_delegations@.len() == state.delegations.delegations@.len() && sum_amounts(
            current_delegations@,
        ) >= (state_total_utoken_bonded as int) * 95 / 100),
        r matches Ok(s) ==> s.wf() && s.delegations.delegations@ == current_delegations@
            && s.stake.total_utoken_bonded == sum_amounts(current_delegations@) && s.stake.utoken
            == state.stake.utoken && s.stake.denom == state.stake.denom && s.stake.total_supply
            == state.stake.total_supply && s == (HubState {
            stake: s.stake,
            delegations: s.delegations,
            ..state
        }),
{
    if !(*sender == state.owner || *sender == state.operator) {
        return Err(HubError::Unauthorized);
    }
    if state.stake.total_utoken_bonded != state_total_utoken_bonded {
        return Err(HubError::StateChangedBonded);
    }
    if current_delegations.len() != state.delegations.delegations.len() {
        return Err(HubError::StateChangedDelegations);
    }
    let new_sum: u128 = crate::math::sum_delegations(&current_delegations);
    proof {
        lemma_ratio_le_left(state_total_utoken_bonded as int, 95, 100);
    }
    let threshold: u128 = mul_ratio(state_total_utoken_bonded, 95, 100);
    if new_sum < threshold {
        return Err(HubError::StateChangedBigSlash);
    }
    let mut s = state;
    s.delegations = AllianceDelegations { delegations: current_delegations };
    s.stake.total_utoken_bonded = new_sum;
    Ok(s)
}

/// Plan a reward harvest: the swap-pipeline arguments are not served
/// here, and rewards are withdrawn either from the validators the
/// operator names or from every validator the ledger holds.
pub fn harvest(
    state: &HubState,
    validators_arg: Option<Vec<String>>,
    withdrawals: &Option<Vec<String>>,
    stages: &Option<Vec<Vec<crate::types::StageConfig>>>,
) -> (r: Result<Vec<String>, HubError>)
    ensures
        (withdrawals is Some || stages is Some) ==> r == Err::<Vec<String>, HubError>(
            HubError::NotSupported,
        ),
        withdrawals is None && stages is None ==> (r matches Ok(vs) && (match validators_arg {
            Some(named) => vs == named,
            None => vs@.len() == state.delegations.delegations@.len() && (forall|i: int|
                0 <= i < vs@.len() ==> vs@[i]@ == state.delegations.delegations@[i].validator@),
        })),
{
    if withdrawals.is_some() || stages.is_some() {
        return Err(HubError::NotSupported);
    }
    match validators_arg {
        Some(named) => Ok(named),
        None => {
            let n: usize = state.delegations.delegations.len();
            let mut out: Vec<String> = Vec::new();
            let mut k: usize = 0;
            while k < n
                invariant
                    n == state.delegations.delegations@.len(),
                    k <= n,
                    out@.len() == k,
                    forall|i: int|
                        0 <= i < k ==> out@[i]@ == state.delegations.delegations@[i].validator@,
                decreases n - k,
            {
                out.push(state.delegations.delegations[k].validator.clone());
                k += 1;
            }
            Ok(out)
        },
    }
}

/// Fold freshly received balances into the unlocked coins: whatever the
/// balance of the underlying or the stake denomination gained over its
/// snapshot is recorded, one entry per denomination.
pub fn callback_received_coins(
    state: HubState,
    utoken_balance: u128,
    snapshot_utoken: u128,
    stake_balance: u128,
    snapshot_stake: u128,
) -> (r: HubState)
    requires
        state.wf(),
        state.stake.utoken@ != state.stake.denom@,
        coin_amount(state.unlocked_coins@, state.stake.utoken@) + utoken_balance <= u128::MAX,
        coin_amount(state.unlocked_coins@, state.stake.denom@) + stake_balance <= u128::MAX,
    ensures
        r.wf(),
        r == (HubState { unlocked_coins: r.unlocked_coins, ..state }),
        coin_amount(r.unlocked_coins@, state.stake.utoken@) == coin_amount(
            state.unlocked_coins@,
            state.stake.utoken@,
        ) + (if utoken_balance > snapshot_utoken {
            utoken_balance - snapshot_utoken
        } else {
            0int
        }),
        coin_amount(r.unlocked_coins@, state.stake.denom@) == coin_amount(
            state.unlocked_coins@,
            state.stake.denom@,
        ) + (if stake_balance > snapshot_stake {
            stake_balance - snapshot_stake
        } else {
            0int
        }),
        forall|d: Seq<char>|
            d != state.stake.utoken@ && d != state.stake.denom@ ==> coin_amount(
                r.unlocked_coins@,
                d,
            ) == coin_amount(state.unlocked_coins@, d),
{
    let mut s = state;
    if utoken_balance > snapshot_utoken {
        let received: u128 = utoken_balance - snapshot_utoken;
        let coins = s.unlocked_coins;
        s.unlocked_coins = add_coin(coins, &s.stake.utoken, received);
    }
    if stake_balance > snapshot_stake {
        let received: u128 = stake_balance - snapshot_stake;
        let coins = s.unlocked_coins;
        s.unlocked_coins = add_coin(coins, &s.stake.denom, received);
    }
    s
}

/// Recompute the per-validator desired split.  Under `Uniform` the
/// stored goal is removed; under `Defined` the configured basis points
/// become the goal's shares; under `Gauges` the externally loaded
/// shares become the goal after validation against the whitelist.
/// The tune period counts whole weeks since the gauge calendar opened.
#[verifier::loop_isolation(false)]
pub fn tune_delegations(
    state: HubState,
    sender: &String,
    now: u64,
    validators: &Vec<String>,
    gauge_shares: &Vec<(String, u128)>,
) -> (r: Result<HubState, HubError>)
    requires
        state.wf(),
        now >= crate::types::EPOCH_START,
    ensures
        sender@ != state.owner@ ==> r == Err::<HubState, HubError>(HubError::Unauthorized),
        r matches Ok(s) ==> s.wf() && sender@ == state.owner@ && s == (HubState {
            delegation_goal: s.delegation_goal,
            ..state
        }),
        sender@ == state.owner@ && state.delegation_strategy is Uniform ==> (r matches Ok(s)
            && s.delegation_goal is None),
        state.delegation_strategy matches DelegationStrategy::Defined { shares_bps } ==> (sender@
            == state.owner@ ==> (r matches Ok(s) && s.delegation_goal matches Some(g)
            && g.tune_time == now && g.tune_period == (now - crate::types::EPOCH_START) as u64
            / crate::types::WEEK && g.shares@.len() == shares_bps@.len() && (forall|i: int|
            0 <= i < g.shares@.len() ==> (#[trigger] g.shares@[i]).0@ == shares_bps@[i].0@
                && g.shares@[i].1 == shares_bps@[i].1 * (crate::types::SHARE_SCALE as int
                / crate::types::BPS_TOTAL as int)))),
        sender@ == state.owner@ && state.delegation_strategy is Gauges ==> ({
            let valid = uniq_share_keys(gauge_shares@) && crate::math::sum_shares(gauge_shares@)
                == crate::types::SHARE_SCALE && (forall|i: int|
                0 <= i < gauge_shares@.len() ==> spec_whitelisted(
                    validators@,
                    (#[trigger] gauge_shares@[i]).0@,
                ));
            &&& (gauge_shares@.len() == 0 ==> (r matches Ok(s) && s.delegation_goal is None))
            &&& (gauge_shares@.len() > 0 ==> {
                &&& (r is Ok <==> valid)
                &&& (r matches Ok(s) ==> s.delegation_goal matches Some(g) && g.tune_time == now
                    && g.tune_period == (now - crate::types::EPOCH_START) as u64
                    / crate::types::WEEK && g.shares@.len() == gauge_shares@.len() && (forall|
                    i: int,
                |
                    0 <= i < g.shares@.len() ==> (#[trigger] g.shares@[i]).0@ == gauge_shares@[
                        i
                    ].0@ && g.shares@[i].1 == gauge_shares@[i].1))
                &&& (r is Err ==> (r->Err_0 matches HubError::NotWhitelisted(_) || r->Err_0
                    matches HubError::Duplicated(_) || r->Err_0 == HubError::GaugesWrongSum))
            })
        }),
{
    if !(*sender == state.owner) {
        return Err(HubError::Unauthorized);
    }
    let tune_period: u64 = (now - crate::types::EPOCH_START) / crate::types::WEEK;
    let mut s = state;
    proof {
        assert(s == state);
    }
    match &s.delegation_strategy {
        DelegationStrategy::Uniform => {
            s.delegation_goal = None;
            Ok(s)
        },
        DelegationStrategy::Defined { shares_bps } => {
            proof {
                assert(s.delegation_strategy == (DelegationStrategy::Defined {
                    shares_bps: *shares_bps,
                }));
            }
            let scale: u128 = crate::types::SHARE_SCALE / (crate::types::BPS_TOTAL as u128);
            let n: usize = shares_bps.len();
            let mut shares: Vec<(String, u128)> = Vec::new();
            let mut k: usize = 0;
            while k < n
                invariant
                    n == shares_bps@.len(),
                    k <= n,
                    scale == crate::types::SHARE_SCALE as int / crate::types::BPS_TOTAL as int,
                    uniq_bps_keys(shares_bps@),
                    sum_bps(shares_bps@) <= BPS_TOTAL,
                    shares@.len() == k,
                    forall|i: int|
                        0 <= i < k ==> (#[trigger] shares@[i]).0@ == shares_bps@[i].0@
                            && shares@[i].1 == shares_bps@[i].1 * (
                        crate::types::SHARE_SCALE as int / crate::types::BPS_TOTAL as int),
                    crate::math::sum_shares(shares@) == (crate::types::SHARE_SCALE as int
                        / crate::types::BPS_TOTAL as int) * sum_bps(
                        shares_bps@.subrange(0, k as int),
                    ),
                decreases n - k,
            {
                proof {
                    crate::math::lemma_bps_le_sum(shares_bps@, k as int);
                    crate::math::lemma_sum_bps_nonneg(shares_bps@.subrange(0, k as int));
                    vstd::arithmetic::mul::lemma_mul_inequality(
                        shares_bps@[k as int].1 as int,
                        BPS_TOTAL as int,
                        scale as int,
                    );
                }
                let entry: (String, u128) = (
                    shares_bps[k].0.clone(),
                    (shares_bps[k].1 as u128) * scale,
                );
                let ghost before = shares@;
                shares.push(entry);
                proof {
                    crate::math::lemma_sum_shares_push(before, shares@.last());
                    assert(shares_bps@.subrange(0, k + 1).drop_last() =~= shares_bps@.subrange(
                        0,
                        k as int,
                    ));
                    assert(shares_bps@.subrange(0, k + 1).last() == shares_bps@[k as int]);
                    vstd::arithmetic::mul::lemma_mul_is_distributive_add(
                        crate::types::SHARE_SCALE as int / crate::types::BPS_TOTAL as int,
                        sum_bps(shares_bps@.subrange(0, k as int)),
                        shares_bps@[k as int].1 as int,
                    );
                }
                k += 1;
            }
            proof {
                assert(shares_bps@.subrange(0, n as int) =~= shares_bps@);
                crate::math::lemma_sum_bps_nonneg(shares_bps@);
                vstd::arithmetic::mul::lemma_mul_inequality(
                    sum_bps(shares_bps@),
                    BPS_TOTAL as int,
                    crate::types::SHARE_SCALE as int / crate::types::BPS_TOTAL as int,
                );
                vstd::arithmetic::mul::lemma_mul_is_commutative(
                    crate::types::SHARE_SCALE as int / crate::types::BPS_TOTAL as int,
                    sum_bps(shares_bps@),
                );
                vstd::arithmetic::mul::lemma_mul_is_commutative(
                    crate::types::SHARE_SCALE as int / crate::types::BPS_TOTAL as int,
                    BPS_TOTAL as int,
                );
            }
            s.delegation_goal = Some(DelegationGoal { tune_time: now, tune_period, shares });
            Ok(s)
        },
        DelegationStrategy::Gauges => {
            let n: usize = gauge_shares.len();
            if n == 0 {
                // an empty gauge result removes the stored goal
                s.delegation_goal = None;
                return Ok(s);
            }
            let mut total: u128 = 0;
            let mut k: usize = 0;
            while k < n
                invariant
                    n == gauge_shares@.len(),
                    k <= n,
                    total == crate::math::sum_shares(gauge_shares@.subrange(0, k as int)),
                    total <= crate::types::SHARE_SCALE,
                    forall|i: int|
                        0 <= i < k ==> spec_whitelisted(
                            validators@,
                            (#[trigger] gauge_shares@[i]).0@,
                        ),
                    forall|i: int, j: int|
                        0 <= i < j < k ==> gauge_shares@[i].0@ != gauge_shares@[j].0@,
                decreases n - k,
            {
                if !contains_string(validators, &gauge_shares[k].0) {
                    proof {
                        assert(!spec_whitelisted(validators@, (gauge_shares@[k as int]).0@));
                    }
                    return Err(HubError::NotWhitelisted(gauge_shares[k].0.clone()));
                }
                let mut j: usize = 0;
                while j < k
                    invariant
                        k < n,
                        n == gauge_shares@.len(),
                        j <= k,
                        forall|i: int|
                            0 <= i < j ==> gauge_shares@[i].0@ != gauge_shares@[k as int].0@,
                    decreases k - j,
                {
                    if gauge_shares[j].0 == gauge_shares[k].0 {
                        proof {
                            assert(gauge_shares@[j as int].0@ == gauge_shares@[k as int].0@);
                            assert(!uniq_share_keys(gauge_shares@));
                        }
                        return Err(HubError::Duplicated(gauge_shares[k].0.clone()));
                    }
                    j += 1;
                }
                proof {
                    assert(gauge_shares@.subrange(0, k + 1).drop_last() =~= gauge_shares@.subrange(
                        0,
                        k as int,
                    ));
                    assert(gauge_shares@.subrange(0, k + 1).last() == gauge_shares@[k as int]);
                }
                let next: u128 = match total.checked_add(gauge_shares[k].1) {
                    Some(t) => t,
                    None => {
                        proof {
                            lemma_gauge_sum_exceeds(gauge_shares@, k as int);
                        }
                        return Err(HubError::GaugesWrongSum);
                    },
                };
                if next > crate::types::SHARE_SCALE {
                    proof {
                        lemma_gauge_sum_exceeds(gauge_shares@, k as int);
                    }
                    return Err(HubError::GaugesWrongSum);
                }
                total = next;
                k += 1;
            }
            proof {
                assert(gauge_shares@.subrange(0, n as int) =~= gauge_shares@);
            }
            if total != crate::types::SHARE_SCALE {
                return Err(HubError::GaugesWrongSum);
            }
            let mut shares: Vec<(String, u128)> = Vec::new();
            let mut k2: usize = 0;
            while k2 < n
                invariant
                    n == gauge_shares@.len(),
                    k2 <= n,
                    shares@.len() == k2,
                    forall|i: int|
                        0 <= i < k2 ==> (#[trigger] shares@[i]).0@ == gauge_shares@[i].0@
                            && shares@[i].1 == gauge_shares@[i].1,
                    crate::math::sum_shares(shares@) == crate::math::sum_shares(
                        gauge_shares@.subrange(0, k2 as int),
                    ),
                decreases n - k2,
            {
                let ghost before = shares@;
                shares.push((gauge_shares[k2].0.clone(), gauge_shares[k2].1));
                proof {
                    crate::math::lemma_sum_shares_push(before, shares@.last());
                    assert(gauge_shares@.subrange(0, k2 + 1).drop_last()
                        =~= gauge_shares@.subrange(0, k2 as int));
                    assert(gauge_shares@.subrange(0, k2 + 1).last() == gauge_shares@[k2 as int]);
                }
                k2 += 1;
            }
            proof {
                assert(gauge_shares@.subrange(0, n as int) =~= gauge_shares@);
            }
            s.delegation_goal = Some(DelegationGoal { tune_time: now, tune_period, shares });
            Ok(s)
        },
    }
}

/// A share column whose prefix already tops the whole cannot sum to
/// exactly the whole.
proof fn lemma_gauge_sum_exceeds(s: Seq<(String, u128)>, k: int)
    requires
        0 <= k < s.len(),
        crate::math::sum_shares(s.subrange(0, k)) + s[k].1 > crate::types::SHARE_SCALE,
    ensures
        crate::math::sum_shares(s) != crate::types::SHARE_SCALE,
{
    assert(s.subrange(0, k + 1).drop_last() =~= s.subrange(0, k));
    assert(s.subrange(0, k + 1).last() == s[k]);
    crate::math::lemma_sum_shares_prefix_le(s, k + 1);
}

/// Apply the present configuration changes in a fixed order, after the
/// owner check and each field's own validation: the fee cap, the
/// positive periods, the preset swap-stage rules, and the strategy
/// check against the whitelist.
#[verifier::rlimit(100)]
pub fn update_config(
    state: HubState,
    sender: &String,
    protocol_fee_contract: Option<String>,
    protocol_reward_fee: Option<u128>,
    operator: Option<String>,
    stages_preset: Option<Vec<Vec<crate::types::StageConfig>>>,
    withdrawals_preset: Option<Vec<String>>,
    allow_donations: Option<bool>,
    delegation_strategy: Option<DelegationStrategy>,
    default_max_spread: Option<u64>,
    epoch_period: Option<u64>,
    unbond_period: Option<u64>,
    validator_proxy: Option<String>,
    whale_denom: Option<String>,
    btc_denom: Option<String>,
    whale_btc_pool: Option<String>,
    validators: &Vec<String>,
) -> (r: Result<HubState, HubError>)
    requires
        state.wf(),
    ensures
        sender@ != state.owner@ ==> r == Err::<HubState, HubError>(HubError::Unauthorized),
        r is Ok <==> (sender@ == state.owner@ && (protocol_reward_fee matches Some(f) ==> f
            <= MAX_REWARD_FEE) && (epoch_period matches Some(p) ==> p > 0) && (unbond_period
            matches Some(p) ==> p > 0) && (stages_preset matches Some(sp) ==> (spec_stages_swap_ok(
            sp@,
            state.stake.utoken@,
            state.stake.denom@,
        ) && spec_stages_price_ok(sp@))) && (delegation_strategy matches Some(st)
            ==> spec_strategy_valid(st, validators@))),
        sender@ == state.owner@ && (protocol_reward_fee matches Some(f) && f > MAX_REWARD_FEE)
            ==> r == Err::<HubState, HubError>(HubError::ProtocolRewardFeeTooHigh),
        sender@ == state.owner@ && (protocol_reward_fee matches Some(f) ==> f <= MAX_REWARD_FEE)
            && epoch_period == Some(0u64) ==> (r matches Err(HubError::CantBeZero(m)) && m@
            == "epoch_period"@),
        sender@ == state.owner@ && (protocol_reward_fee matches Some(f) ==> f <= MAX_REWARD_FEE)
            && (epoch_period matches Some(p) ==> p > 0) && unbond_period == Some(0u64) ==> (r
            matches Err(HubError::CantBeZero(m)) && m@ == "unbond_period"@),
        delegation_strategy matches Some(DelegationStrategy::Defined { shares_bps }) ==> ({
            &&& (r matches Err(HubError::NotWhitelisted(d)) ==> exists|i: int|
                0 <= i < shares_bps@.len() && (#[trigger] shares_bps@[i]).0@ == d@
                    && !spec_whitelisted(validators@, d@))
            &&& (r matches Err(HubError::Duplicated(d)) ==> exists|i: int, j: int|
                0 <= i < j < shares_bps@.len() && shares_bps@[i].0@ == shares_bps@[j].0@
                    && shares_bps@[j].0@ == d@)
        }),
        delegation_strategy matches Some(DelegationStrategy::Defined { shares_bps }) ==> ({
            let pre = sender@ == state.owner@ && (protocol_reward_fee matches Some(f) ==> f
                <= MAX_REWARD_FEE) && (epoch_period matches Some(p) ==> p > 0) && (unbond_period
                matches Some(p) ==> p > 0) && (stages_preset matches Some(sp)
                ==> spec_stages_swap_ok(sp@, state.stake.utoken@, state.stake.denom@)
                && spec_stages_price_ok(sp@));
            &&& (pre && uniq_bps_keys(shares_bps@) && (exists|i: int|
                0 <= i < shares_bps@.len() && !spec_whitelisted(
                    validators@,
                    (#[trigger] shares_bps@[i]).0@,
                )) ==> (r matches Err(HubError::NotWhitelisted(d)) && !spec_whitelisted(
                validators@,
                d@,
            )))
            &&& (pre && (forall|i: int|
                0 <= i < shares_bps@.len() ==> spec_whitelisted(
                    validators@,
                    (#[trigger] shares_bps@[i]).0@,
                )) && !uniq_bps_keys(shares_bps@) ==> r matches Err(HubError::Duplicated(_)))
            &&& (pre && (forall|i: int|
                0 <= i < shares_bps@.len() ==> spec_whitelisted(
                    validators@,
                    (#[trigger] shares_bps@[i]).0@,
                )) && uniq_bps_keys(shares_bps@) && sum_bps(shares_bps@) != BPS_TOTAL ==> r
                == Err::<HubState, HubError>(HubError::SharesWrongSum))
        }),
        r matches Ok(s) ==> s.wf() && s.fee_config.protocol_reward_fee == (
        match protocol_reward_fee {
            Some(f) => f,
            None => state.fee_config.protocol_reward_fee,
        }) && s.fee_config.protocol_fee_contract@ == (match protocol_fee_contract {
            Some(c) => c@,
            None => state.fee_config.protocol_fee_contract@,
        }) && s.epoch_period == (match epoch_period {
            Some(p) => p,
            None => state.epoch_period,
        }) && s.unbond_period == (match unbond_period {
            Some(p) => p,
            None => state.unbond_period,
        }) && s.operator@ == (match operator {
            Some(o) => o@,
            None => state.operator@,
        }) && s.validator_proxy@ == (match validator_proxy {
            Some(v) => v@,
            None => state.validator_proxy@,
        }) && s.delegation_strategy == (match delegation_strategy {
            Some(st) => st,
            None => state.delegation_strategy,
        }) && s.allow_donations == (match allow_donations {
            Some(a) => a,
            None => state.allow_donations,
        }) && s.default_max_spread == (match default_max_spread {
            Some(m) => m,
            None => state.default_max_spread,
        }) && s.whale_denom@ == (match whale_denom {
            Some(w) => w@,
            None => state.whale_denom@,
        }) && s.btc_denom@ == (match btc_denom {
            Some(b) => b@,
            None => state.btc_denom@,
        }) && s.whale_btc_pool@ == (match whale_btc_pool {
            Some(p) => p@,
            None => state.whale_btc_pool@,
        }) && s.stages_preset == (match stages_preset {
            Some(sp) => sp,
            None => state.stages_preset,
        }) && s.withdrawals_preset == (match withdrawals_preset {
            Some(wp) => wp,
            None => state.withdrawals_preset,
        }) && s == (HubState {
            fee_config: s.fee_config,
            epoch_period: s.epoch_period,
            unbond_period: s.unbond_period,
            operator: s.operator,
            validator_proxy: s.validator_proxy,
            stages_preset: s.stages_preset,
            withdrawals_preset: s.withdrawals_preset,
            delegation_strategy: s.delegation_strategy,
            allow_donations: s.allow_donations,
            default_max_spread: s.default_max_spread,
            whale_denom: s.whale_denom,
            btc_denom: s.btc_denom,
            whale_btc_pool: s.whale_btc_pool,
            ..state
        }),
{
    if !(*sender == state.owner) {
        return Err(HubError::Unauthorized);
    }
    match &protocol_reward_fee {
        Some(f) => {
            if *f > MAX_REWARD_FEE {
                return Err(HubError::ProtocolRewardFeeTooHigh);
            }
        },
        None => {},
    }
    match &epoch_period {
        Some(p) => {
            if *p == 0 {
                return Err(HubError::CantBeZero("epoch_period".to_owned()));
            }
        },
        None => {},
    }
    match &unbond_period {
        Some(p) => {
            if *p == 0 {
                return Err(HubError::CantBeZero("unbond_period".to_owned()));
            }
        },
        None => {},
    }
    match &stages_preset {
        Some(sp) => {
            match validate_no_utoken_or_ustake_swap(sp, &state.stake) {
                Ok(()) => {},
                Err(e) => {
                    return Err(e);
                },
            }
            match validate_no_belief_price(sp) {
                Ok(()) => {},
                Err(e) => {
                    return Err(e);
                },
            }
        },
        None => {},
    }
    match &delegation_strategy {
        Some(st) => {
            match st.validate(validators) {
                Ok(()) => {},
                Err(e) => {
                    return Err(e);
                },
            }
        },
        None => {},
    }
    let next = HubState {
        fee_config: FeeConfig {
            protocol_fee_contract: match protocol_fee_contract {
                Some(c) => c,
                None => state.fee_config.protocol_fee_contract,
            },
            protocol_reward_fee: match protocol_reward_fee {
                Some(f) => f,
                None => state.fee_config.protocol_reward_fee,
            },
        },
        epoch_period: match epoch_period {
            Some(p) => p,
            None => state.epoch_period,
        },
        unbond_period: match unbond_period {
            Some(p) => p,
            None => state.unbond_period,
        },
        operator: match operator {
            Some(o) => o,
            None => state.operator,
        },
        validator_proxy: match validator_proxy {
            Some(v) => v,
            None => state.validator_proxy,
        },
        stages_preset: match stages_preset {
            Some(sp) => sp,
            None => state.stages_preset,
        },
        withdrawals_preset: match withdrawals_preset {
            Some(wp) => wp,
            None => state.withdrawals_preset,
        },
        delegation_strategy: match delegation_strategy {
            Some(st) => st,
            None => state.delegation_strategy,
        },
        allow_donations: match allow_donations {
            Some(a) => a,
            None => state.allow_donations,
        },
        default_max_spread: match default_max_spread {
            Some(m) => m,
            None => state.default_max_spread,
        },
        whale_denom: match whale_denom {
            Some(w) => w,
            None => state.whale_denom,
        },
        btc_denom: match btc_denom {
            Some(b) => b,
            None => state.btc_denom,
        },
        whale_btc_pool: match whale_btc_pool {
            Some(p) => p,
            None => state.whale_btc_pool,
        },
        stake: state.stake,
        delegations: state.delegations,
        pending: state.pending,
        previous_batches: state.previous_batches,
        unbond_requests: state.unbond_requests,
        unlocked_coins: state.unlocked_coins,
        exchange_history: state.exchange_history,
        owner: state.owner,
        new_owner: state.new_owner,
        delegation_goal: state.delegation_goal,
    };
    Ok(next)
}

/// Bond a deposit of the underlying token: the whole deposit is
/// delegated to the validator the strategy picks, shares are minted at
/// the going rate to the receiver — or, for a donation, no shares at
/// all — and the bonded total grows by the deposit.
pub fn bond(
    state: HubState,
    funds: &Vec<Coin>,
    donate: bool,
    current_delegations: &Vec<Delegation>,
    validators: &Vec<String>,
) -> (r: Result<(HubState, crate::types::BondPlan), HubError>)
    requires
        state.wf(),
        validators@.len() > 0,
        uniq_strings(validators@),
        uniq_validators(current_delegations@),
        sum_amounts(current_delegations@) <= u128::MAX,
        state.delegation_strategy is Uniform ==> current_delegations@.len() > 0,
        state.delegation_strategy is Gauges ==> state.delegation_goal is Some,
        funds@.len() == 1 && funds@[0].denom@ == state.stake.utoken@
            ==> crate::math::spec_mint_amount(
            state.stake.total_supply,
            funds@[0].amount,
            state.stake.total_utoken_bonded,
        ) <= u128::MAX,
    ensures
        funds@.len() != 1 ==> r == Err::<(HubState, crate::types::BondPlan), HubError>(
            HubError::ExpectingSingleCoin,
        ),
        funds@.len() == 1 && funds@[0].denom@ != state.stake.utoken@ ==> (r matches Err(
            HubError::WrongDenom(d),
        ) && d@ == funds@[0].denom@),
        funds@.len() == 1 && funds@[0].denom@ == state.stake.utoken@ && funds@[0].amount == 0
            ==> (r matches Err(HubError::CantBeZero(m)) && m@ == "deposit"@),
        r is Ok <==> ({
            let x = funds@[0].amount;
            &&& funds@.len() == 1
            &&& funds@[0].denom@ == state.stake.utoken@
            &&& x > 0
            &&& (!(state.delegation_strategy is Uniform) ==> sum_amounts(current_delegations@) + x
                <= u128::MAX)
            &&& (donate ==> state.allow_donations)
            &&& (!donate ==> state.stake.total_supply + crate::math::spec_mint_amount(
                state.stake.total_supply,
                x,
                state.stake.total_utoken_bonded,
            ) <= u128::MAX)
            &&& state.stake.total_utoken_bonded + x <= u128::MAX
        }),
        ({
            let x = funds@[0].amount;
            funds@.len() == 1 && funds@[0].denom@ == state.stake.utoken@ && x > 0 && !(
            state.delegation_strategy is Uniform) && sum_amounts(current_delegations@) + x
                > u128::MAX
        }) ==> r == Err::<(HubState, crate::types::BondPlan), HubError>(HubError::Overflow),
        ({
            let x = funds@[0].amount;
            funds@.len() == 1 && funds@[0].denom@ == state.stake.utoken@ && x > 0 && (!(
            state.delegation_strategy is Uniform) ==> sum_amounts(current_delegations@) + x
                <= u128::MAX) && donate && !state.allow_donations
        }) ==> r == Err::<(HubState, crate::types::BondPlan), HubError>(
            HubError::DonationsDisabled,
        ),
        r matches Ok((s, plan)) ==> ({
            let x = funds@[0].amount;
            &&& s.wf()
            &&& crate::math::spec_new_delegation_ok(
                state.delegation_strategy,
                state.delegation_goal,
                current_delegations@,
                x,
                validators@,
                plan.delegation,
            )
            &&& (donate ==> plan.mint_shares == 0 && s.stake.total_supply
                == state.stake.total_supply)
            &&& (!donate ==> plan.mint_shares == crate::math::spec_mint_amount(
                state.stake.total_supply,
                x,
                state.stake.total_utoken_bonded,
            ) && s.stake.total_supply == state.stake.total_supply + plan.mint_shares)
            &&& s.stake.total_utoken_bonded == state.stake.total_utoken_bonded + x
            &&& s.stake.utoken == state.stake.utoken
            &&& s.stake.denom == state.stake.denom
            &&& s.delegations.total() == state.delegations.total() + x
            &&& s.delegations.amount(plan.delegation.validator@) == state.delegations.amount(
                plan.delegation.validator@,
            ) + x
            &&& (forall|v: Seq<char>|
                v != plan.delegation.validator@ ==> s.delegations.amount(v)
                    == state.delegations.amount(v))
            &&& s == (HubState { stake: s.stake, delegations: s.delegations, ..state })
        }),
{
    let token_to_bond: u128 = match validate_received_funds(funds, &state.stake.utoken) {
        Ok(x) => x,
        Err(e) => {
            return Err(e);
        },
    };
    let new_delegation: Delegation = match crate::math::find_new_delegation(
        &state.delegation_strategy,
        &state.delegation_goal,
        current_delegations,
        token_to_bond,
        validators,
    ) {
        Ok(d) => d,
        Err(e) => {
            return Err(e);
        },
    };
    let mut s = state;
    let mint_shares: u128 = if donate {
        if !s.allow_donations {
            return Err(HubError::DonationsDisabled);
        }
        0
    } else {
        crate::math::compute_mint_amount(
            s.stake.total_supply,
            token_to_bond,
            s.stake.total_utoken_bonded,
        )
    };
    if !donate {
        s.stake.total_supply = match s.stake.total_supply.checked_add(mint_shares) {
            Some(v) => v,
            None => {
                return Err(HubError::Overflow);
            },
        };
    }
    s.stake.total_utoken_bonded = match s.stake.total_utoken_bonded.checked_add(token_to_bond) {
        Some(v) => v,
        None => {
            return Err(HubError::Overflow);
        },
    };
    let ledger = s.delegations;
    s.delegations = ledger.delegate(&new_delegation);
    Ok((s, crate::types::BondPlan { delegation: new_delegation, mint_shares }))
}

/// Reinvest the unlocked coins: the underlying tokens are delegated —
/// less the protocol fee — and so raise the bonded total without
/// minting, held stake tokens are burned — less the fee — and the new
/// exchange rate is recorded.  Other denominations stay unlocked.
pub fn reinvest(
    state: HubState,
    current_delegations: &Vec<Delegation>,
    validators: &Vec<String>,
    skip_fee: bool,
    now: u64,
) -> (r: Result<(HubState, crate::types::ReinvestPlan), HubError>)
    requires
        state.wf(),
        state.stake.utoken@ != state.stake.denom@,
        validators@.len() > 0,
        uniq_strings(validators@),
        uniq_validators(current_delegations@),
        sum_amounts(current_delegations@) <= u128::MAX,
        state.delegation_strategy is Uniform ==> current_delegations@.len() > 0,
        state.delegation_strategy is Gauges ==> state.delegation_goal is Some,
        state.stake.total_utoken_bonded + coin_amount(
            state.unlocked_coins@,
            state.stake.utoken@,
        ) <= u128::MAX,
    ensures
        state.unlocked_coins@.len() == 0 ==> r == Err::<
            (HubState, crate::types::ReinvestPlan),
            HubError,
        >(HubError::NoTokensAvailable),
        r is Ok <==> ({
            let fee_rate: int = if skip_fee {
                0
            } else {
                state.fee_config.protocol_reward_fee as int
            };
            let avail_u = coin_amount(state.unlocked_coins@, state.stake.utoken@);
            let to_bond = avail_u - avail_u * fee_rate / (crate::types::SHARE_SCALE as int);
            let avail_s = coin_amount(state.unlocked_coins@, state.stake.denom@);
            let burn = avail_s - avail_s * fee_rate / (crate::types::SHARE_SCALE as int);
            &&& state.unlocked_coins@.len() > 0
            &&& (crate::coins::has_denom(state.unlocked_coins@, state.stake.utoken@) && !(
            state.delegation_strategy is Uniform) ==> sum_amounts(current_delegations@) + to_bond
                <= u128::MAX)
            &&& (crate::coins::has_denom(state.unlocked_coins@, state.stake.denom@) ==> burn
                <= state.stake.total_supply)
        }),
        r matches Ok((s, plan)) ==> ({
            let fee_rate: int = if skip_fee {
                0
            } else {
                state.fee_config.protocol_reward_fee as int
            };
            let avail_u = coin_amount(state.unlocked_coins@, state.stake.utoken@);
            let fee_u = avail_u * fee_rate / (crate::types::SHARE_SCALE as int);
            let to_bond = avail_u - fee_u;
            let avail_s = coin_amount(state.unlocked_coins@, state.stake.denom@);
            let fee_s = avail_s * fee_rate / (crate::types::SHARE_SCALE as int);
            let burn = avail_s - fee_s;
            &&& s.wf()
            &&& s.stake.total_utoken_bonded == state.stake.total_utoken_bonded + to_bond
            &&& s.stake.total_supply == state.stake.total_supply - burn
            &&& plan.burn_shares == burn
            &&& s.delegations.total() == state.delegations.total() + to_bond
            &&& (crate::coins::has_denom(state.unlocked_coins@, state.stake.utoken@) ==> (
            plan.delegation matches Some(d) && crate::math::spec_new_delegation_ok(
                state.delegation_strategy,
                state.delegation_goal,
                current_delegations@,
                to_bond as u128,
                validators@,
                d,
            ) && s.delegations.amount(d.validator@) == state.delegations.amount(d.validator@)
                + to_bond && (forall|v: Seq<char>|
                v != d.validator@ ==> s.delegations.amount(v) == state.delegations.amount(v))))
            &&& (!crate::coins::has_denom(state.unlocked_coins@, state.stake.utoken@)
                ==> plan.delegation is None && s.delegations == state.delegations)
            &&& coin_amount(plan.fees@, state.stake.utoken@) == fee_u
            &&& coin_amount(plan.fees@, state.stake.denom@) == fee_s
            &&& coin_amount(s.unlocked_coins@, state.stake.utoken@) == 0
            &&& coin_amount(s.unlocked_coins@, state.stake.denom@) == 0
            &&& (forall|d: Seq<char>|
                d != state.stake.utoken@ && d != state.stake.denom@ ==> coin_amount(
                    s.unlocked_coins@,
                    d,
                ) == coin_amount(state.unlocked_coins@, d))
            &&& s.exchange_history@ == state.exchange_history@.push(
                crate::types::ExchangeRatePoint {
                    time: now,
                    total_utoken_bonded: s.stake.total_utoken_bonded,
                    total_supply: s.stake.total_supply,
                },
            )
            &&& s.stake.utoken == state.stake.utoken
            &&& s.stake.denom == state.stake.denom
            &&& s == (HubState {
                stake: s.stake,
                delegations: s.delegations,
                unlocked_coins: s.unlocked_coins,
                exchange_history: s.exchange_history,
                ..state
            })
        }),
{
    if state.unlocked_coins.len() == 0 {
        return Err(HubError::NoTokensAvailable);
    }
    let fee_rate: u128 = if skip_fee {
        0
    } else {
        state.fee_config.protocol_reward_fee
    };
    let mut s = state;
    let mut fees: Vec<Coin> = Vec::new();
    let mut delegation_out: Option<Delegation> = None;
    let ghost old_unlocked = s.unlocked_coins@;

    let utoken_entry: Option<usize> = crate::coins::find_coin(&s.unlocked_coins, &s.stake.utoken);
    let ghost avail_u_spec = coin_amount(old_unlocked, state.stake.utoken@);
    match utoken_entry {
        Some(i) => {
            proof {
                crate::coins::lemma_coin_amount_index(old_unlocked, i as int);
                lemma_ratio_le_left(
                    s.unlocked_coins@[i as int].amount as int,
                    fee_rate as int,
                    crate::types::SHARE_SCALE as int,
                );
            }
            let available: u128 = s.unlocked_coins[i].amount;
            let protocol_fee: u128 = mul_ratio(available, fee_rate, crate::types::SHARE_SCALE);
            let to_bond: u128 = available - protocol_fee;
            let new_delegation: Delegation = match crate::math::find_new_delegation(
                &s.delegation_strategy,
                &s.delegation_goal,
                current_delegations,
                to_bond,
                validators,
            ) {
                Ok(d) => d,
                Err(e) => {
                    return Err(e);
                },
            };
            proof {
                crate::coins::lemma_coin_amount_nonneg(old_unlocked, state.stake.utoken@);
            }
            s.stake.total_utoken_bonded = s.stake.total_utoken_bonded + to_bond;
            let ledger = s.delegations;
            s.delegations = ledger.delegate(&new_delegation);
            if protocol_fee > 0 {
                let ghost fees_before = fees@;
                fees.push(Coin { denom: s.stake.utoken.clone(), amount: protocol_fee });
                proof {
                    crate::coins::lemma_coin_amount_push(
                        fees_before,
                        fees@.last(),
                        state.stake.utoken@,
                    );
                    crate::coins::lemma_coin_amount_push(
                        fees_before,
                        fees@.last(),
                        state.stake.denom@,
                    );
                }
            }
            delegation_out = Some(new_delegation);
        },
        None => {
            proof {
                crate::coins::lemma_coin_amount_absent(old_unlocked, state.stake.utoken@);
            }
        },
    }

    let ghost fees_mid = fees@;
    let stake_entry: Option<usize> = crate::coins::find_coin(&s.unlocked_coins, &s.stake.denom);
    let mut burn_shares: u128 = 0;
    match stake_entry {
        Some(i) => {
            proof {
                crate::coins::lemma_coin_amount_index(old_unlocked, i as int);
                lemma_ratio_le_left(
                    s.unlocked_coins@[i as int].amount as int,
                    fee_rate as int,
                    crate::types::SHARE_SCALE as int,
                );
            }
            let available: u128 = s.unlocked_coins[i].amount;
            let protocol_fee: u128 = mul_ratio(available, fee_rate, crate::types::SHARE_SCALE);
            let remaining: u128 = available - protocol_fee;
            s.stake.total_supply = match s.stake.total_supply.checked_sub(remaining) {
                Some(v) => v,
                None => {
                    return Err(HubError::Overflow);
                },
            };
            burn_shares = remaining;
            if protocol_fee > 0 {
                let ghost fees_before = fees@;
                fees.push(Coin { denom: s.stake.denom.clone(), amount: protocol_fee });
                proof {
                    crate::coins::lemma_coin_amount_push(
                        fees_before,
                        fees@.last(),
                        state.stake.utoken@,
                    );
                    crate::coins::lemma_coin_amount_push(
                        fees_before,
                        fees@.last(),
                        state.stake.denom@,
                    );
                }
            }
        },
        None => {
            proof {
                crate::coins::lemma_coin_amount_absent(old_unlocked, state.stake.denom@);
            }
        },
    }

    let coins = s.unlocked_coins;
    s.unlocked_coins = crate::coins::retain_other_denoms(&coins, &s.stake.utoken, &s.stake.denom);
    let point = crate::types::ExchangeRatePoint {
        time: now,
        total_utoken_bonded: s.stake.total_utoken_bonded,
        total_supply: s.stake.total_supply,
    };
    s.exchange_history.push(point);
    Ok((s, crate::types::ReinvestPlan { delegation: delegation_out, burn_shares, fees }))
}

/// Total an operator-supplied undelegation list, or report that it
/// cannot equal the expected amount.
fn sum_provided_undelegations(us: &Vec<crate::types::Undelegation>) -> (r: Option<u128>)
    ensures
        match r {
            Some(t) => t == crate::ledger::sum_undelegations(us@),
            None => crate::ledger::sum_undelegations(us@) > u128::MAX,
        },
{
    let n: usize = us.len();
    let mut acc: u128 = 0;
    let mut k: usize = 0;
    proof {
        assert(us@.subrange(0, 0) =~= Seq::<crate::types::Undelegation>::empty());
    }
    while k < n
        invariant
            n == us@.len(),
            k <= n,
            acc == crate::ledger::sum_undelegations(us@.subrange(0, k as int)),
        decreases n - k,
    {
        proof {
            assert(us@.subrange(0, k + 1).drop_last() =~= us@.subrange(0, k as int));
            assert(us@.subrange(0, k + 1).last() == us@[k as int]);
        }
        acc = match acc.checked_add(us[k].amount) {
            Some(v) => v,
            None => {
                proof {
                    crate::ledger::lemma_sum_und_prefix_le(us@, k + 1);
                }
                return None;
            },
        };
        k += 1;
    }
    proof {
        assert(us@.subrange(0, n as int) =~= us@);
    }
    Some(acc)
}

/// Freeze the pending batch: once its start time is reached, the queued
/// shares are burned, the owed underlying amount is computed at the
/// going rate, the undelegation split — operator-supplied, checked to
/// sum exactly, or computed over the ledger — is applied to the ledger,
/// the batch joins the previous batches unreconciled, and a fresh
/// pending batch opens under the next id.
#[verifier::rlimit(100)]
pub fn submit_batch(
    state: HubState,
    sender: &String,
    undelegations: Option<Vec<crate::types::Undelegation>>,
    validators: &Vec<String>,
    now: u64,
) -> (r: Result<(HubState, crate::types::SubmitPlan), HubError>)
    requires
        state.wf(),
        validators@.len() > 0,
        uniq_strings(validators@),
        state.delegation_strategy is Gauges ==> state.delegation_goal is Some,
        now + state.unbond_period <= u64::MAX,
        now + state.epoch_period <= u64::MAX,
        state.pending.id < u64::MAX,
    ensures
        now < state.pending.est_unbond_start_time ==> r == Err::<
            (HubState, crate::types::SubmitPlan),
            HubError,
        >(HubError::SubmitBatchAfter(state.pending.est_unbond_start_time)),
        now >= state.pending.est_unbond_start_time && state.pending.ustake_to_burn
            > state.stake.total_supply ==> r == Err::<
            (HubState, crate::types::SubmitPlan),
            HubError,
        >(HubError::Overflow),
        ({
            let expected = crate::math::spec_unbond_amount(
                state.stake.total_supply,
                state.pending.ustake_to_burn,
                state.stake.total_utoken_bonded,
            );
            &&& (r is Ok <==> (now >= state.pending.est_unbond_start_time
                && state.pending.ustake_to_burn <= state.stake.total_supply
                && (match undelegations {
                Some(us) => sender@ == state.operator@ && crate::ledger::sum_undelegations(us@)
                    == expected && crate::ledger::spec_undelegate_seq(
                    state.delegations.delegations@,
                    us@,
                ) is Ok,
                None => true,
            })))
            &&& (undelegations matches Some(us) ==> (now >= state.pending.est_unbond_start_time
                && state.pending.ustake_to_burn <= state.stake.total_supply ==> {
                &&& (sender@ != state.operator@ ==> r == Err::<
                    (HubState, crate::types::SubmitPlan),
                    HubError,
                >(HubError::Unauthorized))
                &&& (sender@ == state.operator@ && crate::ledger::sum_undelegations(us@)
                    != expected ==> r == Err::<(HubState, crate::types::SubmitPlan), HubError>(
                    HubError::SubmitBatchWrongSum,
                ))
                &&& (crate::ledger::spec_undelegate_seq(
                    state.delegations.delegations@,
                    us@,
                ) matches Err(e) ==> (sender@ == state.operator@
                    && crate::ledger::sum_undelegations(us@) == expected ==> r == Err::<
                    (HubState, crate::types::SubmitPlan),
                    HubError,
                >(e)))
            }))
            &&& (r matches Ok((s, plan)) ==> {
                &&& s.wf()
                &&& plan.burn_shares == state.pending.ustake_to_burn
                &&& crate::ledger::sum_undelegations(plan.undelegations@) == expected
                &&& (undelegations matches Some(us) ==> plan.undelegations == us)
                &&& s.stake.total_supply == state.stake.total_supply
                    - state.pending.ustake_to_burn
                &&& s.stake.total_utoken_bonded == state.stake.total_utoken_bonded - expected
                &&& s.stake.utoken == state.stake.utoken
                &&& s.stake.denom == state.stake.denom
                &&& s.delegations.total() == state.delegations.total() - expected
                &&& s.previous_batches@ == state.previous_batches@.push(
                    crate::types::Batch {
                        id: state.pending.id,
                        total_shares: state.pending.ustake_to_burn,
                        utoken_unclaimed: expected as u128,
                        est_unbond_end_time: (now + state.unbond_period) as u64,
                        reconciled: false,
                    },
                )
                &&& s.pending == (PendingBatch {
                    id: (state.pending.id + 1) as u64,
                    ustake_to_burn: 0,
                    est_unbond_start_time: (now + state.epoch_period) as u64,
                })
                &&& s.unbond_requests == state.unbond_requests
                &&& s == (HubState {
                    stake: s.stake,
                    delegations: s.delegations,
                    pending: s.pending,
                    previous_batches: s.previous_batches,
                    ..state
                })
            })
        }),
{
    if now < state.pending.est_unbond_start_time {
        return Err(HubError::SubmitBatchAfter(state.pending.est_unbond_start_time));
    }
    if state.pending.ustake_to_burn > state.stake.total_supply {
        return Err(HubError::Overflow);
    }
    proof {
        if state.stake.total_supply != 0 {
            lemma_ratio_le_left(
                state.stake.total_utoken_bonded as int,
                state.pending.ustake_to_burn as int,
                state.stake.total_supply as int,
            );
        }
    }
    let utoken_to_unbond: u128 = crate::math::compute_unbond_amount(
        state.stake.total_supply,
        state.pending.ustake_to_burn,
        state.stake.total_utoken_bonded,
    );
    let mut s = state;
    let new_undelegations: Vec<crate::types::Undelegation> = match undelegations {
        Some(us) => {
            if !(*sender == s.operator) {
                return Err(HubError::Unauthorized);
            }
            let provided: Option<u128> = sum_provided_undelegations(&us);
            match provided {
                Some(t) => {
                    if t != utoken_to_unbond {
                        return Err(HubError::SubmitBatchWrongSum);
                    }
                },
                None => {
                    return Err(HubError::SubmitBatchWrongSum);
                },
            }
            us
        },
        None => {
            let unds = crate::math::compute_undelegations(
                &s.delegation_strategy,
                &s.delegation_goal,
                utoken_to_unbond,
                &s.delegations.delegations,
                validators,
            );
            proof {
                crate::ledger::lemma_spec_undelegate_seq_ok(s.delegations.delegations@, unds@);
            }
            unds
        },
    };
    let ledger = s.delegations;
    let ghost ledger_view = ledger.delegations@;
    s.delegations = match ledger.undelegate(&new_undelegations) {
        Ok(l) => l,
        Err(e) => {
            return Err(e);
        },
    };
    proof {
        crate::ledger::lemma_spec_undelegate_seq_props(ledger_view, new_undelegations@);
    }
    let batch = crate::types::Batch {
        id: s.pending.id,
        total_shares: s.pending.ustake_to_burn,
        utoken_unclaimed: utoken_to_unbond,
        est_unbond_end_time: now + s.unbond_period,
        reconciled: false,
    };
    s.previous_batches.push(batch);
    let burn_shares: u128 = s.pending.ustake_to_burn;
    s.pending = PendingBatch {
        id: s.pending.id + 1,
        ustake_to_burn: 0,
        est_unbond_start_time: now + s.epoch_period,
    };
    s.stake.total_utoken_bonded = s.stake.total_utoken_bonded - utoken_to_unbond;
    s.stake.total_supply = s.stake.total_supply - burn_shares;
    proof {
        assert forall|i: int|
            0 <= i < s.unbond_requests@.len() implies (#[trigger] s.unbond_requests@[i]).id
            != s.pending.id by {
            assert(s.unbond_requests@[i].id <= state.pending.id);
        }
        crate::batches::lemma_request_shares_no_id(s.unbond_requests@, s.pending.id);
    }
    Ok(
        (
            s,
            crate::types::SubmitPlan { undelegations: new_undelegations, burn_shares },
        ),
    )
}

/// Plan and apply the redelegations that drive the ledger toward the
/// strategy's target split, dropping moves below the caller's
/// threshold.  Only the owner may rebalance; the bonded total is
/// conserved, and without a threshold the plan moves exactly the
/// lesser of the ledger's total surplus and total deficit over the
/// target.
pub fn rebalance(
    state: HubState,
    sender: &String,
    min_redelegation: Option<u128>,
    validators: &Vec<String>,
) -> (r: Result<(HubState, Vec<crate::types::Redelegation>), HubError>)
    requires
        state.wf(),
        validators@.len() > 0,
        uniq_strings(validators@),
        state.delegation_strategy is Gauges ==> state.delegation_goal is Some,
    ensures
        sender@ != state.owner@ ==> r == Err::<
            (HubState, Vec<crate::types::Redelegation>),
            HubError,
        >(HubError::Unauthorized),
        r is Ok <==> sender@ == state.owner@,
        r matches Ok((s, moves)) ==> ({
            let floor_move = match min_redelegation {
                Some(m) => m as int,
                None => 0int,
            };
            &&& s.wf()
            &&& s.stake == state.stake
            &&& s.delegations.total() == state.delegations.total()
            &&& (forall|a: int|
                0 <= a < moves@.len() ==> (#[trigger] moves@[a]).amount > 0 && moves@[a].amount
                    >= floor_move)
            &&& (forall|a: int|
                0 <= a < moves@.len() ==> crate::ledger::amount_of(
                    crate::math::spec_wanted(
                        state.delegation_strategy,
                        state.delegation_goal,
                        sum_amounts(state.delegations.delegations@) as u128,
                        validators@,
                    ),
                    (#[trigger] moves@[a]).dst@,
                ) > state.delegations.amount(moves@[a].dst@))
            &&& (forall|v: Seq<char>| #![trigger crate::ledger::moved_out(moves@, v)]
                crate::ledger::moved_out(moves@, v) <= state.delegations.amount(v))
            &&& (floor_move == 0 ==> crate::ledger::sum_redelegations(moves@) == ({
                let w = crate::math::spec_wanted(
                    state.delegation_strategy,
                    state.delegation_goal,
                    sum_amounts(state.delegations.delegations@) as u128,
                    validators@,
                );
                let ts = crate::math::sum_surplus(
                    state.delegations.delegations@,
                    w,
                    state.delegations.delegations@.len() as int,
                );
                let td = crate::math::sum_deficit(state.delegations.delegations@, w, w.len() as int);
                if ts <= td {
                    ts
                } else {
                    td
                }
            }))
            &&& (forall|a: int, b: int|
                0 <= a < b < moves@.len() ==> !((#[trigger] moves@[a]).src@ == (
                #[trigger] moves@[b]).src@ && moves@[a].dst@ == moves@[b].dst@))
            &&& (exists|full: Seq<crate::types::Redelegation>|
                #[trigger] crate::math::spec_plan_ok(
                    state.delegations.delegations@,
                    crate::math::spec_wanted(
                        state.delegation_strategy,
                        state.delegation_goal,
                        sum_amounts(state.delegations.delegations@) as u128,
                        validators@,
                    ),
                    full,
                ) && moves@ == crate::math::spec_filter_ge(full, floor_move))
            &&& crate::ledger::spec_redelegate_seq(state.delegations.delegations@, moves@) is Ok
            &&& s.delegations.delegations@ == crate::ledger::spec_redelegate_seq(
                state.delegations.delegations@,
                moves@,
            )->Ok_0
            &&& s == (HubState { delegations: s.delegations, ..state })
        }),
{
    if !(*sender == state.owner) {
        return Err(HubError::Unauthorized);
    }
    let min_move: u128 = match min_redelegation {
        Some(m) => m,
        None => 0,
    };
    let all_moves: Vec<crate::types::Redelegation> = crate::math::compute_redelegations_for_rebalancing(
        &state.delegation_strategy,
        &state.delegation_goal,
        &state.delegations.delegations,
        validators,
    );
    let n: usize = all_moves.len();
    let mut moves: Vec<crate::types::Redelegation> = Vec::new();
    let mut k: usize = 0;
    proof {
        assert(all_moves@.subrange(0, 0) =~= Seq::<crate::types::Redelegation>::empty());
    }
    while k < n
        invariant
            n == all_moves@.len(),
            k <= n,
            crate::math::spec_plan_ok(
                state.delegations.delegations@,
                crate::math::spec_wanted(
                    state.delegation_strategy,
                    state.delegation_goal,
                    sum_amounts(state.delegations.delegations@) as u128,
                    validators@,
                ),
                all_moves@,
            ),
            forall|a: int|
                0 <= a < all_moves@.len() ==> (#[trigger] all_moves@[a]).amount > 0,
            forall|a: int|
                0 <= a < all_moves@.len() ==> crate::ledger::amount_of(
                    crate::math::spec_wanted(
                        state.delegation_strategy,
                        state.delegation_goal,
                        sum_amounts(state.delegations.delegations@) as u128,
                        validators@,
                    ),
                    (#[trigger] all_moves@[a]).dst@,
                ) > crate::ledger::amount_of(state.delegations.delegations@, all_moves@[a].dst@),
            forall|v: Seq<char>| #![trigger crate::ledger::moved_out(all_moves@, v)]
                crate::ledger::moved_out(all_moves@, v) <= crate::ledger::amount_of(
                    state.delegations.delegations@,
                    v,
                ),
            forall|a: int|
                0 <= a < moves@.len() ==> (#[trigger] moves@[a]).amount >= min_move && exists|
                    b: int,
                |
                    0 <= b < k && moves@[a] == all_moves@[b],
            forall|v: Seq<char>| #![trigger crate::ledger::moved_out(moves@, v)]
                crate::ledger::moved_out(moves@, v) <= crate::ledger::moved_out(
                    all_moves@.subrange(0, k as int),
                    v,
                ),
            min_move == 0 ==> crate::ledger::sum_redelegations(moves@)
                == crate::ledger::sum_redelegations(all_moves@.subrange(0, k as int)),
            moves@ == crate::math::spec_filter_ge(
                all_moves@.subrange(0, k as int),
                min_move as int,
            ),
        decreases n - k,
    {
        let ghost prefix = all_moves@.subrange(0, k as int);
        proof {
            assert(all_moves@.subrange(0, k + 1).drop_last() =~= prefix);
            assert(all_moves@.subrange(0, k + 1).last() == all_moves@[k as int]);
        }
        if all_moves[k].amount >= min_move {
            let entry = crate::types::Redelegation {
                src: all_moves[k].src.clone(),
                dst: all_moves[k].dst.clone(),
                amount: all_moves[k].amount,
            };
            let ghost before = moves@;
            moves.push(entry);
            proof {
                crate::ledger::lemma_sum_redelegations_push(before, moves@.last());
                assert(moves@.last() == all_moves@[k as int]);
                assert(moves@.last().amount == all_moves@[k as int].amount);
                assert(moves@.last().src@ == all_moves@[k as int].src@);
                assert(moves@.last() == (crate::types::Redelegation {
                    src: moves@.last().src,
                    dst: moves@.last().dst,
                    amount: all_moves@[k as int].amount,
                }));
                assert forall|v: Seq<char>| #![trigger crate::ledger::moved_out(moves@, v)]
                    crate::ledger::moved_out(moves@, v) <= crate::ledger::moved_out(
                    all_moves@.subrange(0, k + 1),
                    v,
                ) by {
                    crate::ledger::lemma_moved_out_push(before, moves@.last(), v);
                    crate::ledger::lemma_moved_out_nonneg(before, v);
                }
                assert forall|a: int|
                    0 <= a < moves@.len() implies (#[trigger] moves@[a]).amount >= min_move
                    && exists|b: int| 0 <= b < k + 1 && moves@[a] == all_moves@[b] by {
                    if a == moves@.len() - 1 {
                        assert(moves@[a] == all_moves@[k as int]);
                    }
                }
            }
        } else {
            proof {
                assert forall|v: Seq<char>| #![trigger crate::ledger::moved_out(moves@, v)]
                    crate::ledger::moved_out(moves@, v) <= crate::ledger::moved_out(
                    all_moves@.subrange(0, k + 1),
                    v,
                ) by {
                    crate::ledger::lemma_moved_out_nonneg(moves@, v);
                }
            }
        }
        k += 1;
    }
    proof {
        assert(all_moves@.subrange(0, n as int) =~= all_moves@);
        assert forall|v: Seq<char>| #![trigger crate::ledger::moved_out(moves@, v)]
            crate::ledger::moved_out(moves@, v) <= crate::ledger::amount_of(
            state.delegations.delegations@,
            v,
        ) by {
            assert(crate::ledger::moved_out(moves@, v) <= crate::ledger::moved_out(
                all_moves@,
                v,
            ));
        }
        crate::ledger::lemma_spec_redelegate_seq_ok(state.delegations.delegations@, moves@);
        assert(moves@ == crate::math::spec_filter_ge(all_moves@, min_move as int));
        crate::math::lemma_filter_ge_distinct(all_moves@, min_move as int);
        assert(crate::math::spec_plan_ok(
            state.delegations.delegations@,
            crate::math::spec_wanted(
                state.delegation_strategy,
                state.delegation_goal,
                sum_amounts(state.delegations.delegations@) as u128,
                validators@,
            ),
            all_moves@,
        ));
        assert((match min_redelegation {
            Some(m) => m as int,
            None => 0int,
        }) == min_move as int);
        assert(moves@ == crate::math::spec_filter_ge(
            all_moves@,
            match min_redelegation {
                Some(m) => m as int,
                None => 0int,
            },
        ));
        assert(exists|full: Seq<crate::types::Redelegation>|
            #[trigger] crate::math::spec_plan_ok(
                state.delegations.delegations@,
                crate::math::spec_wanted(
                    state.delegation_strategy,
                    state.delegation_goal,
                    sum_amounts(state.delegations.delegations@) as u128,
                    validators@,
                ),
                full,
            ) && moves@ == crate::math::spec_filter_ge(
                full,
                match min_redelegation {
                    Some(m) => m as int,
                    None => 0int,
                },
            ));
        assert forall|a: int, b: int|
            0 <= a < b < moves@.len() implies !((#[trigger] moves@[a]).src@ == (
        #[trigger] moves@[b]).src@ && moves@[a].dst@ == moves@[b].dst@) by {
            assert(moves@[a] == crate::math::spec_filter_ge(all_moves@, min_move as int)[a]);
            assert(moves@[b] == crate::math::spec_filter_ge(all_moves@, min_move as int)[b]);
        }
    }
    let mut s = state;
    let ledger = s.delegations;
    s.delegations = match ledger.redelegate(&moves) {
        Ok(l) => l,
        Err(_) => {
            // the planner never overdraws a source, so this arm is
            // unreachable
            proof {
                assert(false);
            }
            return Err(HubError::Unauthorized);
        },
    };
    Ok((s, moves))
}

/// Write replacement batches back at their recorded, strictly
/// increasing positions.
fn patch_batches(
    batches: Vec<crate::types::Batch>,
    pos: &Vec<usize>,
    rc: &Vec<crate::types::Batch>,
) -> (r: Vec<crate::types::Batch>)
    requires
        pos@.len() == rc@.len(),
        forall|a: int| 0 <= a < pos@.len() ==> (#[trigger] pos@[a]) < batches@.len(),
        forall|a: int, b: int| 0 <= a < b < pos@.len() ==> pos@[a] < pos@[b],
    ensures
        r@.len() == batches@.len(),
        forall|a: int| 0 <= a < pos@.len() ==> r@[#[trigger] pos@[a] as int] == rc@[a],
        forall|j: int|
            0 <= j < batches@.len() && (forall|a: int|
                0 <= a < pos@.len() ==> (#[trigger] pos@[a]) != j) ==> r@[j] == batches@[j],
{
    let mut bs = batches;
    let np: usize = pos.len();
    let mut a: usize = 0;
    while a < np
        invariant
            np == pos@.len(),
            pos@.len() == rc@.len(),
            a <= np,
            bs@.len() == batches@.len(),
            forall|c: int| 0 <= c < pos@.len() ==> (#[trigger] pos@[c]) < batches@.len(),
            forall|c: int, b: int| 0 <= c < b < pos@.len() ==> pos@[c] < pos@[b],
            forall|b: int| 0 <= b < a ==> bs@[#[trigger] pos@[b] as int] == rc@[b],
            forall|j: int|
                0 <= j < batches@.len() && (forall|b: int|
                    0 <= b < a ==> (#[trigger] pos@[b]) != j) ==> bs@[j] == batches@[j],
        decreases np - a,
    {
        let p: usize = pos[a];
        bs[p] = rc[a];
        proof {
            assert forall|b: int| 0 <= b < a + 1 implies bs@[#[trigger] pos@[b] as int]
                == rc@[b] by {
                if b < a {
                    assert(pos@[b] < pos@[a as int]);
                }
            }
        }
        a += 1;
    }
    bs
}

/// Reconcile the matured, unreconciled batches against the actual bank
/// balance: when the balance covers what the batches and the unlocked
/// coins expect, every matured batch is marked with no deduction;
/// otherwise the whole shortfall is charged to the matured batches in
/// proportion to their unclaimed amounts.  The second component is the
/// amount deducted.
#[verifier::rlimit(100)]
pub fn reconcile(state: HubState, now: u64, utoken_actual: u128) -> (r: (HubState, u128))
    requires
        state.wf(),
        crate::batches::sum_unclaimed(crate::batches::matured_of(state.previous_batches@, now))
            + coin_amount(state.unlocked_coins@, state.stake.utoken@) <= u128::MAX,
        utoken_actual < crate::batches::sum_unclaimed(
            crate::batches::matured_of(state.previous_batches@, now),
        ) + coin_amount(state.unlocked_coins@, state.stake.utoken@) ==> coin_amount(
            state.unlocked_coins@,
            state.stake.utoken@,
        ) <= utoken_actual,
        ({
            let matured = crate::batches::matured_of(state.previous_batches@, now);
            let expected = crate::batches::sum_unclaimed(matured) + coin_amount(
                state.unlocked_coins@,
                state.stake.utoken@,
            );
            utoken_actual < expected && crate::batches::sum_unclaimed(matured) > 0
                ==> crate::batches::deduction_fits(matured, (expected - utoken_actual) as u128)
        }),
    ensures
        ({
            let matured = crate::batches::matured_of(state.previous_batches@, now);
            let expected = crate::batches::sum_unclaimed(matured) + coin_amount(
                state.unlocked_coins@,
                state.stake.utoken@,
            );
            let s = r.0;
            &&& s.wf()
            &&& s == (HubState { previous_batches: s.previous_batches, ..state })
            &&& r.1 == (if utoken_actual >= expected || crate::batches::sum_unclaimed(matured)
                == 0 {
                0int
            } else {
                expected - utoken_actual
            })
            &&& (crate::batches::sum_unclaimed(matured) == 0 ==> s == state)
            &&& (crate::batches::sum_unclaimed(matured) > 0 ==> {
                &&& s.previous_batches@.len() == state.previous_batches@.len()
                &&& (forall|i: int|
                    0 <= i < state.previous_batches@.len() ==> {
                        let ob = #[trigger] state.previous_batches@[i];
                        let nb = s.previous_batches@[i];
                        if crate::batches::matured_at(ob, now) {
                            nb.reconciled && nb.id == ob.id && nb.total_shares == ob.total_shares
                                && nb.est_unbond_end_time == ob.est_unbond_end_time
                                && nb.utoken_unclaimed <= ob.utoken_unclaimed
                        } else {
                            nb == ob
                        }
                    })
                &&& (forall|i: int|
                    0 <= i < state.previous_batches@.len() && crate::batches::matured_at(
                        #[trigger] state.previous_batches@[i],
                        now,
                    ) ==> s.previous_batches@[i].utoken_unclaimed == state.previous_batches@[
                        i
                    ].utoken_unclaimed - crate::batches::spec_deduction(
                        matured,
                        r.1,
                        crate::batches::matured_index(state.previous_batches@, now, i),
                    ))
                &&& crate::batches::sum_unclaimed(s.previous_batches@)
                    == crate::batches::sum_unclaimed(state.previous_batches@) - r.1
            })
        }),
{
    let ghost old_prev = state.previous_batches@;
    let n: usize = state.previous_batches.len();
    let mut m: Vec<crate::types::Batch> = Vec::new();
    let mut pos: Vec<usize> = Vec::new();
    let mut k: usize = 0;
    proof {
        assert(old_prev.subrange(0, 0) =~= Seq::<crate::types::Batch>::empty());
    }
    while k < n
        invariant
            n == old_prev.len(),
            old_prev == state.previous_batches@,
            k <= n,
            m@ == crate::batches::matured_of(old_prev.subrange(0, k as int), now),
            pos@.len() == m@.len(),
            forall|a: int|
                0 <= a < pos@.len() ==> (#[trigger] pos@[a]) < k && old_prev[pos@[a] as int]
                    == m@[a] && crate::batches::matured_at(old_prev[pos@[a] as int], now) && a
                    == crate::batches::matured_index(old_prev, now, pos@[a] as int),
            forall|a: int, b: int| 0 <= a < b < pos@.len() ==> pos@[a] < pos@[b],
            forall|j: int|
                0 <= j < k && crate::batches::matured_at(#[trigger] old_prev[j], now)
                    ==> exists|a: int| 0 <= a < pos@.len() && (#[trigger] pos@[a]) == j,
        decreases n - k,
    {
        proof {
            assert(old_prev.subrange(0, k + 1).drop_last() =~= old_prev.subrange(0, k as int));
            assert(old_prev.subrange(0, k + 1).last() == old_prev[k as int]);
        }
        let b: crate::types::Batch = state.previous_batches[k];
        if !b.reconciled && now > b.est_unbond_end_time {
            let ghost pos_before = pos@;
            m.push(b);
            pos.push(k);
            proof {
                assert(pos@[pos@.len() - 1] == k);
                assert forall|j: int|
                    0 <= j < k + 1 && crate::batches::matured_at(
                    #[trigger] old_prev[j],
                    now,
                ) implies exists|a: int|
                    0 <= a < pos@.len() && (#[trigger] pos@[a]) == j by {
                    if j == k {
                        assert(pos@[pos@.len() - 1] == j);
                    } else {
                        let a0 = choose|a: int|
                            0 <= a < pos_before.len() && (#[trigger] pos_before[a]) == j;
                        assert(pos@[a0] == pos_before[a0]);
                    }
                }
            }
        }
        k += 1;
    }
    proof {
        assert(old_prev.subrange(0, n as int) =~= old_prev);
    }
    let ghost matured = crate::batches::matured_of(old_prev, now);
    proof {
        assert(m@ == matured);
        crate::coins::lemma_coin_amount_nonneg(state.unlocked_coins@, state.stake.utoken@);
        crate::batches::lemma_sum_unclaimed_nonneg(matured);
    }
    let expected_received: u128 = crate::batches::sum_batches_unclaimed(&m);
    if expected_received == 0 {
        return (state, 0);
    }
    let expected_unlocked: u128 = match crate::coins::find_coin(
        &state.unlocked_coins,
        &state.stake.utoken,
    ) {
        Some(i) => {
            proof {
                crate::coins::lemma_coin_amount_index(state.unlocked_coins@, i as int);
            }
            state.unlocked_coins[i].amount
        },
        None => {
            proof {
                crate::coins::lemma_coin_amount_absent(
                    state.unlocked_coins@,
                    state.stake.utoken@,
                );
            }
            0
        },
    };
    let expected: u128 = expected_received + expected_unlocked;
    let mut s = state;
    if utoken_actual >= expected {
        let marked = crate::batches::mark_reconciled_batches(m);
        let ghost marked_view = marked@;
        let prev = s.previous_batches;
        s.previous_batches = patch_batches(prev, &pos, &marked);
        proof {
            crate::batches::lemma_sum_unclaimed_pointwise(matured, marked_view);
            crate::batches::lemma_sum_patch(
                old_prev,
                s.previous_batches@,
                pos@,
                matured,
                marked_view,
            );
            lemma_reconcile_pointwise(old_prev, s.previous_batches@, pos@, matured, marked_view, now);
            assert forall|i: int|
                0 <= i < old_prev.len() && crate::batches::matured_at(
                    #[trigger] old_prev[i],
                    now,
                ) implies s.previous_batches@[i].utoken_unclaimed == old_prev[i].utoken_unclaimed
                - crate::batches::spec_deduction(
                matured,
                0,
                crate::batches::matured_index(old_prev, now, i),
            ) by {
                let a = choose|a: int| 0 <= a < pos@.len() && (#[trigger] pos@[a]) == i;
                assert(s.previous_batches@[i] == marked_view[a]);
                assert(old_prev[i] == matured[a]);
                crate::batches::lemma_spec_deduction_zero(matured, a);
            }
        }
        (s, 0)
    } else {
        let deficit: u128 = expected - utoken_actual;
        proof {
            crate::batches::lemma_sum_unclaimed_nonneg(matured);
            if matured.len() == 0 {
                assert(crate::batches::sum_unclaimed(matured) == 0);
            }
        }
        let rec = crate::batches::reconcile_batches(m, deficit);
        let ghost rec_view = rec@;
        let prev = s.previous_batches;
        s.previous_batches = patch_batches(prev, &pos, &rec);
        proof {
            crate::batches::lemma_sum_patch(
                old_prev,
                s.previous_batches@,
                pos@,
                matured,
                rec_view,
            );
            lemma_reconcile_pointwise(old_prev, s.previous_batches@, pos@, matured, rec_view, now);
            assert forall|i: int|
                0 <= i < old_prev.len() && crate::batches::matured_at(
                    #[trigger] old_prev[i],
                    now,
                ) implies s.previous_batches@[i].utoken_unclaimed == old_prev[i].utoken_unclaimed
                - crate::batches::spec_deduction(
                matured,
                deficit,
                crate::batches::matured_index(old_prev, now, i),
            ) by {
                let a = choose|a: int| 0 <= a < pos@.len() && (#[trigger] pos@[a]) == i;
                assert(s.previous_batches@[i] == rec_view[a]);
                assert(old_prev[i] == matured[a]);
            }
        }
        (s, deficit)
    }
}

/// Transfer the replaced entries' guarantees back to their positions in
/// the whole column.
proof fn lemma_reconcile_pointwise(
    old_col: Seq<crate::types::Batch>,
    new_col: Seq<crate::types::Batch>,
    pos: Seq<usize>,
    m: Seq<crate::types::Batch>,
    rc: Seq<crate::types::Batch>,
    now: u64,
)
    requires
        old_col.len() == new_col.len(),
        pos.len() == m.len(),
        m.len() == rc.len(),
        forall|a: int|
            0 <= a < pos.len() ==> (#[trigger] pos[a]) < old_col.len() && old_col[pos[a] as int]
                == m[a] && crate::batches::matured_at(old_col[pos[a] as int], now),
        forall|a: int, b: int| 0 <= a < b < pos.len() ==> pos[a] < pos[b],
        forall|j: int|
            0 <= j < old_col.len() && crate::batches::matured_at(#[trigger] old_col[j], now)
                ==> exists|a: int| 0 <= a < pos.len() && (#[trigger] pos[a]) == j,
        forall|a: int| 0 <= a < pos.len() ==> new_col[#[trigger] pos[a] as int] == rc[a],
        forall|j: int|
            0 <= j < old_col.len() && (forall|a: int|
                0 <= a < pos.len() ==> (#[trigger] pos[a]) != j) ==> new_col[j] == old_col[j],
        forall|a: int|
            0 <= a < rc.len() ==> (#[trigger] rc[a]).id == m[a].id && rc[a].total_shares == m[
                a
            ].total_shares && rc[a].est_unbond_end_time == m[a].est_unbond_end_time && rc[
                a
            ].reconciled && rc[a].utoken_unclaimed <= m[a].utoken_unclaimed,
    ensures
        forall|i: int|
            0 <= i < old_col.len() ==> {
                let ob = #[trigger] old_col[i];
                let nb = new_col[i];
                if crate::batches::matured_at(ob, now) {
                    nb.reconciled && nb.id == ob.id && nb.total_shares == ob.total_shares
                        && nb.est_unbond_end_time == ob.est_unbond_end_time && nb.utoken_unclaimed
                        <= ob.utoken_unclaimed
                } else {
                    nb == ob
                }
            },
{
    assert forall|i: int| 0 <= i < old_col.len() implies {
        let ob = #[trigger] old_col[i];
        let nb = new_col[i];
        if crate::batches::matured_at(ob, now) {
            nb.reconciled && nb.id == ob.id && nb.total_shares == ob.total_shares
                && nb.est_unbond_end_time == ob.est_unbond_end_time && nb.utoken_unclaimed
                <= ob.utoken_unclaimed
        } else {
            nb == ob
        }
    } by {
        if crate::batches::matured_at(old_col[i], now) {
            let a = choose|a: int| 0 <= a < pos.len() && (pos[a] as int) == i;
            assert(new_col[pos[a] as int] == rc[a]);
            assert(old_col[pos[a] as int] == m[a]);
        } else {
            assert forall|a: int| 0 <= a < pos.len() implies (#[trigger] pos[a]) != i by {
                assert(crate::batches::matured_at(old_col[pos[a] as int], now));
            }
        }
    }
}

/// Whether one of the first `k` requests is this user's request under
/// this batch id.
pub open spec fn settled_before(
    reqs: Seq<UnbondRequest>,
    k: int,
    id: u64,
    user: Seq<char>,
) -> bool {
    exists|a: int| 0 <= a < k && (#[trigger] reqs[a]).id == id && reqs[a].user@ == user
}

/// Pay out everything a user can draw: each of the user's requests
/// whose batch is reconciled and past its unbonding window is settled
/// at its pro-rata floored share of the batch's unclaimed amount and
/// removed; a batch whose shares are exhausted is deleted.  Fails only
/// when nothing is withdrawable.
#[verifier::rlimit(100)]
pub fn withdraw_unbonded(state: HubState, user: &String, now: u64) -> (r: Result<
    (HubState, crate::types::WithdrawPlan),
    HubError,
>)
    requires
        state.wf(),
        crate::batches::sum_unclaimed(state.previous_batches@) <= u128::MAX,
    ensures
        ({
            let total = crate::batches::spec_user_refund(
                state.unbond_requests@,
                state.previous_batches@,
                user@,
                now,
            );
            &&& (r is Err <==> total == 0)
            &&& (r matches Err(HubError::CantBeZero(m)) ==> m@ == "withdrawable amount"@)
            &&& (r is Err ==> r->Err_0 matches HubError::CantBeZero(_))
            &&& (r matches Ok((s, plan)) ==> {
                &&& s.wf()
                &&& plan.refund == total
                &&& crate::batches::sum_unclaimed(s.previous_batches@)
                    == crate::batches::sum_unclaimed(state.previous_batches@) - total
                &&& (forall|id: u64|
                    #![trigger crate::batches::batch_of(s.previous_batches@, id)]
                    (crate::batches::batch_of(s.previous_batches@, id) matches Some(nb)
                        ==> crate::batches::batch_of(state.previous_batches@, id) matches Some(ob)
                        && nb.id == ob.id && nb.reconciled == ob.reconciled
                        && nb.est_unbond_end_time == ob.est_unbond_end_time
                        && nb.utoken_unclaimed <= ob.utoken_unclaimed && nb.total_shares
                        <= ob.total_shares))
                &&& (forall|id: u64, u: Seq<char>|
                    u != user@ ==> #[trigger] key_shares(s.unbond_requests@, id, u) == key_shares(
                        state.unbond_requests@,
                        id,
                        u,
                    ))
                &&& (forall|id: u64|
                    #![trigger key_shares(s.unbond_requests@, id, user@)]
                    key_shares(s.unbond_requests@, id, user@) == (
                    if crate::batches::withdrawable_batch(state.previous_batches@, id, now) {
                        0int
                    } else {
                        key_shares(state.unbond_requests@, id, user@)
                    }))
                &&& (forall|id: u64|
                    #![trigger crate::batches::batch_of(s.previous_batches@, id)]
                    crate::batches::batch_of(s.previous_batches@, id) == (
                    match crate::batches::batch_of(state.previous_batches@, id) {
                        Some(ob) => if crate::batches::withdrawable_batch(
                            state.previous_batches@,
                            id,
                            now,
                        ) && key_shares(state.unbond_requests@, id, user@) > 0 {
                            crate::batches::spec_after_withdraw(
                                ob,
                                key_shares(state.unbond_requests@, id, user@),
                            )
                        } else {
                            Some(ob)
                        },
                        None => None,
                    }))
                &&& s.pending == state.pending
                &&& s == (HubState {
                    previous_batches: s.previous_batches,
                    unbond_requests: s.unbond_requests,
                    ..state
                })
            })
        }),
{
    let ghost old_reqs = state.unbond_requests@;
    let ghost old_batches = state.previous_batches@;
    let mut s = state;
    let reqs = s.unbond_requests;
    s.unbond_requests = Vec::new();
    let mut kept: Vec<UnbondRequest> = Vec::new();
    let mut total_refund: u128 = 0;
    let mut ids: Vec<u64> = Vec::new();
    let n: usize = reqs.len();
    let mut k: usize = 0;
    proof {
        assert(old_reqs.subrange(0, 0) =~= Seq::<UnbondRequest>::empty());
        assert(kept@ + old_reqs.subrange(0, n as int) =~= old_reqs);
    }
    while k < n
        invariant
            n == old_reqs.len(),
            reqs@ == old_reqs,
            k <= n,
            state.wf(),
            crate::batches::sum_unclaimed(old_batches) <= u128::MAX,
            old_batches == state.previous_batches@,
            old_reqs == state.unbond_requests@,
            s == (HubState {
                previous_batches: s.previous_batches,
                unbond_requests: s.unbond_requests,
                ..state
            }),
            s.unbond_requests@.len() == 0,
            crate::batches::uniq_batch_ids(s.previous_batches@),
            ({
                let current = kept@ + old_reqs.subrange(k as int, n as int);
                &&& crate::batches::uniq_request_keys(current)
                &&& (forall|i: int|
                    0 <= i < current.len() ==> (#[trigger] current[i]).shares > 0 && current[
                        i
                    ].id <= state.pending.id)
                &&& state.pending.ustake_to_burn == sum_request_shares(
                    current,
                    state.pending.id,
                )
                &&& (forall|j: int|
                    0 <= j < s.previous_batches@.len() ==> (
                    #[trigger] s.previous_batches@[j]).id < state.pending.id
                        && s.previous_batches@[j].total_shares == sum_request_shares(
                        current,
                        s.previous_batches@[j].id,
                    ))
                &&& (forall|id: u64, u: Seq<char>|
                    u != user@ ==> #[trigger] key_shares(current, id, u) == key_shares(
                        old_reqs,
                        id,
                        u,
                    ))
            }),
            forall|id: u64|
                #![trigger crate::batches::batch_of(s.previous_batches@, id)]
                (crate::batches::batch_of(s.previous_batches@, id) matches Some(nb)
                    ==> crate::batches::batch_of(old_batches, id) matches Some(ob) && nb.id
                    == ob.id && nb.reconciled == ob.reconciled && nb.est_unbond_end_time
                    == ob.est_unbond_end_time && nb.utoken_unclaimed <= ob.utoken_unclaimed
                    && nb.total_shares <= ob.total_shares),
            forall|a: int|
                k <= a < n && (#[trigger] old_reqs[a]).user@ == user@
                    ==> crate::batches::batch_of(s.previous_batches@, old_reqs[a].id)
                    == crate::batches::batch_of(old_batches, old_reqs[a].id),
            forall|id: u64|
                #![trigger crate::batches::batch_of(s.previous_batches@, id)]
                crate::batches::batch_of(s.previous_batches@, id) == (if settled_before(
                    old_reqs,
                    k as int,
                    id,
                    user@,
                ) && crate::batches::withdrawable_batch(old_batches, id, now) {
                    crate::batches::spec_after_withdraw(
                        crate::batches::batch_of(old_batches, id)->Some_0,
                        key_shares(old_reqs, id, user@),
                    )
                } else {
                    crate::batches::batch_of(old_batches, id)
                }),
            forall|id: u64|
                #![trigger key_shares(kept@ + old_reqs.subrange(k as int, n as int), id, user@)]
                key_shares(kept@ + old_reqs.subrange(k as int, n as int), id, user@) == (
                if settled_before(old_reqs, k as int, id, user@)
                    && crate::batches::withdrawable_batch(old_batches, id, now) {
                    0int
                } else {
                    key_shares(old_reqs, id, user@)
                }),
            total_refund == crate::batches::spec_user_refund(
                old_reqs.subrange(0, k as int),
                old_batches,
                user@,
                now,
            ),
            total_refund + crate::batches::sum_unclaimed(s.previous_batches@)
                == crate::batches::sum_unclaimed(old_batches),
        decreases n - k,
    {
        let ghost current = kept@ + old_reqs.subrange(k as int, n as int);
        let ghost rest = old_reqs.subrange(k as int, n as int);
        proof {
            assert(rest[0] == old_reqs[k as int]);
            assert(rest.subrange(1, rest.len() as int) =~= old_reqs.subrange(k + 1, n as int));
            crate::batches::lemma_user_refund_step(old_reqs, old_batches, user@, now, k as int);
        }
        let rq_id: u64 = reqs[k].id;
        let rq_shares: u128 = reqs[k].shares;
        let mut settled: bool = false;
        if reqs[k].user == *user {
            match crate::batches::find_batch(&s.previous_batches, rq_id) {
                Some(j) => {
                    let b: crate::types::Batch = s.previous_batches[j];
                    if b.reconciled && b.est_unbond_end_time < now {
                        proof {
                            crate::batches::lemma_batch_of_index(s.previous_batches@, j as int);
                            assert(current[kept@.len() as int] == old_reqs[k as int]);
                            crate::batches::lemma_request_le_sum(current, kept@.len() as int);
                            crate::batches::lemma_unclaimed_elem_le_sum(
                                s.previous_batches@,
                                j as int,
                            );
                            crate::batches::lemma_sum_unclaimed_nonneg(s.previous_batches@);
                            lemma_ratio_le_left(
                                b.utoken_unclaimed as int,
                                rq_shares as int,
                                b.total_shares as int,
                            );
                            lemma_withdraw_request_drop(
                                kept@,
                                old_reqs,
                                k as int,
                                n as int,
                                user@,
                            );
                        }
                        let refund_part: u128 = mul_ratio(
                            b.utoken_unclaimed,
                            rq_shares,
                            b.total_shares,
                        );
                        total_refund = total_refund + refund_part;
                        let new_shares: u128 = b.total_shares - rq_shares;
                        let new_unclaimed: u128 = b.utoken_unclaimed - refund_part;
                        let ghost batches_before = s.previous_batches@;
                        if new_shares == 0 {
                            proof {
                                vstd::arithmetic::mul::lemma_mul_is_commutative(
                                    b.utoken_unclaimed as int,
                                    b.total_shares as int,
                                );
                                vstd::arithmetic::div_mod::lemma_div_multiples_vanish(
                                    b.utoken_unclaimed as int,
                                    b.total_shares as int,
                                );
                                assert(refund_part == b.utoken_unclaimed);
                                assert(rq_shares == b.total_shares);
                                crate::batches::lemma_sum_unclaimed_remove(
                                    batches_before,
                                    j as int,
                                );
                            }
                            s.previous_batches.remove(j);
                            proof {
                                crate::batches::lemma_batch_of_remove(
                                    batches_before,
                                    j as int,
                                    rq_id,
                                );
                                assert forall|id: u64|
                                    #![trigger crate::batches::batch_of(s.previous_batches@, id)]
                                    crate::batches::batch_of(s.previous_batches@, id) == (if id
                                        == rq_id {
                                        None
                                    } else {
                                        crate::batches::batch_of(batches_before, id)
                                    }) by {
                                    crate::batches::lemma_batch_of_remove(
                                        batches_before,
                                        j as int,
                                        id,
                                    );
                                }
                                let current2 = kept@ + old_reqs.subrange(k + 1, n as int);
                                assert forall|j2: int|
                                    0 <= j2 < s.previous_batches@.len() implies (
                                #[trigger] s.previous_batches@[j2]).id < state.pending.id
                                    && s.previous_batches@[j2].total_shares
                                    == sum_request_shares(
                                    current2,
                                    s.previous_batches@[j2].id,
                                ) by {
                                    let j0: int = if j2 < j { j2 } else { j2 + 1 };
                                    assert(s.previous_batches@[j2] == batches_before[j0]);
                                    assert(batches_before[j0].id != batches_before[j as int].id);
                                    assert(sum_request_shares(current2, batches_before[j0].id)
                                        == sum_request_shares(
                                        current,
                                        batches_before[j0].id,
                                    ));
                                }
                            }
                        } else {
                            s.previous_batches[j].total_shares = new_shares;
                            s.previous_batches[j].utoken_unclaimed = new_unclaimed;
                            proof {
                                let nb = s.previous_batches@[j as int];
                                assert(s.previous_batches@ =~= batches_before.update(
                                    j as int,
                                    nb,
                                ));
                                assert(nb.id == rq_id);
                                crate::batches::lemma_sum_unclaimed_update(
                                    batches_before,
                                    j as int,
                                    nb,
                                );
                                assert forall|id: u64|
                                    #![trigger crate::batches::batch_of(s.previous_batches@, id)]
                                    crate::batches::batch_of(s.previous_batches@, id) == (if id
                                        == rq_id {
                                        Some(nb)
                                    } else {
                                        crate::batches::batch_of(batches_before, id)
                                    }) by {
                                    crate::batches::lemma_batch_of_update(
                                        batches_before,
                                        j as int,
                                        nb,
                                        id,
                                    );
                                }
                                assert(crate::batches::uniq_batch_ids(s.previous_batches@)) by {
                                    assert(forall|i: int|
                                        0 <= i < batches_before.len()
                                            ==> s.previous_batches@[i].id
                                            == batches_before[i].id);
                                }
                                assert(nb == (crate::types::Batch {
                                    id: b.id,
                                    total_shares: (b.total_shares - rq_shares) as u128,
                                    utoken_unclaimed: (b.utoken_unclaimed - (
                                    b.utoken_unclaimed as int) * (rq_shares as int) / (
                                    b.total_shares as int)) as u128,
                                    est_unbond_end_time: b.est_unbond_end_time,
                                    reconciled: b.reconciled,
                                }));
                                let current2 = kept@ + old_reqs.subrange(k + 1, n as int);
                                assert forall|j2: int|
                                    0 <= j2 < s.previous_batches@.len() implies (
                                #[trigger] s.previous_batches@[j2]).id < state.pending.id
                                    && s.previous_batches@[j2].total_shares
                                    == sum_request_shares(
                                    current2,
                                    s.previous_batches@[j2].id,
                                ) by {
                                    if j2 == j {
                                        assert(sum_request_shares(current2, rq_id)
                                            == sum_request_shares(current, rq_id)
                                            - rq_shares);
                                    } else {
                                        assert(s.previous_batches@[j2] == batches_before[j2]);
                                        assert(batches_before[j2].id != batches_before[
                                            j as int
                                        ].id);
                                        assert(sum_request_shares(
                                            current2,
                                            batches_before[j2].id,
                                        ) == sum_request_shares(
                                            current,
                                            batches_before[j2].id,
                                        ));
                                    }
                                }
                            }
                        }
                        ids.push(rq_id);
                        settled = true;
                        proof {
                            let current2 = kept@ + old_reqs.subrange(k + 1, n as int);
                            assert forall|i: int|
                                0 <= i < current2.len() implies (#[trigger] current2[i]).shares
                                > 0 && current2[i].id <= state.pending.id by {
                                let i0: int = if i < kept@.len() { i } else { i + 1 };
                                assert(current2[i] == current[i0]);
                            }
                            assert(sum_request_shares(current2, state.pending.id)
                                == sum_request_shares(current, state.pending.id));
                            assert forall|id: u64, u: Seq<char>|
                                u != user@ implies #[trigger] key_shares(current2, id, u)
                                == key_shares(old_reqs, id, u) by {
                                assert(key_shares(current2, id, u) == key_shares(
                                    current,
                                    id,
                                    u,
                                ));
                            }
                            // refund accounting: this request pays exactly its spec share
                            assert(crate::batches::batch_of(old_batches, rq_id) == Some(b));
                            assert(crate::batches::refund_of(old_batches, old_reqs[k as int], now)
                                == (b.utoken_unclaimed as int) * (rq_shares as int) / (
                            b.total_shares as int));
                            // untouched batches stay untouched for the user's later requests
                            assert forall|a: int|
                                k + 1 <= a < n && (#[trigger] old_reqs[a]).user@ == user@
                                    implies crate::batches::batch_of(
                                s.previous_batches@,
                                old_reqs[a].id,
                            ) == crate::batches::batch_of(old_batches, old_reqs[a].id) by {
                                let pos_a: int = kept@.len() + (a - k);
                                assert(current[pos_a] == old_reqs[a]);
                                assert(current[kept@.len() as int] == old_reqs[k as int]);
                                if old_reqs[a].id == rq_id {
                                    assert(!(current[kept@.len() as int].id == current[pos_a].id
                                        && current[kept@.len() as int].user@
                                        == current[pos_a].user@));
                                }
                            }
                            // this request was the user's only one for its batch
                            assert(!settled_before(old_reqs, k as int, rq_id, user@)) by {
                                if settled_before(old_reqs, k as int, rq_id, user@) {
                                    let a = choose|a: int|
                                        0 <= a < k && (#[trigger] old_reqs[a]).id == rq_id
                                            && old_reqs[a].user@ == user@;
                                    assert(!(old_reqs[a].id == old_reqs[k as int].id
                                        && old_reqs[a].user@ == old_reqs[k as int].user@));
                                }
                            }
                            crate::batches::lemma_key_shares_index(old_reqs, k as int);
                            assert(key_shares(old_reqs, rq_id, user@) == rq_shares);
                            assert(crate::batches::withdrawable_batch(old_batches, rq_id, now));
                            assert(crate::batches::batch_of(s.previous_batches@, rq_id)
                                == crate::batches::spec_after_withdraw(b, rq_shares as int));
                            assert forall|id: u64|
                                #![trigger crate::batches::batch_of(s.previous_batches@, id)]
                                crate::batches::batch_of(s.previous_batches@, id) == (
                            if settled_before(old_reqs, k + 1, id, user@)
                                && crate::batches::withdrawable_batch(old_batches, id, now) {
                                crate::batches::spec_after_withdraw(
                                    crate::batches::batch_of(old_batches, id)->Some_0,
                                    key_shares(old_reqs, id, user@),
                                )
                            } else {
                                crate::batches::batch_of(old_batches, id)
                            }) by {
                                if id == rq_id {
                                    assert(settled_before(old_reqs, k + 1, id, user@)) by {
                                        assert(old_reqs[k as int].id == id && old_reqs[
                                            k as int
                                        ].user@ == user@);
                                    }
                                } else {
                                    assert(settled_before(old_reqs, k + 1, id, user@)
                                        == settled_before(old_reqs, k as int, id, user@)) by {
                                        if settled_before(old_reqs, k + 1, id, user@)
                                            && !settled_before(
                                            old_reqs,
                                            k as int,
                                            id,
                                            user@,
                                        ) {
                                            let a = choose|a: int|
                                                0 <= a < k + 1 && (#[trigger] old_reqs[a]).id
                                                    == id && old_reqs[a].user@ == user@;
                                            assert(a == k);
                                        }
                                    }
                                    assert(crate::batches::batch_of(s.previous_batches@, id)
                                        == crate::batches::batch_of(batches_before, id));
                                }
                            }
                            assert forall|id: u64|
                                #![trigger key_shares(current2, id, user@)]
                                key_shares(current2, id, user@) == (if settled_before(
                                old_reqs,
                                k + 1,
                                id,
                                user@,
                            ) && crate::batches::withdrawable_batch(old_batches, id, now) {
                                0int
                            } else {
                                key_shares(old_reqs, id, user@)
                            }) by {
                                if id == rq_id {
                                    assert(key_shares(current2, id, user@) == key_shares(
                                        current,
                                        id,
                                        user@,
                                    ) - rq_shares);
                                    assert(settled_before(old_reqs, k + 1, id, user@)) by {
                                        assert(old_reqs[k as int].id == id && old_reqs[
                                            k as int
                                        ].user@ == user@);
                                    }
                                } else {
                                    assert(key_shares(current2, id, user@) == key_shares(
                                        current,
                                        id,
                                        user@,
                                    ));
                                    assert(settled_before(old_reqs, k + 1, id, user@)
                                        == settled_before(old_reqs, k as int, id, user@)) by {
                                        if settled_before(old_reqs, k + 1, id, user@)
                                            && !settled_before(
                                            old_reqs,
                                            k as int,
                                            id,
                                            user@,
                                        ) {
                                            let a = choose|a: int|
                                                0 <= a < k + 1 && (#[trigger] old_reqs[a]).id
                                                    == id && old_reqs[a].user@ == user@;
                                            assert(a == k);
                                        }
                                    }
                                }
                            }
                        }
                    }
                }
                ,
                None => {},
            }
        }
        if !settled {
            let entry = UnbondRequest {
                id: rq_id,
                user: reqs[k].user.clone(),
                shares: rq_shares,
            };
            let ghost kept_before = kept@;
            kept.push(entry);
            proof {
                let current2 = kept@ + old_reqs.subrange(k + 1, n as int);
                assert forall|i: int| 0 <= i < current2.len() implies current2[i].id == current[
                    i
                ].id && current2[i].user@ == current[i].user@ && current2[i].shares == current[
                    i
                ].shares by {
                    if i < kept_before.len() {
                        assert(current2[i] == kept_before[i]);
                        assert(current[i] == kept_before[i]);
                    } else if i == kept_before.len() {
                        assert(current2[i] == kept@.last());
                        assert(current[i] == old_reqs[k as int]);
                    } else {
                        assert(current2[i] == old_reqs[k + 1 + (i - kept_before.len() - 1)]);
                        assert(current[i] == rest[i - kept_before.len()]);
                    }
                }
                lemma_request_columns_agree(current, current2);
                if reqs@[k as int].user@ == user@ {
                    // the request stays because its batch is not withdrawable
                    assert(crate::batches::refund_of(old_batches, old_reqs[k as int], now) == 0);
                    assert(!crate::batches::withdrawable_batch(old_batches, rq_id, now));
                }
                assert forall|id: u64| true implies settled_before(old_reqs, k + 1, id, user@)
                    == (settled_before(old_reqs, k as int, id, user@) || (old_reqs[k as int].id
                    == id && old_reqs[k as int].user@ == user@)) by {
                    if settled_before(old_reqs, k + 1, id, user@) && !settled_before(
                        old_reqs,
                        k as int,
                        id,
                        user@,
                    ) {
                        let a = choose|a: int|
                            0 <= a < k + 1 && (#[trigger] old_reqs[a]).id == id && old_reqs[
                                a
                            ].user@ == user@;
                        assert(a == k);
                    }
                    if old_reqs[k as int].id == id && old_reqs[k as int].user@ == user@ {
                        assert(settled_before(old_reqs, k + 1, id, user@)) by {
                            assert(0 <= k < k + 1 && old_reqs[k as int].id == id && old_reqs[
                                k as int
                            ].user@ == user@);
                        }
                    }
                }
                assert forall|id: u64|
                    #![trigger crate::batches::batch_of(s.previous_batches@, id)]
                    crate::batches::batch_of(s.previous_batches@, id) == (if settled_before(
                    old_reqs,
                    k + 1,
                    id,
                    user@,
                ) && crate::batches::withdrawable_batch(old_batches, id, now) {
                    crate::batches::spec_after_withdraw(
                        crate::batches::batch_of(old_batches, id)->Some_0,
                        key_shares(old_reqs, id, user@),
                    )
                } else {
                    crate::batches::batch_of(old_batches, id)
                }) by {
                    if settled_before(old_reqs, k + 1, id, user@) && !settled_before(
                        old_reqs,
                        k as int,
                        id,
                        user@,
                    ) {
                        assert(old_reqs[k as int].id == id && old_reqs[k as int].user@ == user@);
                        assert(!crate::batches::withdrawable_batch(old_batches, id, now));
                    }
                }
                assert forall|id: u64|
                    #![trigger key_shares(current2, id, user@)]
                    key_shares(current2, id, user@) == (if settled_before(
                    old_reqs,
                    k + 1,
                    id,
                    user@,
                ) && crate::batches::withdrawable_batch(old_batches, id, now) {
                    0int
                } else {
                    key_shares(old_reqs, id, user@)
                }) by {
                    assert(key_shares(current2, id, user@) == key_shares(current, id, user@));
                    if settled_before(old_reqs, k + 1, id, user@) && !settled_before(
                        old_reqs,
                        k as int,
                        id,
                        user@,
                    ) {
                        assert(old_reqs[k as int].id == id && old_reqs[k as int].user@ == user@);
                        assert(!crate::batches::withdrawable_batch(old_batches, id, now));
                    }
                }
            }
        }
        k += 1;
    }
    proof {
        assert(kept@ + old_reqs.subrange(n as int, n as int) =~= kept@);
        assert(old_reqs.subrange(0, n as int) =~= old_reqs);
    }
    if total_refund == 0 {
        return Err(HubError::CantBeZero("withdrawable amount".to_owned()));
    }
    s.unbond_requests = kept;
    proof {
        assert forall|id: u64| true implies settled_before(old_reqs, n as int, id, user@) == (
        key_shares(old_reqs, id, user@) > 0) by {
            if settled_before(old_reqs, n as int, id, user@) {
                let a = choose|a: int|
                    0 <= a < n && (#[trigger] old_reqs[a]).id == id && old_reqs[a].user@
                        == user@;
                crate::batches::lemma_key_shares_index(old_reqs, a);
            } else {
                assert(forall|i: int|
                    0 <= i < old_reqs.len() ==> !((#[trigger] old_reqs[i]).id == id && old_reqs[
                        i
                    ].user@ == user@));
                crate::batches::lemma_key_shares_absent(old_reqs, id, user@);
            }
        }
        assert forall|id: u64|
            #![trigger key_shares(s.unbond_requests@, id, user@)]
            key_shares(s.unbond_requests@, id, user@) == (
        if crate::batches::withdrawable_batch(old_batches, id, now) {
            0int
        } else {
            key_shares(old_reqs, id, user@)
        }) by {
            assert(key_shares(s.unbond_requests@, id, user@) == key_shares(
                kept@ + old_reqs.subrange(n as int, n as int),
                id,
                user@,
            ));
            if crate::batches::withdrawable_batch(old_batches, id, now) && !settled_before(
                old_reqs,
                n as int,
                id,
                user@,
            ) {
                crate::batches::lemma_key_shares_nonneg(old_reqs, id, user@);
                assert(key_shares(old_reqs, id, user@) == 0);
            }
        }
        assert forall|id: u64|
            #![trigger crate::batches::batch_of(s.previous_batches@, id)]
            crate::batches::batch_of(s.previous_batches@, id) == (
        match crate::batches::batch_of(old_batches, id) {
            Some(ob) => if crate::batches::withdrawable_batch(old_batches, id, now)
                && key_shares(old_reqs, id, user@) > 0 {
                crate::batches::spec_after_withdraw(ob, key_shares(old_reqs, id, user@))
            } else {
                Some(ob)
            },
            None => None,
        }) by {
            if crate::batches::batch_of(old_batches, id) is None {
                assert(!crate::batches::withdrawable_batch(old_batches, id, now));
            }
        }
    }
    Ok((s, crate::types::WithdrawPlan { refund: total_refund, batch_ids: ids }))
}

/// Dropping one request from the seam of a split column lowers exactly
/// its own key's totals.
proof fn lemma_withdraw_request_drop(
    kept: Seq<UnbondRequest>,
    old_reqs: Seq<UnbondRequest>,
    k: int,
    n: int,
    user: Seq<char>,
)
    requires
        0 <= k < n,
        n == old_reqs.len(),
    ensures
        ({
            let current = kept + old_reqs.subrange(k, n);
            let current2 = kept + old_reqs.subrange(k + 1, n);
            let rq = old_reqs[k];
            &&& (forall|id: u64|
                #[trigger] sum_request_shares(current2, id) == sum_request_shares(current, id)
                    - (if rq.id == id {
                    rq.shares as int
                } else {
                    0int
                }))
            &&& (forall|id: u64, u: Seq<char>|
                #[trigger] key_shares(current2, id, u) == key_shares(current, id, u) - (if rq.id
                    == id && rq.user@ == u {
                    rq.shares as int
                } else {
                    0int
                }))
            &&& (crate::batches::uniq_request_keys(current)
                ==> crate::batches::uniq_request_keys(current2))
            &&& ((forall|i: int|
                0 <= i < current.len() ==> (#[trigger] current[i]).shares > 0 && current[i].id
                    <= 0xffff_ffff_ffff_ffffu64 + 0) ==> true)
        }),
{
    let current = kept + old_reqs.subrange(k, n);
    let current2 = kept + old_reqs.subrange(k + 1, n);
    let rest = old_reqs.subrange(k, n);
    let rest2 = old_reqs.subrange(k + 1, n);
    let rq = old_reqs[k];
    assert(rest =~= seq![rq] + rest2);
    assert forall|id: u64| #[trigger] sum_request_shares(current2, id) == sum_request_shares(
        current,
        id,
    ) - (if rq.id == id {
        rq.shares as int
    } else {
        0int
    }) by {
        crate::batches::lemma_request_shares_concat(kept, rest, id);
        crate::batches::lemma_request_shares_concat(kept, rest2, id);
        crate::batches::lemma_request_shares_concat(seq![rq], rest2, id);
        assert(sum_request_shares(seq![rq], id) == if rq.id == id {
            rq.shares as int
        } else {
            0int
        }) by {
            assert(seq![rq].drop_last() =~= Seq::<UnbondRequest>::empty());
            assert(seq![rq].last() == rq);
            assert(sum_request_shares(Seq::<UnbondRequest>::empty(), id) == 0);
        }
        assert(sum_request_shares(rest, id) == sum_request_shares(seq![rq] + rest2, id));
    }
    assert forall|id: u64, u: Seq<char>| #[trigger] key_shares(current2, id, u) == key_shares(
        current,
        id,
        u,
    ) - (if rq.id == id && rq.user@ == u {
        rq.shares as int
    } else {
        0int
    }) by {
        crate::batches::lemma_key_shares_concat(kept, rest, id, u);
        crate::batches::lemma_key_shares_concat(kept, rest2, id, u);
        crate::batches::lemma_key_shares_concat(seq![rq], rest2, id, u);
        assert(key_shares(seq![rq], id, u) == if rq.id == id && rq.user@ == u {
            rq.shares as int
        } else {
            0int
        }) by {
            assert(seq![rq].drop_last() =~= Seq::<UnbondRequest>::empty());
            assert(seq![rq].last() == rq);
            assert(key_shares(Seq::<UnbondRequest>::empty(), id, u) == 0);
        }
        assert(key_shares(rest, id, u) == key_shares(seq![rq] + rest2, id, u));
    }
    if crate::batches::uniq_request_keys(current) {
        assert forall|a: int, b: int| 0 <= a < b < current2.len() implies !(current2[a].id
            == current2[b].id && current2[a].user@ == current2[b].user@) by {
            let a0 = if a < kept.len() {
                a
            } else {
                a + 1
            };
            let b0 = if b < kept.len() {
                b
            } else {
                b + 1
            };
            assert(current2[a] == current[a0]);
            assert(current2[b] == current[b0]);
        }
    }
}

/// Two request columns with the same keys and shares have the same
/// totals everywhere.
proof fn lemma_request_columns_agree(a: Seq<UnbondRequest>, b: Seq<UnbondRequest>)
    requires
        a.len() == b.len(),
        forall|i: int|
            0 <= i < a.len() ==> (#[trigger] b[i]).id == a[i].id && b[i].user@ == a[i].user@
                && b[i].shares == a[i].shares,
    ensures
        forall|id: u64| #[trigger] sum_request_shares(b, id) == sum_request_shares(a, id),
        forall|id: u64, u: Seq<char>|
            #[trigger] key_shares(b, id, u) == key_shares(a, id, u),
        crate::batches::uniq_request_keys(a) ==> crate::batches::uniq_request_keys(b),
    decreases a.len(),
{
    if a.len() > 0 {
        assert(forall|i: int| 0 <= i < a.len() - 1 ==> a.drop_last()[i] == a[i]);
        assert(forall|i: int| 0 <= i < b.len() - 1 ==> b.drop_last()[i] == b[i]);
        lemma_request_columns_agree(a.drop_last(), b.drop_last());
        assert forall|id: u64| #[trigger] sum_request_shares(b, id) == sum_request_shares(
            a,
            id,
        ) by {
            assert(sum_request_shares(b.drop_last(), id) == sum_request_shares(
                a.drop_last(),
                id,
            ));
            assert(b.last().id == a.last().id && b.last().shares == a.last().shares);
        }
        assert forall|id: u64, u: Seq<char>| #[trigger] key_shares(b, id, u) == key_shares(
            a,
            id,
            u,
        ) by {
            assert(key_shares(b.drop_last(), id, u) == key_shares(a.drop_last(), id, u));
            assert(b.last().id == a.last().id && b.last().user@ == a.last().user@
                && b.last().shares == a.last().shares);
        }
    }
    if crate::batches::uniq_request_keys(a) {
        assert forall|i: int, j: int| 0 <= i < j < b.len() implies !(b[i].id == b[j].id
            && b[i].user@ == b[j].user@) by {
            assert(!(a[i].id == a[j].id && a[i].user@ == a[j].user@));
        }
    }
}

} // verus!
