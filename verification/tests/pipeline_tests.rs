use alliance_lst::hub::{
    bond, instantiate, queue_unbond, reconcile, submit_batch, withdraw_unbonded,
};
use alliance_lst::ledger::AllianceDelegations;
use alliance_lst::math::{compute_mint_amount, compute_unbond_amount};
use alliance_lst::state::HubState;
use alliance_lst::types::{
    Batch, Coin, Delegation, DelegationStrategy, HubError, UnbondRequest, Undelegation,
    EPOCH_START,
};

pub const STAKE_DENOM: &str = "factory/cosmos2contract/stake";
pub const MOCK_UTOKEN: &str = "utoken";

fn uniform_setup(validators: &[&str]) -> HubState {
    instantiate(
        "owner".to_string(),
        "operator".to_string(),
        MOCK_UTOKEN.to_string(),
        STAKE_DENOM.to_string(),
        259200,
        1814400,
        "fee".to_string(),
        10_000_000_000_000_000, // one percent
        Some(DelegationStrategy::Uniform),
        "proxy".to_string(),
        "whale".to_string(),
        "btc".to_string(),
        "whale_btc_pool".to_string(),
        &validators.iter().map(|v| v.to_string()).collect(),
        EPOCH_START,
    )
    .unwrap()
}

fn zero_delegations(validators: &[&str]) -> Vec<Delegation> {
    validators
        .iter()
        .map(|v| Delegation { validator: v.to_string(), amount: 0 })
        .collect()
}

fn whitelist(validators: &[&str]) -> Vec<String> {
    validators.iter().map(|v| v.to_string()).collect()
}

#[test]
fn uniform_bootstrap() {
    let state = uniform_setup(&["A", "B", "C"]);
    let funds = vec![Coin { denom: MOCK_UTOKEN.to_string(), amount: 1_000_000 }];
    let (state, plan) = bond(
        state,
        &funds,
        false,
        &zero_delegations(&["A", "B", "C"]),
        &whitelist(&["A", "B", "C"]),
    )
    .unwrap();
    assert_eq!(plan.delegation, Delegation { validator: "A".to_string(), amount: 1_000_000 });
    assert_eq!(plan.mint_shares, 1_000_000);
    assert_eq!(state.stake.total_supply, 1_000_000);
    assert_eq!(state.stake.total_utoken_bonded, 1_000_000);
    assert_eq!(
        state.delegations.delegations,
        vec![Delegation { validator: "A".to_string(), amount: 1_000_000 }]
    );
    assert_eq!(
        alliance_lst::hub::calc_current_exchange_rate(&state.stake),
        (1_000_000, 1_000_000)
    );
}

#[test]
fn uniform_bond_picks_smallest() {
    let state = uniform_setup(&["A", "B", "C"]);
    let current = vec![
        Delegation { validator: "A".to_string(), amount: 300 },
        Delegation { validator: "B".to_string(), amount: 100 },
        Delegation { validator: "C".to_string(), amount: 100 },
    ];
    let funds = vec![Coin { denom: MOCK_UTOKEN.to_string(), amount: 50 }];
    let (_, plan) =
        bond(state, &funds, false, &current, &whitelist(&["A", "B", "C"])).unwrap();
    // first wins on the tie between B and C
    assert_eq!(plan.delegation.validator, "B");
}

#[test]
fn first_bond_mints_one_to_one() {
    assert_eq!(compute_mint_amount(0, 12345, 0), 12345);
    assert_eq!(compute_mint_amount(0, 12345, 777), 12345);
    // with supply outstanding the rate applies, floored
    assert_eq!(compute_mint_amount(1_000_000, 100, 1_025_000), 97);
}

#[test]
fn unbond_amount_at_rate() {
    // the wrapper genuinely multiplies: neither argument comes back
    assert_eq!(compute_unbond_amount(1_000_000, 100_000, 1_025_000), 102_500);
    assert_eq!(compute_unbond_amount(0, 5, 7), 0);
}

#[test]
fn mint_then_unbond_is_identity_when_scaled() {
    // supply a whole multiple of bonded: identity on integer inputs
    let supply = 2_000_000u128;
    let bonded = 1_000_000u128;
    let minted = compute_mint_amount(supply, 123, bonded);
    assert_eq!(minted, 246);
    assert_eq!(compute_unbond_amount(supply, minted, bonded), 123);
}

/// Drive a state to supply one million, bonded 1_025_000 on one
/// validator, with a fresh pending batch.
fn pipeline_setup() -> HubState {
    let mut state = uniform_setup(&["alice"]);
    state.delegations = AllianceDelegations {
        delegations: vec![Delegation { validator: "alice".to_string(), amount: 1_025_000 }],
    };
    state.stake.total_utoken_bonded = 1_025_000;
    state.stake.total_supply = 1_000_000;
    state
}

#[test]
fn submit_and_reconcile_no_slash() {
    let state = pipeline_setup();
    let start = state.pending.est_unbond_start_time;

    let (state, submit_now) =
        queue_unbond(state, &"user_1".to_string(), 100_000, EPOCH_START);
    assert!(!submit_now);
    assert_eq!(state.pending.ustake_to_burn, 100_000);

    let (state, plan) =
        submit_batch(state, &"operator".to_string(), None, &whitelist(&["alice"]), start)
            .unwrap();
    assert_eq!(plan.burn_shares, 100_000);
    assert_eq!(
        plan.undelegations,
        vec![Undelegation { validator: "alice".to_string(), amount: 102_500 }]
    );
    assert_eq!(state.stake.total_supply, 900_000);
    assert_eq!(state.stake.total_utoken_bonded, 922_500);
    assert_eq!(state.previous_batches.len(), 1);
    let batch = state.previous_batches[0];
    assert_eq!(batch.id, 1);
    assert_eq!(batch.total_shares, 100_000);
    assert_eq!(batch.utoken_unclaimed, 102_500);
    assert!(!batch.reconciled);
    assert_eq!(state.pending.id, 2);
    assert_eq!(state.pending.ustake_to_burn, 0);

    // twenty-one days later the bank holds exactly the expected amount
    let after_unbonding = batch.est_unbond_end_time + 1;
    let (state, deducted) = reconcile(state, after_unbonding, 102_500);
    assert_eq!(deducted, 0);
    assert!(state.previous_batches[0].reconciled);
    assert_eq!(state.previous_batches[0].utoken_unclaimed, 102_500);
}

#[test]
fn submit_too_early_and_wrong_split() {
    let state = pipeline_setup();
    let start = state.pending.est_unbond_start_time;
    let (state, _) = queue_unbond(state, &"user_1".to_string(), 100_000, EPOCH_START);

    let err = submit_batch(
        state.clone(),
        &"operator".to_string(),
        None,
        &whitelist(&["alice"]),
        start - 1,
    )
    .unwrap_err();
    assert_eq!(err, HubError::SubmitBatchAfter(start));

    // an operator-supplied split off by one is rejected
    let off_by_one = vec![Undelegation { validator: "alice".to_string(), amount: 102_499 }];
    let err = submit_batch(
        state.clone(),
        &"operator".to_string(),
        Some(off_by_one),
        &whitelist(&["alice"]),
        start,
    )
    .unwrap_err();
    assert_eq!(err, HubError::SubmitBatchWrongSum);

    // only the operator may supply a split
    let exact = vec![Undelegation { validator: "alice".to_string(), amount: 102_500 }];
    let err = submit_batch(
        state.clone(),
        &"user_1".to_string(),
        Some(exact.clone()),
        &whitelist(&["alice"]),
        start,
    )
    .unwrap_err();
    assert_eq!(err, HubError::Unauthorized);

    let (state, plan) = submit_batch(
        state,
        &"operator".to_string(),
        Some(exact.clone()),
        &whitelist(&["alice"]),
        start,
    )
    .unwrap();
    assert_eq!(plan.undelegations, exact);
    assert_eq!(state.stake.total_utoken_bonded, 922_500);
}

#[test]
fn queue_unbond_flags_late_queues() {
    let state = pipeline_setup();
    let start = state.pending.est_unbond_start_time;
    let (state, submit_now) = queue_unbond(state, &"user_1".to_string(), 10, start + 1);
    assert!(submit_now);
    assert_eq!(state.pending.ustake_to_burn, 10);
    // queueing twice accumulates under the same request
    let (state, _) = queue_unbond(state, &"user_1".to_string(), 5, start + 1);
    assert_eq!(state.pending.ustake_to_burn, 15);
    assert_eq!(state.unbond_requests.len(), 1);
    assert_eq!(state.unbond_requests[0].shares, 15);
}

/// A reconciled, matured batch of one hundred shares holding 102_500
/// tokens, owed sixty to user A and forty to user B.
fn withdraw_setup(now: u64) -> HubState {
    let mut state = uniform_setup(&["alice"]);
    state.pending.id = 2;
    state.previous_batches = vec![Batch {
        id: 1,
        total_shares: 100,
        utoken_unclaimed: 102_500,
        est_unbond_end_time: now - 1,
        reconciled: true,
    }];
    state.unbond_requests = vec![
        UnbondRequest { id: 1, user: "A".to_string(), shares: 60 },
        UnbondRequest { id: 1, user: "B".to_string(), shares: 40 },
    ];
    state
}

#[test]
fn withdraw_partial_then_drain() {
    let now = EPOCH_START + 2_000_000;
    let state = withdraw_setup(now);

    let (state, plan) = withdraw_unbonded(state, &"A".to_string(), now).unwrap();
    assert_eq!(plan.refund, 61_500);
    assert_eq!(plan.batch_ids, vec![1]);
    assert_eq!(state.previous_batches.len(), 1);
    assert_eq!(state.previous_batches[0].total_shares, 40);
    assert_eq!(state.previous_batches[0].utoken_unclaimed, 41_000);
    assert_eq!(state.unbond_requests.len(), 1);
    assert_eq!(state.unbond_requests[0].user, "B");

    let (state, plan) = withdraw_unbonded(state, &"B".to_string(), now).unwrap();
    assert_eq!(plan.refund, 41_000);
    // the batch is drained and deleted
    assert_eq!(state.previous_batches.len(), 0);
    assert_eq!(state.unbond_requests.len(), 0);

    let err = withdraw_unbonded(state, &"A".to_string(), now).unwrap_err();
    assert!(matches!(err, HubError::CantBeZero(m) if m == "withdrawable amount"));
}

#[test]
fn withdraw_waits_for_reconciliation() {
    let now = EPOCH_START + 2_000_000;
    let mut state = withdraw_setup(now);
    state.previous_batches[0].reconciled = false;
    let err = withdraw_unbonded(state, &"A".to_string(), now).unwrap_err();
    assert!(matches!(err, HubError::CantBeZero(m) if m == "withdrawable amount"));
}

#[test]
fn reconcile_with_deficit_splits_proportionally() {
    let now = EPOCH_START + 3_000_000;
    let mut state = uniform_setup(&["alice"]);
    state.pending.id = 3;
    state.previous_batches = vec![
        Batch {
            id: 1,
            total_shares: 0,
            utoken_unclaimed: 100,
            est_unbond_end_time: now - 1,
            reconciled: false,
        },
        Batch {
            id: 2,
            total_shares: 0,
            utoken_unclaimed: 200,
            est_unbond_end_time: now - 1,
            reconciled: false,
        },
    ];

    // the bank is short by thirty: ten and twenty are deducted
    let (state, deducted) = reconcile(state, now, 270);
    assert_eq!(deducted, 30);
    assert_eq!(state.previous_batches[0].utoken_unclaimed, 90);
    assert_eq!(state.previous_batches[1].utoken_unclaimed, 180);
    assert!(state.previous_batches[0].reconciled);
    assert!(state.previous_batches[1].reconciled);
}

#[test]
fn undelegation_split_covers_the_amount_exactly() {
    // current 600 / 400, uniform target over the reduced total of 900
    // is 450 each: the first validator's surplus of 150 covers the
    // whole unbond of 100
    let current = vec![
        Delegation { validator: "A".to_string(), amount: 600 },
        Delegation { validator: "B".to_string(), amount: 400 },
    ];
    let unds = alliance_lst::math::compute_undelegations(
        &DelegationStrategy::Uniform,
        &None,
        100,
        &current,
        &whitelist(&["A", "B"]),
    );
    assert_eq!(unds, vec![Undelegation { validator: "A".to_string(), amount: 100 }]);

    // an unbond that exhausts the first surplus spills to the next
    let unds = alliance_lst::math::compute_undelegations(
        &DelegationStrategy::Uniform,
        &None,
        300,
        &current,
        &whitelist(&["A", "B"]),
    );
    let total: u128 = unds.iter().map(|u| u.amount).sum();
    assert_eq!(total, 300);
    assert_eq!(unds[0].validator, "A");
}

#[test]
fn targets_follow_tuned_shares() {
    let goal = alliance_lst::types::DelegationGoal {
        tune_time: EPOCH_START,
        tune_period: 0,
        shares: vec![
            ("alice".to_string(), 6 * alliance_lst::types::SHARE_SCALE / 10),
            ("bob".to_string(), 4 * alliance_lst::types::SHARE_SCALE / 10),
        ],
    };
    let wanted = alliance_lst::math::get_utoken_per_validator(
        &DelegationStrategy::Gauges,
        &Some(goal),
        1_012_043,
        &whitelist(&["alice", "bob", "charlie"]),
    );
    assert_eq!(
        wanted,
        vec![
            Delegation { validator: "alice".to_string(), amount: 607_225 },
            Delegation { validator: "bob".to_string(), amount: 404_817 },
        ]
    );
}

#[test]
fn rebalance_under_defined_strategy() {
    // ledger 700k / 300k against a sixty-forty target of one million:
    // one move of 100_000 from alice to bob converges
    let mut state = uniform_setup(&["alice", "bob"]);
    state.delegation_strategy = DelegationStrategy::Defined {
        shares_bps: vec![("alice".to_string(), 6000), ("bob".to_string(), 4000)],
    };
    state.delegations = AllianceDelegations {
        delegations: vec![
            Delegation { validator: "alice".to_string(), amount: 700_000 },
            Delegation { validator: "bob".to_string(), amount: 300_000 },
        ],
    };
    state.stake.total_utoken_bonded = 1_000_000;
    state.stake.total_supply = 1_000_000;

    let (state, moves) = alliance_lst::hub::rebalance(
        state,
        &"owner".to_string(),
        None,
        &whitelist(&["alice", "bob"]),
    )
    .unwrap();
    assert_eq!(
        moves,
        vec![alliance_lst::types::Redelegation {
            src: "alice".to_string(),
            dst: "bob".to_string(),
            amount: 100_000,
        }]
    );
    assert_eq!(
        state.delegations.delegations,
        vec![
            Delegation { validator: "alice".to_string(), amount: 600_000 },
            Delegation { validator: "bob".to_string(), amount: 400_000 },
        ]
    );
    assert_eq!(state.stake.total_utoken_bonded, 1_000_000);
}

#[test]
fn rebalance_respects_threshold() {
    let mut state = uniform_setup(&["alice", "bob"]);
    state.delegations = AllianceDelegations {
        delegations: vec![
            Delegation { validator: "alice".to_string(), amount: 600 },
            Delegation { validator: "bob".to_string(), amount: 400 },
        ],
    };
    state.stake.total_utoken_bonded = 1000;
    state.stake.total_supply = 1000;

    // the uniform target is 500 each, but the 100-token move falls
    // under the threshold
    let (state, moves) = alliance_lst::hub::rebalance(
        state,
        &"owner".to_string(),
        Some(1000),
        &whitelist(&["alice", "bob"]),
    )
    .unwrap();
    assert_eq!(moves, Vec::<alliance_lst::types::Redelegation>::new());
    assert_eq!(state.delegations.delegations[0].amount, 600);
}

#[test]
fn bond_then_unbond_returns_deposit_at_par() {
    // supply equals bonded, so the exchange rate is one
    let mut state = uniform_setup(&["alice"]);
    state.delegations = AllianceDelegations {
        delegations: vec![Delegation { validator: "alice".to_string(), amount: 1_000_000 }],
    };
    state.stake.total_utoken_bonded = 1_000_000;
    state.stake.total_supply = 1_000_000;

    let deposit = 50_000u128;
    let funds = vec![Coin { denom: MOCK_UTOKEN.to_string(), amount: deposit }];
    let current = state.delegations.delegations.clone();
    let (state, plan) = bond(state, &funds, false, &current, &whitelist(&["alice"])).unwrap();
    assert_eq!(plan.mint_shares, deposit);

    let (state, _) = queue_unbond(state, &"user_1".to_string(), deposit, EPOCH_START);
    let start = state.pending.est_unbond_start_time;
    let (state, plan) =
        submit_batch(state, &"operator".to_string(), None, &whitelist(&["alice"]), start)
            .unwrap();
    assert_eq!(plan.burn_shares, deposit);
    let owed = state.previous_batches[0].utoken_unclaimed;
    assert_eq!(owed, deposit);

    let matured = state.previous_batches[0].est_unbond_end_time + 1;
    let (state, deducted) = reconcile(state, matured, owed);
    assert_eq!(deducted, 0);

    let (_, plan) = withdraw_unbonded(state, &"user_1".to_string(), matured).unwrap();
    // the exact deposit comes back
    assert_eq!(plan.refund, deposit);
}
