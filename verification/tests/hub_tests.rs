use alliance_lst::hub::{
    accept_ownership, bond, calc_current_exchange_rate, callback_received_coins,
    drop_ownership_proposal, harvest, instantiate, reinvest, transfer_ownership, tune_delegations,
    update_config, validate_received_funds,
};
use alliance_lst::ledger::AllianceDelegations;
use alliance_lst::state::HubState;
use alliance_lst::types::{
    Coin, Delegation, DelegationStrategy, HubError, StageConfig, EPOCH_START, SHARE_SCALE, WEEK,
};

pub const STAKE_DENOM: &str = "factory/cosmos2contract/stake";
pub const MOCK_UTOKEN: &str = "utoken";

fn validators() -> Vec<String> {
    vec!["alice".to_string(), "bob".to_string(), "charlie".to_string()]
}

fn defined_strategy() -> DelegationStrategy {
    DelegationStrategy::Defined {
        shares_bps: vec![("alice".to_string(), 6000), ("bob".to_string(), 4000)],
    }
}

fn setup_test() -> HubState {
    let state = instantiate(
        "owner".to_string(),
        "operator".to_string(),
        MOCK_UTOKEN.to_string(),
        STAKE_DENOM.to_string(),
        259200,  // 3 * 24 * 60 * 60 = 3 days
        1814400, // 21 * 24 * 60 * 60 = 21 days
        "fee".to_string(),
        SHARE_SCALE / 100, // one percent
        Some(defined_strategy()),
        "proxy".to_string(),
        "whale".to_string(),
        "btc".to_string(),
        "whale_btc_pool".to_string(),
        &validators(),
        EPOCH_START,
    )
    .unwrap();

    let state = tune_delegations(
        state,
        &"owner".to_string(),
        EPOCH_START + WEEK,
        &validators(),
        &Vec::new(),
    )
    .unwrap();

    let goal = state.delegation_goal.clone().unwrap();
    assert_eq!(goal.tune_time, EPOCH_START + WEEK);
    assert_eq!(goal.tune_period, 1);
    assert_eq!(
        goal.shares,
        vec![
            ("alice".to_string(), 6 * SHARE_SCALE / 10),
            ("bob".to_string(), 4 * SHARE_SCALE / 10)
        ]
    );
    state
}

#[test]
fn proper_instantiation() {
    let state = setup_test();

    assert_eq!(state.owner, "owner");
    assert_eq!(state.new_owner, None);
    assert_eq!(state.operator, "operator");
    assert_eq!(state.stake.utoken, MOCK_UTOKEN);
    assert_eq!(state.stake.denom, STAKE_DENOM);
    assert_eq!(state.epoch_period, 259200);
    assert_eq!(state.unbond_period, 1814400);
    assert_eq!(state.fee_config.protocol_fee_contract, "fee");
    assert_eq!(state.fee_config.protocol_reward_fee, SHARE_SCALE / 100);
    assert_eq!(state.delegation_strategy, defined_strategy());
    assert!(!state.allow_donations);
    assert_eq!(state.validator_proxy, "proxy");

    assert_eq!(state.stake.total_supply, 0);
    assert_eq!(state.stake.total_utoken_bonded, 0);
    assert_eq!(state.unlocked_coins, Vec::<Coin>::new());
    assert_eq!(state.pending.id, 1);
    assert_eq!(state.pending.ustake_to_burn, 0);
    assert_eq!(state.pending.est_unbond_start_time, EPOCH_START + 259200);
    assert_eq!(calc_current_exchange_rate(&state.stake), (1, 1));
}

#[test]
fn instantiation_rejects_bad_inputs() {
    let too_high = instantiate(
        "owner".to_string(),
        "operator".to_string(),
        MOCK_UTOKEN.to_string(),
        STAKE_DENOM.to_string(),
        259200,
        1814400,
        "fee".to_string(),
        SHARE_SCALE / 5, // twenty percent, over the cap
        None,
        "proxy".to_string(),
        "whale".to_string(),
        "btc".to_string(),
        "whale_btc_pool".to_string(),
        &validators(),
        EPOCH_START,
    );
    assert_eq!(too_high.unwrap_err(), HubError::ProtocolRewardFeeTooHigh);

    let zero_epoch = instantiate(
        "owner".to_string(),
        "operator".to_string(),
        MOCK_UTOKEN.to_string(),
        STAKE_DENOM.to_string(),
        0,
        1814400,
        "fee".to_string(),
        SHARE_SCALE / 100,
        None,
        "proxy".to_string(),
        "whale".to_string(),
        "btc".to_string(),
        "whale_btc_pool".to_string(),
        &validators(),
        EPOCH_START,
    );
    assert!(matches!(zero_epoch.unwrap_err(), HubError::CantBeZero(m) if m == "epoch_period"));

    let zero_unbond = instantiate(
        "owner".to_string(),
        "operator".to_string(),
        MOCK_UTOKEN.to_string(),
        STAKE_DENOM.to_string(),
        259200,
        0,
        "fee".to_string(),
        SHARE_SCALE / 100,
        None,
        "proxy".to_string(),
        "whale".to_string(),
        "btc".to_string(),
        "whale_btc_pool".to_string(),
        &validators(),
        EPOCH_START,
    );
    assert!(matches!(zero_unbond.unwrap_err(), HubError::CantBeZero(m) if m == "unbond_period"));
}

fn noop_update(state: HubState, strategy: Option<DelegationStrategy>) -> Result<HubState, HubError> {
    update_config(
        state,
        &"owner".to_string(),
        None,
        None,
        None,
        None,
        None,
        None,
        strategy,
        None,
        None,
        None,
        None,
        None,
        None,
        None,
        &validators(),
    )
}

#[test]
fn validate_update() {
    let state = setup_test();

    let err = noop_update(
        state.clone(),
        Some(DelegationStrategy::Defined { shares_bps: vec![("abc".to_string(), 1000)] }),
    )
    .unwrap_err();
    assert!(matches!(err, HubError::NotWhitelisted(v) if v == "abc"));

    let err = noop_update(
        state.clone(),
        Some(DelegationStrategy::Defined {
            shares_bps: vec![("alice".to_string(), 1000), ("alice".to_string(), 1000)],
        }),
    )
    .unwrap_err();
    assert!(matches!(err, HubError::Duplicated(v) if v == "alice"));

    let err = noop_update(
        state.clone(),
        Some(DelegationStrategy::Defined { shares_bps: vec![("alice".to_string(), 1000)] }),
    )
    .unwrap_err();
    assert_eq!(err, HubError::SharesWrongSum);

    noop_update(
        state,
        Some(DelegationStrategy::Defined {
            shares_bps: vec![("alice".to_string(), 1000), ("charlie".to_string(), 9000)],
        }),
    )
    .unwrap();
}

#[test]
fn update_config_checks_owner_and_fee() {
    let state = setup_test();
    let err = update_config(
        state.clone(),
        &"stranger".to_string(),
        None,
        None,
        None,
        None,
        None,
        None,
        None,
        None,
        None,
        None,
        None,
        None,
        None,
        None,
        &validators(),
    )
    .unwrap_err();
    assert_eq!(err, HubError::Unauthorized);

    let err = update_config(
        state,
        &"owner".to_string(),
        None,
        Some(SHARE_SCALE / 5),
        None,
        None,
        None,
        None,
        None,
        None,
        None,
        None,
        None,
        None,
        None,
        None,
        &validators(),
    )
    .unwrap_err();
    assert_eq!(err, HubError::ProtocolRewardFeeTooHigh);
}

#[test]
fn bonding() {
    let mut state = setup_test();

    // Bond when no delegation has been made: the full deposit goes to
    // the first whitelisted validator.
    let funds = vec![Coin { denom: MOCK_UTOKEN.to_string(), amount: 1000000 }];
    let (next, plan) = bond(state, &funds, false, &Vec::new(), &validators()).unwrap();
    state = next;
    assert_eq!(plan.delegation, Delegation { validator: "alice".to_string(), amount: 1000000 });
    assert_eq!(plan.mint_shares, 1000000);
    assert_eq!(state.stake.total_supply, 1000000);
    assert_eq!(state.stake.total_utoken_bonded, 1000000);
    assert_eq!(
        state.delegations.delegations,
        vec![Delegation { validator: "alice".to_string(), amount: 1000000 }]
    );

    // Reshape the ledger to a sixty-forty split of the same total.
    state.delegations = AllianceDelegations {
        delegations: vec![
            Delegation { validator: "alice".to_string(), amount: 600000 },
            Delegation { validator: "bob".to_string(), amount: 400000 },
        ],
    };

    // Second bond: targets over 1_012_043 are alice 607_225 and bob
    // 404_817, so alice's shortfall of 7_225 beats bob's 4_817.
    let funds = vec![Coin { denom: MOCK_UTOKEN.to_string(), amount: 12043 }];
    let current = state.delegations.delegations.clone();
    let (next, plan) = bond(state, &funds, false, &current, &validators()).unwrap();
    state = next;
    assert_eq!(plan.delegation, Delegation { validator: "alice".to_string(), amount: 12043 });
    assert_eq!(plan.mint_shares, 12043);
    assert_eq!(state.stake.total_supply, 1012043);
    assert_eq!(state.stake.total_utoken_bonded, 1012043);
    assert_eq!(
        state.delegations.delegations,
        vec![
            Delegation { validator: "alice".to_string(), amount: 612043 },
            Delegation { validator: "bob".to_string(), amount: 400000 },
        ]
    );

    // Unauthorized rebalance.
    let err = alliance_lst::hub::rebalance(state.clone(), &"alice".to_string(), None, &validators())
        .unwrap_err();
    assert_eq!(err, HubError::Unauthorized);

    // Authorized rebalance: alice overshoots her 607_225 target by
    // 4_818 and bob falls 4_817 short, so one move covers the deficit.
    let (state, moves) =
        alliance_lst::hub::rebalance(state, &"owner".to_string(), None, &validators()).unwrap();
    assert_eq!(
        moves,
        vec![alliance_lst::types::Redelegation {
            src: "alice".to_string(),
            dst: "bob".to_string(),
            amount: 4817,
        }]
    );
    assert_eq!(
        state.delegations.delegations,
        vec![
            Delegation { validator: "alice".to_string(), amount: 607226 },
            Delegation { validator: "bob".to_string(), amount: 404817 },
        ]
    );
}

#[test]
fn fund_validation() {
    let denom = MOCK_UTOKEN.to_string();
    let err = validate_received_funds(&Vec::new(), &denom).unwrap_err();
    assert_eq!(err, HubError::ExpectingSingleCoin);

    let two = vec![
        Coin { denom: denom.clone(), amount: 1 },
        Coin { denom: "other".to_string(), amount: 1 },
    ];
    assert_eq!(validate_received_funds(&two, &denom).unwrap_err(), HubError::ExpectingSingleCoin);

    let wrong = vec![Coin { denom: "other".to_string(), amount: 5 }];
    assert!(matches!(
        validate_received_funds(&wrong, &denom).unwrap_err(),
        HubError::WrongDenom(d) if d == "other"
    ));

    let zero = vec![Coin { denom: denom.clone(), amount: 0 }];
    assert!(matches!(
        validate_received_funds(&zero, &denom).unwrap_err(),
        HubError::CantBeZero(m) if m == "deposit"
    ));

    let good = vec![Coin { denom: denom.clone(), amount: 7 }];
    assert_eq!(validate_received_funds(&good, &denom).unwrap(), 7);
}

#[test]
fn donations_gated_and_rate_rises() {
    let mut state = setup_test();
    let funds = vec![Coin { denom: MOCK_UTOKEN.to_string(), amount: 1000000 }];
    let (next, _) = bond(state, &funds, false, &Vec::new(), &validators()).unwrap();
    state = next;

    let gift = vec![Coin { denom: MOCK_UTOKEN.to_string(), amount: 50000 }];
    let current = state.delegations.delegations.clone();
    let err = bond(state.clone(), &gift, true, &current, &validators()).unwrap_err();
    assert_eq!(err, HubError::DonationsDisabled);

    state.allow_donations = true;
    let (after, plan) = bond(state, &gift, true, &current, &validators()).unwrap();
    assert_eq!(plan.mint_shares, 0);
    assert_eq!(after.stake.total_supply, 1000000);
    assert_eq!(after.stake.total_utoken_bonded, 1050000);
    // exchange rate strictly rises: 1_050_000 / 1_000_000 > 1_000_000 / 1_000_000
    let (num, den) = calc_current_exchange_rate(&after.stake);
    assert_eq!((num, den), (1050000, 1000000));
    assert!(num * 1000000 > 1000000 * den);
}

#[test]
fn update_config_keeps_and_sets_presets() {
    let state = setup_test();
    let stages = vec![vec![
        StageConfig { denom: "reward".to_string(), has_belief_price: false },
    ]];
    let state = update_config(
        state,
        &"owner".to_string(),
        None,
        None,
        None,
        Some(stages.clone()),
        Some(vec!["lp".to_string()]),
        None,
        None,
        None,
        None,
        None,
        None,
        None,
        None,
        None,
        &validators(),
    )
    .unwrap();
    assert_eq!(state.stages_preset, stages);
    assert_eq!(state.withdrawals_preset, vec!["lp".to_string()]);

    // an unrelated update leaves both presets alone
    let state = update_config(
        state,
        &"owner".to_string(),
        None,
        None,
        Some("operator_2".to_string()),
        None,
        None,
        None,
        None,
        None,
        None,
        None,
        None,
        None,
        None,
        None,
        &validators(),
    )
    .unwrap();
    assert_eq!(state.stages_preset, stages);
    assert_eq!(state.withdrawals_preset, vec!["lp".to_string()]);

    // a preset that swaps away the underlying token is rejected
    let bad = vec![vec![
        StageConfig { denom: MOCK_UTOKEN.to_string(), has_belief_price: false },
    ]];
    let err = update_config(
        state.clone(),
        &"owner".to_string(),
        None,
        None,
        None,
        Some(bad),
        None,
        None,
        None,
        None,
        None,
        None,
        None,
        None,
        None,
        None,
        &validators(),
    )
    .unwrap_err();
    assert!(matches!(err, HubError::SwapFromNotAllowed(d) if d == MOCK_UTOKEN));

    // a preset that fixes a belief price is rejected
    let priced = vec![vec![
        StageConfig { denom: "reward".to_string(), has_belief_price: true },
    ]];
    let err = update_config(
        state,
        &"owner".to_string(),
        None,
        None,
        None,
        Some(priced),
        None,
        None,
        None,
        None,
        None,
        None,
        None,
        None,
        None,
        None,
        &validators(),
    )
    .unwrap_err();
    assert_eq!(err, HubError::BeliefPriceNotAllowed);
}

#[test]
fn donation_accepted_at_zero_supply() {
    let mut state = setup_test();
    state.allow_donations = true;
    let gift = vec![Coin { denom: MOCK_UTOKEN.to_string(), amount: 777 }];
    let (after, plan) = bond(state, &gift, true, &Vec::new(), &validators()).unwrap();
    // no shares minted; the bonded total simply grows
    assert_eq!(plan.mint_shares, 0);
    assert_eq!(after.stake.total_supply, 0);
    assert_eq!(after.stake.total_utoken_bonded, 777);
    assert_eq!(
        after.delegations.delegations,
        vec![Delegation { validator: "alice".to_string(), amount: 777 }]
    );
}

#[test]
fn ownership_two_step() {
    let state = setup_test();
    let err = transfer_ownership(state.clone(), &"mallory".to_string(), "mallory".to_string())
        .unwrap_err();
    assert_eq!(err, HubError::Unauthorized);

    let state =
        transfer_ownership(state, &"owner".to_string(), "heir".to_string()).unwrap();
    assert_eq!(state.new_owner, Some("heir".to_string()));

    let err = accept_ownership(state.clone(), &"mallory".to_string()).unwrap_err();
    assert_eq!(err, HubError::UnauthorizedSenderNotNewOwner);

    let dropped = drop_ownership_proposal(state.clone(), &"owner".to_string()).unwrap();
    assert_eq!(dropped.new_owner, None);
    let err = accept_ownership(dropped, &"heir".to_string()).unwrap_err();
    assert_eq!(err, HubError::UnauthorizedSenderNotNewOwner);

    let state = accept_ownership(state, &"heir".to_string()).unwrap();
    assert_eq!(state.owner, "heir");
    assert_eq!(state.new_owner, None);
}

#[test]
fn slashing_guarded_by_five_percent() {
    let mut state = setup_test();
    state.delegations = AllianceDelegations {
        delegations: vec![
            Delegation { validator: "alice".to_string(), amount: 600000 },
            Delegation { validator: "bob".to_string(), amount: 400000 },
        ],
    };
    state.stake.total_utoken_bonded = 1000000;
    state.stake.total_supply = 1000000;

    // a six percent drop is rejected
    let reported = vec![
        Delegation { validator: "alice".to_string(), amount: 540000 },
        Delegation { validator: "bob".to_string(), amount: 400000 },
    ];
    let err = alliance_lst::hub::check_slashing(state.clone(), &"operator".to_string(), reported, 1000000)
        .unwrap_err();
    assert_eq!(err, HubError::StateChangedBigSlash);

    // a four percent drop is accepted
    let reported = vec![
        Delegation { validator: "alice".to_string(), amount: 560000 },
        Delegation { validator: "bob".to_string(), amount: 400000 },
    ];
    let next = alliance_lst::hub::check_slashing(state.clone(), &"operator".to_string(), reported, 1000000)
        .unwrap();
    assert_eq!(next.stake.total_utoken_bonded, 960000);
    assert_eq!(next.delegations.delegations[0].amount, 560000);

    // guards: wrong total, wrong count, wrong caller
    let reported = vec![Delegation { validator: "alice".to_string(), amount: 960000 }];
    let err = alliance_lst::hub::check_slashing(state.clone(), &"operator".to_string(), reported.clone(), 999999)
        .unwrap_err();
    assert_eq!(err, HubError::StateChangedBonded);
    let err = alliance_lst::hub::check_slashing(state.clone(), &"operator".to_string(), reported.clone(), 1000000)
        .unwrap_err();
    assert_eq!(err, HubError::StateChangedDelegations);
    let err = alliance_lst::hub::check_slashing(state, &"stranger".to_string(), reported, 1000000)
        .unwrap_err();
    assert_eq!(err, HubError::Unauthorized);
}

#[test]
fn harvest_plans_withdrawals() {
    let mut state = setup_test();
    state.delegations = AllianceDelegations {
        delegations: vec![
            Delegation { validator: "alice".to_string(), amount: 1 },
            Delegation { validator: "bob".to_string(), amount: 2 },
        ],
    };
    state.stake.total_utoken_bonded = 3;

    let err = harvest(&state, None, &Some(vec!["x".to_string()]), &None).unwrap_err();
    assert_eq!(err, HubError::NotSupported);
    let err = harvest(&state, None, &None, &Some(vec![])).unwrap_err();
    assert_eq!(err, HubError::NotSupported);

    let vs = harvest(&state, None, &None, &None).unwrap();
    assert_eq!(vs, vec!["alice".to_string(), "bob".to_string()]);
    let vs = harvest(&state, Some(vec!["charlie".to_string()]), &None, &None).unwrap();
    assert_eq!(vs, vec!["charlie".to_string()]);
}

#[test]
fn received_coins_are_collected() {
    let state = setup_test();
    let state = callback_received_coins(state, 1200, 1000, 30, 30);
    assert_eq!(
        state.unlocked_coins,
        vec![Coin { denom: MOCK_UTOKEN.to_string(), amount: 200 }]
    );
    // a second snapshot adds to the same entry and records stake gains
    let state = callback_received_coins(state, 50, 20, 45, 40);
    assert_eq!(
        state.unlocked_coins,
        vec![
            Coin { denom: MOCK_UTOKEN.to_string(), amount: 230 },
            Coin { denom: STAKE_DENOM.to_string(), amount: 5 },
        ]
    );
}

#[test]
fn reinvest_bonds_and_burns_with_fee() {
    let mut state = setup_test();
    state.delegations = AllianceDelegations {
        delegations: vec![
            Delegation { validator: "alice".to_string(), amount: 600000 },
            Delegation { validator: "bob".to_string(), amount: 400000 },
        ],
    };
    state.stake.total_utoken_bonded = 1000000;
    state.stake.total_supply = 1000000;

    let err = alliance_lst::hub::reinvest(
        state.clone(),
        &state.delegations.delegations.clone(),
        &validators(),
        false,
        EPOCH_START + 2 * WEEK,
    )
    .unwrap_err();
    assert_eq!(err, HubError::NoTokensAvailable);

    state.unlocked_coins = vec![
        Coin { denom: MOCK_UTOKEN.to_string(), amount: 10000 },
        Coin { denom: STAKE_DENOM.to_string(), amount: 3000 },
        Coin { denom: "reward".to_string(), amount: 77 },
    ];
    let current = state.delegations.delegations.clone();
    let (next, plan) = alliance_lst::hub::reinvest(
        state,
        &current,
        &validators(),
        false,
        EPOCH_START + 2 * WEEK,
    )
    .unwrap();

    // one percent fee: 100 of the utoken, 30 of the stake token
    assert_eq!(
        plan.fees,
        vec![
            Coin { denom: MOCK_UTOKEN.to_string(), amount: 100 },
            Coin { denom: STAKE_DENOM.to_string(), amount: 30 },
        ]
    );
    assert_eq!(plan.burn_shares, 2970);
    let delegation = plan.delegation.unwrap();
    assert_eq!(delegation.amount, 9900);
    assert_eq!(next.stake.total_utoken_bonded, 1009900);
    assert_eq!(next.stake.total_supply, 997030);
    assert_eq!(next.unlocked_coins, vec![Coin { denom: "reward".to_string(), amount: 77 }]);
    assert_eq!(next.exchange_history.len(), 1);
    assert_eq!(next.exchange_history[0].time, EPOCH_START + 2 * WEEK);
    assert_eq!(next.exchange_history[0].total_utoken_bonded, 1009900);
    assert_eq!(next.exchange_history[0].total_supply, 997030);
}

#[test]
fn tune_gauges_validates_shares() {
    let mut state = setup_test();
    state.delegation_strategy = DelegationStrategy::Gauges;

    // an empty gauge result removes the stored goal and succeeds
    let cleared = tune_delegations(
        state.clone(),
        &"owner".to_string(),
        EPOCH_START + WEEK,
        &validators(),
        &Vec::new(),
    )
    .unwrap();
    assert_eq!(cleared.delegation_goal, None);

    let bad_sum = vec![("alice".to_string(), SHARE_SCALE / 2)];
    let err = tune_delegations(
        state.clone(),
        &"owner".to_string(),
        EPOCH_START + WEEK,
        &validators(),
        &bad_sum,
    )
    .unwrap_err();
    assert_eq!(err, HubError::GaugesWrongSum);

    let good = vec![
        ("alice".to_string(), SHARE_SCALE / 2),
        ("charlie".to_string(), SHARE_SCALE / 2),
    ];
    let next = tune_delegations(
        state,
        &"owner".to_string(),
        EPOCH_START + WEEK,
        &validators(),
        &good,
    )
    .unwrap();
    assert_eq!(next.delegation_goal.unwrap().shares, good);
}
