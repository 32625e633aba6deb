//! Pure share mathematics: mint and redeem amounts, per-validator
//! targets, undelegation planning, rebalance planning, and
//! reconciliation loss allocation.
//!
//! All divisions floor, so the hub keeps dust and never owes dust.

use vstd::prelude::*;
use vstd::arithmetic::div_mod::*;
use vstd::arithmetic::mul::*;
use crate::arith::{lemma_div_add_le, lemma_div_mul_le, lemma_ratio_le_left, mul_ratio};
use crate::ledger::{
    amount_of, find_validator, has_validator, lemma_amount_of_absent, lemma_amount_of_index,
    lemma_amount_of_nonneg, lemma_moved_out_nonneg, lemma_moved_out_push, lemma_sum_nonneg,
    lemma_sum_push, moved_out, sum_amounts, sum_undelegations, uniq_validators,
};
use crate::types::{
    Batch, Delegation, DelegationGoal, DelegationStrategy, HubError, Redelegation, Undelegation,
    BPS_TOTAL, SHARE_SCALE,
};

verus! {

/// Shares minted for a deposit: one to one while the pool is empty,
/// else `deposit * supply / bonded`, floored, which under-mints and so
/// protects existing holders.
pub open spec fn spec_mint_amount(supply: u128, deposit: u128, bonded: u128) -> int {
    if supply == 0 || bonded == 0 {
        deposit as int
    } else {
        (deposit as int) * (supply as int) / (bonded as int)
    }
}

/// Underlying paid for burning shares: `bonded * shares / supply`,
/// floored, which under-pays; zero while no shares exist.
pub open spec fn spec_unbond_amount(supply: u128, shares: u128, bonded: u128) -> int {
    if supply == 0 {
        0
    } else {
        (bonded as int) * (shares as int) / (supply as int)
    }
}

pub fn compute_mint_amount(ustake_supply: u128, utoken_to_bond: u128, utoken_bonded: u128) -> (r:
    u128)
    requires
        spec_mint_amount(ustake_supply, utoken_to_bond, utoken_bonded) <= u128::MAX,
    ensures
        r == spec_mint_amount(ustake_supply, utoken_to_bond, utoken_bonded),
{
    if ustake_supply == 0 || utoken_bonded == 0 {
        utoken_to_bond
    } else {
        mul_ratio(utoken_to_bond, ustake_supply, utoken_bonded)
    }
}

pub fn compute_unbond_amount(ustake_supply: u128, ustake_to_burn: u128, utoken_bonded: u128) -> (r:
    u128)
    requires
        spec_unbond_amount(ustake_supply, ustake_to_burn, utoken_bonded) <= u128::MAX,
    ensures
        r == spec_unbond_amount(ustake_supply, ustake_to_burn, utoken_bonded),
{
    if ustake_supply == 0 {
        0
    } else {
        mul_ratio(utoken_bonded, ustake_to_burn, ustake_supply)
    }
}

/// Total over a goal's share column.
pub open spec fn sum_shares(s: Seq<(String, u128)>) -> int
    decreases s.len(),
{
    if s.len() == 0 {
        0
    } else {
        sum_shares(s.drop_last()) + s.last().1
    }
}

/// Total over a defined strategy's basis-point column.
pub open spec fn sum_bps(s: Seq<(String, u64)>) -> int
    decreases s.len(),
{
    if s.len() == 0 {
        0
    } else {
        sum_bps(s.drop_last()) + s.last().1
    }
}

/// Pairwise distinct goal validators.
pub open spec fn uniq_share_keys(s: Seq<(String, u128)>) -> bool {
    forall|i: int, j: int| 0 <= i < j < s.len() ==> s[i].0@ != s[j].0@
}

/// Pairwise distinct defined-strategy validators.
pub open spec fn uniq_bps_keys(s: Seq<(String, u64)>) -> bool {
    forall|i: int, j: int| 0 <= i < j < s.len() ==> s[i].0@ != s[j].0@
}

/// Pairwise distinct validator names.
pub open spec fn uniq_strings(s: Seq<String>) -> bool {
    forall|i: int, j: int| 0 <= i < j < s.len() ==> s[i]@ != s[j]@
}

/// Whether a validator name stands in the whitelist.
pub open spec fn spec_whitelisted(validators: Seq<String>, v: Seq<char>) -> bool {
    exists|i: int| 0 <= i < validators.len() && validators[i]@ == v
}

/// What validation accepts of a defined split: whitelisted, pairwise
/// distinct validators whose basis points sum to the whole.
pub open spec fn spec_defined_valid(shares_bps: Seq<(String, u64)>, validators: Seq<String>) -> bool {
    uniq_bps_keys(shares_bps) && sum_bps(shares_bps) == BPS_TOTAL && (forall|i: int|
        0 <= i < shares_bps.len() ==> spec_whitelisted(validators, (#[trigger] shares_bps[i]).0@))
}

/// What strategy validation accepts; only a defined strategy carries
/// anything to check.
pub open spec fn spec_strategy_valid(s: DelegationStrategy, validators: Seq<String>) -> bool {
    match s {
        DelegationStrategy::Defined { shares_bps } => spec_defined_valid(shares_bps@, validators),
        _ => true,
    }
}

/// A usable tuned goal: distinct validators whose shares do not exceed
/// the whole.
pub open spec fn goal_wf(g: DelegationGoal) -> bool {
    uniq_share_keys(g.shares@) && sum_shares(g.shares@) <= SHARE_SCALE
}

/// A usable defined strategy: distinct validators whose basis points do
/// not exceed the whole.  Validation demands the exact whole; the
/// mathematics only needs the bound.
pub open spec fn strategy_wf(s: DelegationStrategy) -> bool {
    match s {
        DelegationStrategy::Defined { shares_bps } => uniq_bps_keys(shares_bps@) && sum_bps(
            shares_bps@,
        ) <= BPS_TOTAL,
        _ => true,
    }
}

/// The per-validator target under a uniform split: everyone gets the
/// floored even share.
pub open spec fn spec_uniform_wanted(validators: Seq<String>, total: u128) -> Seq<Delegation> {
    Seq::new(
        validators.len(),
        |i: int|
            Delegation {
                validator: validators[i],
                amount: ((total as int) / (validators.len() as int)) as u128,
            },
    )
}

/// The per-validator target under a tuned goal: each validator gets its
/// share of the total, floored.
pub open spec fn spec_goal_wanted(shares: Seq<(String, u128)>, total: u128) -> Seq<Delegation> {
    Seq::new(
        shares.len(),
        |i: int|
            Delegation {
                validator: shares[i].0,
                amount: ((total as int) * (shares[i].1 as int) / (SHARE_SCALE as int)) as u128,
            },
    )
}

/// The per-validator target under a defined strategy read directly from
/// its basis points.
pub open spec fn spec_bps_wanted(shares: Seq<(String, u64)>, total: u128) -> Seq<Delegation> {
    Seq::new(
        shares.len(),
        |i: int|
            Delegation {
                validator: shares[i].0,
                amount: ((total as int) * (shares[i].1 as int) / (BPS_TOTAL as int)) as u128,
            },
    )
}

/// The target the strategy in force induces for a given total.
pub open spec fn spec_wanted(
    strategy: DelegationStrategy,
    goal: Option<DelegationGoal>,
    total: u128,
    validators: Seq<String>,
) -> Seq<Delegation> {
    match strategy {
        DelegationStrategy::Uniform => spec_uniform_wanted(validators, total),
        _ => match goal {
            Some(g) => spec_goal_wanted(g.shares@, total),
            None => match strategy {
                DelegationStrategy::Defined { shares_bps } => spec_bps_wanted(shares_bps@, total),
                _ => spec_uniform_wanted(validators, total),
            },
        },
    }
}

/// Share column entries are bounded by their sum.
pub proof fn lemma_share_le_sum(s: Seq<(String, u128)>, i: int)
    requires
        0 <= i < s.len(),
    ensures
        s[i].1 <= sum_shares(s),
    decreases s.len(),
{
    if i == s.len() - 1 {
        lemma_sum_shares_nonneg(s.drop_last());
    } else {
        lemma_share_le_sum(s.drop_last(), i);
    }
}

pub proof fn lemma_sum_shares_nonneg(s: Seq<(String, u128)>)
    ensures
        0 <= sum_shares(s),
    decreases s.len(),
{
    if s.len() > 0 {
        lemma_sum_shares_nonneg(s.drop_last());
    }
}

pub proof fn lemma_bps_le_sum(s: Seq<(String, u64)>, i: int)
    requires
        0 <= i < s.len(),
    ensures
        s[i].1 <= sum_bps(s),
    decreases s.len(),
{
    if i == s.len() - 1 {
        lemma_sum_bps_nonneg(s.drop_last());
    } else {
        lemma_bps_le_sum(s.drop_last(), i);
    }
}

pub proof fn lemma_sum_bps_nonneg(s: Seq<(String, u64)>)
    ensures
        0 <= sum_bps(s),
    decreases s.len(),
{
    if s.len() > 0 {
        lemma_sum_bps_nonneg(s.drop_last());
    }
}

/// The floored goal targets never sum past the distributed total.
proof fn lemma_goal_wanted_sum(shares: Seq<(String, u128)>, total: u128)
    requires
        sum_shares(shares) <= SHARE_SCALE,
    ensures
        sum_amounts(spec_goal_wanted(shares, total)) <= (total as int) * sum_shares(shares) / (
        SHARE_SCALE as int),
    decreases shares.len(),
{
    let w = spec_goal_wanted(shares, total);
    if shares.len() == 0 {
        assert(w.len() == 0);
    } else {
        let head = shares.drop_last();
        lemma_sum_shares_nonneg(head);
        lemma_goal_wanted_sum(head, total);
        assert(w.drop_last() =~= spec_goal_wanted(head, total));
        let t = total as int;
        let a = t * sum_shares(head);
        let b = t * (shares.last().1 as int);
        lemma_mul_nonnegative(t, sum_shares(head));
        lemma_mul_nonnegative(t, shares.last().1 as int);
        lemma_div_add_le(a, b, SHARE_SCALE as int);
        lemma_mul_is_distributive_add(t, sum_shares(head), shares.last().1 as int);
        assert(a + b == t * sum_shares(shares));
        assert(w.last().amount == b / (SHARE_SCALE as int)) by {
            lemma_share_le_sum(shares, shares.len() - 1);
            lemma_ratio_le_left(t, shares.last().1 as int, SHARE_SCALE as int);
            lemma_div_pos_is_pos(b, SHARE_SCALE as int);
        }
    }
}

proof fn lemma_bps_wanted_sum(shares: Seq<(String, u64)>, total: u128)
    requires
        sum_bps(shares) <= BPS_TOTAL,
    ensures
        sum_amounts(spec_bps_wanted(shares, total)) <= (total as int) * sum_bps(shares) / (
        BPS_TOTAL as int),
    decreases shares.len(),
{
    let w = spec_bps_wanted(shares, total);
    if shares.len() == 0 {
        assert(w.len() == 0);
    } else {
        let head = shares.drop_last();
        lemma_sum_bps_nonneg(head);
        lemma_bps_wanted_sum(head, total);
        assert(w.drop_last() =~= spec_bps_wanted(head, total));
        let t = total as int;
        let a = t * sum_bps(head);
        let b = t * (shares.last().1 as int);
        lemma_mul_nonnegative(t, sum_bps(head));
        lemma_mul_nonnegative(t, shares.last().1 as int);
        lemma_div_add_le(a, b, BPS_TOTAL as int);
        lemma_mul_is_distributive_add(t, sum_bps(head), shares.last().1 as int);
        assert(a + b == t * sum_bps(shares));
        assert(w.last().amount == b / (BPS_TOTAL as int)) by {
            lemma_bps_le_sum(shares, shares.len() - 1);
            lemma_ratio_le_left(t, shares.last().1 as int, BPS_TOTAL as int);
            lemma_div_pos_is_pos(b, BPS_TOTAL as int);
        }
    }
}

/// A scaled total stays within the total when the scale column stays
/// within the denominator.
proof fn lemma_scaled_le_total(total: int, shares_sum: int, denom: int)
    requires
        0 <= total,
        0 <= shares_sum <= denom,
        0 < denom,
    ensures
        total * shares_sum / denom <= total,
{
    lemma_mul_inequality(shares_sum, denom, total);
    lemma_mul_is_commutative(shares_sum, total);
    lemma_mul_is_commutative(denom, total);
    lemma_div_is_ordered(total * shares_sum, total * denom, denom);
    lemma_div_multiples_vanish(total, denom);
    lemma_mul_is_commutative(total, denom);
}

proof fn lemma_uniform_wanted_sum(validators: Seq<String>, total: u128)
    requires
        validators.len() > 0,
    ensures
        sum_amounts(spec_uniform_wanted(validators, total)) == (validators.len() as int) * ((
        total as int) / (validators.len() as int)),
        sum_amounts(spec_uniform_wanted(validators, total)) <= total,
    decreases validators.len(),
{
    let n = validators.len() as int;
    let q = (total as int) / n;
    let w = spec_uniform_wanted(validators, total);
    if validators.len() == 1 {
        assert(w.drop_last() =~= spec_uniform_wanted(Seq::<String>::empty(), total).subrange(0, 0));
        assert(sum_amounts(w.drop_last()) == 0);
        assert(sum_amounts(w) == q) by {
            assert(w.last().amount == q);
        }
        assert(1 * q == q) by (nonlinear_arith);
    } else {
        let head = validators.drop_last();
        // the even share depends only on the count, which differs between
        // head and the whole, so sum the column directly
        lemma_sum_const_amounts(w, q);
        assert((total as int) / n * n <= total) by {
            lemma_div_mul_le(total as int, n);
        }
        lemma_mul_is_commutative(n, q);
    }
    assert(n * q <= total) by {
        lemma_div_mul_le(total as int, n);
        lemma_mul_is_commutative(n, q);
    }
}

/// A sequence whose amounts all equal `q` sums to `len * q`.
proof fn lemma_sum_const_amounts(s: Seq<Delegation>, q: int)
    requires
        forall|i: int| 0 <= i < s.len() ==> s[i].amount == q,
    ensures
        sum_amounts(s) == (s.len() as int) * q,
    decreases s.len(),
{
    if s.len() == 0 {
        assert(0int * q == 0) by (nonlinear_arith);
    } else {
        lemma_sum_const_amounts(s.drop_last(), q);
        assert((s.len() as int) * q == (s.len() - 1) * q + q) by (nonlinear_arith);
    }
}

/// Compute the per-validator delegation target the strategy in force
/// induces when `utoken_bonded` is spread over the whitelist: an even
/// floored split under `Uniform`, the tuned goal's shares under
/// `Gauges` and `Defined` (a defined strategy falls back to its own
/// basis points while no goal is tuned).  The targets never sum past
/// `utoken_bonded`.
pub fn get_utoken_per_validator(
    strategy: &DelegationStrategy,
    goal: &Option<DelegationGoal>,
    utoken_bonded: u128,
    validators: &Vec<String>,
) -> (r: Vec<Delegation>)
    requires
        validators@.len() > 0,
        uniq_strings(validators@),
        goal matches Some(g) ==> goal_wf(*g),
        goal is None ==> strategy_wf(*strategy),
        strategy is Gauges ==> goal is Some,
    ensures
        r@ == spec_wanted(*strategy, *goal, utoken_bonded, validators@),
        sum_amounts(r@) <= utoken_bonded,
        0 <= sum_amounts(r@),
        uniq_validators(r@),
{
    let ghost wanted = spec_wanted(*strategy, *goal, utoken_bonded, validators@);
    let mut out: Vec<Delegation> = Vec::new();
    let use_uniform: bool = match strategy {
        DelegationStrategy::Uniform => true,
        _ => false,
    };
    if use_uniform {
        let n: usize = validators.len();
        let share: u128 = utoken_bonded / (n as u128);
        let mut k: usize = 0;
        while k < n
            invariant
                n == validators@.len(),
                0 < n,
                k <= n,
                share == (utoken_bonded as int) / (n as int),
                out@ =~= spec_uniform_wanted(validators@, utoken_bonded).subrange(0, k as int),
            decreases n - k,
        {
            out.push(Delegation { validator: validators[k].clone(), amount: share });
            proof {
                assert(out@ =~= spec_uniform_wanted(validators@, utoken_bonded).subrange(
                    0,
                    k + 1,
                ));
            }
            k += 1;
        }
        proof {
            assert(out@ =~= spec_uniform_wanted(validators@, utoken_bonded));
            lemma_uniform_wanted_sum(validators@, utoken_bonded);
            lemma_sum_nonneg(out@);
            assert(forall|i: int| 0 <= i < out@.len() ==> out@[i].validator == validators@[i]);
        }
        return out;
    }
    match goal {
        Some(g) => {
            let n: usize = g.shares.len();
            let mut k: usize = 0;
            while k < n
                invariant
                    n == g.shares@.len(),
                    uniq_share_keys(g.shares@),
                    sum_shares(g.shares@) <= SHARE_SCALE,
                    out@ =~= spec_goal_wanted(g.shares@, utoken_bonded).subrange(0, k as int),
                    k <= n,
                decreases n - k,
            {
                proof {
                    lemma_share_le_sum(g.shares@, k as int);
                    lemma_ratio_le_left(
                        utoken_bonded as int,
                        g.shares@[k as int].1 as int,
                        SHARE_SCALE as int,
                    );
                }
                let amount: u128 = mul_ratio(utoken_bonded, g.shares[k].1, SHARE_SCALE);
                out.push(Delegation { validator: g.shares[k].0.clone(), amount });
                proof {
                    assert(out@ =~= spec_goal_wanted(g.shares@, utoken_bonded).subrange(
                        0,
                        k + 1,
                    ));
                }
                k += 1;
            }
            proof {
                assert(out@ =~= spec_goal_wanted(g.shares@, utoken_bonded));
                lemma_goal_wanted_sum(g.shares@, utoken_bonded);
                lemma_sum_shares_nonneg(g.shares@);
                lemma_mul_nonnegative(utoken_bonded as int, sum_shares(g.shares@));
                lemma_div_pos_is_pos(
                    (utoken_bonded as int) * sum_shares(g.shares@),
                    SHARE_SCALE as int,
                );
                lemma_scaled_le_total(
                    utoken_bonded as int,
                    sum_shares(g.shares@),
                    SHARE_SCALE as int,
                );
                lemma_sum_nonneg(out@);
                assert(forall|i: int| 0 <= i < out@.len() ==> out@[i].validator == g.shares@[i].0);
            }
            out
        },
        None => {
            match strategy {
                DelegationStrategy::Defined { shares_bps } => {
                    let n: usize = shares_bps.len();
                    let mut k: usize = 0;
                    while k < n
                        invariant
                            n == shares_bps@.len(),
                            uniq_bps_keys(shares_bps@),
                            sum_bps(shares_bps@) <= BPS_TOTAL,
                            out@ =~= spec_bps_wanted(shares_bps@, utoken_bonded).subrange(
                                0,
                                k as int,
                            ),
                            k <= n,
                        decreases n - k,
                    {
                        proof {
                            lemma_bps_le_sum(shares_bps@, k as int);
                            lemma_ratio_le_left(
                                utoken_bonded as int,
                                shares_bps@[k as int].1 as int,
                                BPS_TOTAL as int,
                            );
                        }
                        let amount: u128 = mul_ratio(
                            utoken_bonded,
                            shares_bps[k].1 as u128,
                            BPS_TOTAL as u128,
                        );
                        out.push(Delegation { validator: shares_bps[k].0.clone(), amount });
                        proof {
                            assert(out@ =~= spec_bps_wanted(shares_bps@, utoken_bonded).subrange(
                                0,
                                k + 1,
                            ));
                        }
                        k += 1;
                    }
                    proof {
                        assert(out@ =~= spec_bps_wanted(shares_bps@, utoken_bonded));
                        lemma_bps_wanted_sum(shares_bps@, utoken_bonded);
                        lemma_sum_bps_nonneg(shares_bps@);
                        lemma_mul_nonnegative(utoken_bonded as int, sum_bps(shares_bps@));
                        lemma_div_pos_is_pos(
                            (utoken_bonded as int) * sum_bps(shares_bps@),
                            BPS_TOTAL as int,
                        );
                        lemma_scaled_le_total(
                            utoken_bonded as int,
                            sum_bps(shares_bps@),
                            BPS_TOTAL as int,
                        );
                        lemma_sum_nonneg(out@);
                        assert(forall|i: int|
                            0 <= i < out@.len() ==> out@[i].validator == shares_bps@[i].0);
                    }
                    out
                },
                _ => {
                    // `Uniform` took the early path and `Gauges` demands a goal
                    proof {
                        assert(false);
                    }
                    out
                },
            }
        },
    }
}

/// A prefix never sums past the whole column.
pub proof fn lemma_sum_prefix_le(s: Seq<Delegation>, k: int)
    requires
        0 <= k <= s.len(),
    ensures
        sum_amounts(s.subrange(0, k)) <= sum_amounts(s),
    decreases s.len(),
{
    if k == s.len() {
        assert(s.subrange(0, k) =~= s);
    } else {
        assert(s.drop_last().subrange(0, k) =~= s.subrange(0, k));
        lemma_sum_prefix_le(s.drop_last(), k);
    }
}

/// Total a delegation column.
pub fn sum_delegations(ds: &Vec<Delegation>) -> (r: u128)
    requires
        sum_amounts(ds@) <= u128::MAX,
    ensures
        r == sum_amounts(ds@),
{
    let n: usize = ds.len();
    let mut acc: u128 = 0;
    let mut k: usize = 0;
    proof {
        assert(ds@.subrange(0, 0) =~= Seq::<Delegation>::empty());
    }
    while k < n
        invariant
            n == ds@.len(),
            k <= n,
            sum_amounts(ds@) <= u128::MAX,
            acc == sum_amounts(ds@.subrange(0, k as int)),
        decreases n - k,
    {
        proof {
            assert(ds@.subrange(0, k + 1).drop_last() =~= ds@.subrange(0, k as int));
            assert(ds@.subrange(0, k + 1).last() == ds@[k as int]);
            lemma_sum_prefix_le(ds@, k + 1);
            lemma_sum_nonneg(ds@.subrange(0, k + 1));
        }
        acc = acc + ds[k].amount;
        k += 1;
    }
    proof {
        assert(ds@.subrange(0, n as int) =~= ds@);
    }
    acc
}

/// Index of the first entry carrying the smallest amount.
pub open spec fn is_first_min(s: Seq<Delegation>, i: int) -> bool {
    0 <= i < s.len() && (forall|j: int| 0 <= j < s.len() ==> s[i].amount <= s[j].amount) && (
    forall|j: int| 0 <= j < i ==> s[j].amount > s[i].amount)
}

/// How far the target for an entry's validator overshoots its current
/// amount, floored at zero.
pub open spec fn diff_at(c: Seq<Delegation>, w: Seq<Delegation>, i: int) -> int {
    if amount_of(w, c[i].validator@) >= c[i].amount {
        amount_of(w, c[i].validator@) - c[i].amount
    } else {
        0
    }
}

/// Index of the first entry whose target overshoots the most.
pub open spec fn is_first_max_diff(c: Seq<Delegation>, w: Seq<Delegation>, i: int) -> bool {
    0 <= i < c.len() && (forall|j: int| 0 <= j < c.len() ==> diff_at(c, w, j) <= diff_at(c, w, i))
        && (forall|j: int| 0 <= j < i ==> diff_at(c, w, j) < diff_at(c, w, i))
}

/// What a delegation choice must satisfy: the whole deposit goes to
/// one validator, under `Uniform` the first whitelisted validator
/// currently holding the least, under `Gauges` and `Defined` the first
/// currently delegated validator whose target overshoots its balance
/// the most, or the first whitelisted validator when nothing is
/// delegated yet.
pub open spec fn spec_new_delegation_ok(
    strategy: DelegationStrategy,
    goal: Option<DelegationGoal>,
    current: Seq<Delegation>,
    utoken_to_bond: u128,
    validators: Seq<String>,
    d: Delegation,
) -> bool {
    d.amount == utoken_to_bond && (match strategy {
        DelegationStrategy::Uniform => exists|i: int|
            is_first_min(current, i) && d.validator@ == current[i].validator@,
        _ => {
            if current.len() == 0 {
                d.validator@ == validators[0]@
            } else {
                exists|i: int|
                    is_first_max_diff(
                        current,
                        spec_wanted(
                            strategy,
                            goal,
                            (sum_amounts(current) + utoken_to_bond) as u128,
                            validators,
                        ),
                        i,
                    ) && d.validator@ == current[i].validator@
            }
        },
    })
}

pub proof fn lemma_sum_shares_push(s: Seq<(String, u128)>, e: (String, u128))
    ensures
        sum_shares(s.push(e)) == sum_shares(s) + e.1,
{
    assert(s.push(e).drop_last() =~= s);
    assert(s.push(e).last() == e);
}

pub proof fn lemma_sum_shares_prefix_le(s: Seq<(String, u128)>, k: int)
    requires
        0 <= k <= s.len(),
    ensures
        sum_shares(s.subrange(0, k)) <= sum_shares(s),
    decreases s.len(),
{
    if k == s.len() {
        assert(s.subrange(0, k) =~= s);
    } else {
        assert(s.drop_last().subrange(0, k) =~= s.subrange(0, k));
        lemma_sum_shares_prefix_le(s.drop_last(), k);
    }
}

pub proof fn lemma_sum_bps_prefix_le(s: Seq<(String, u64)>, k: int)
    requires
        0 <= k <= s.len(),
    ensures
        sum_bps(s.subrange(0, k)) <= sum_bps(s),
    decreases s.len(),
{
    if k == s.len() {
        assert(s.subrange(0, k) =~= s);
    } else {
        assert(s.drop_last().subrange(0, k) =~= s.subrange(0, k));
        lemma_sum_bps_prefix_le(s.drop_last(), k);
    }
}

/// Where the next deposit goes.  Under `Uniform` it is the whitelisted
/// validator currently holding the least, first wins on a tie.  Under
/// `Gauges` and `Defined` it is the currently delegated validator whose
/// tuned target overshoots its balance the most, first wins on a tie,
/// and the first whitelisted validator when nothing is delegated yet.
/// The whole deposit goes to that one validator.
pub fn find_new_delegation(
    strategy: &DelegationStrategy,
    goal: &Option<DelegationGoal>,
    current_delegations: &Vec<Delegation>,
    utoken_to_bond: u128,
    validators: &Vec<String>,
) -> (r: Result<Delegation, HubError>)
    requires
        validators@.len() > 0,
        uniq_strings(validators@),
        uniq_validators(current_delegations@),
        sum_amounts(current_delegations@) <= u128::MAX,
        strategy is Uniform ==> current_delegations@.len() > 0,
        goal matches Some(g) ==> goal_wf(*g),
        goal is None ==> strategy_wf(*strategy),
        strategy is Gauges ==> goal is Some,
    ensures
        match r {
            Ok(d) => spec_new_delegation_ok(
                *strategy,
                *goal,
                current_delegations@,
                utoken_to_bond,
                validators@,
                d,
            ),
            Err(e) => e == HubError::Overflow && !(strategy is Uniform) && sum_amounts(
                current_delegations@,
            ) + utoken_to_bond > u128::MAX,
        },
        r is Ok && !(strategy is Uniform) ==> sum_amounts(current_delegations@) + utoken_to_bond
            <= u128::MAX,
{
    let c = current_delegations;
    match strategy {
        DelegationStrategy::Uniform => {
            let n: usize = c.len();
            let mut best: usize = 0;
            let mut amount: u128 = c[0].amount;
            let mut k: usize = 1;
            while k < n
                invariant
                    n == c@.len(),
                    0 < n,
                    1 <= k <= n,
                    best < k,
                    amount == c@[best as int].amount,
                    forall|j: int| 0 <= j < k ==> amount <= c@[j].amount,
                    forall|j: int| 0 <= j < best ==> c@[j].amount > amount,
                decreases n - k,
            {
                if c[k].amount < amount {
                    best = k;
                    amount = c[k].amount;
                }
                k += 1;
            }
            proof {
                assert(is_first_min(c@, best as int));
            }
            Ok(Delegation { validator: c[best].validator.clone(), amount: utoken_to_bond })
        },
        _ => {
            let utoken_staked: u128 = sum_delegations(c);
            let total = match utoken_staked.checked_add(utoken_to_bond) {
                Some(t) => t,
                None => {
                    return Err(HubError::Overflow);
                },
            };
            let wanted = get_utoken_per_validator(strategy, goal, total, validators);
            let n: usize = c.len();
            if n == 0 {
                return Ok(
                    Delegation { validator: validators[0].clone(), amount: utoken_to_bond },
                );
            }
            let ghost w = wanted@;
            let mut best: usize = 0;
            let mut best_diff: u128 = 0;
            let mut started: bool = false;
            let mut k: usize = 0;
            while k < n
                invariant
                    n == c@.len(),
                    0 < n,
                    k <= n,
                    w == wanted@,
                    uniq_validators(w),
                    started ==> k >= 1,
                    !started ==> k == 0,
                    started ==> best < k && best_diff == diff_at(c@, w, best as int),
                    started ==> forall|j: int| 0 <= j < k ==> diff_at(c@, w, j) <= best_diff,
                    started ==> forall|j: int| 0 <= j < best ==> diff_at(c@, w, j) < best_diff,
                decreases n - k,
            {
                let wanted_here: u128 = match find_validator(&wanted, &c[k].validator) {
                    Some(i) => {
                        proof {
                            lemma_amount_of_index(w, i as int);
                        }
                        wanted[i].amount
                    },
                    None => {
                        proof {
                            lemma_amount_of_absent(w, c@[k as int].validator@);
                        }
                        0
                    },
                };
                let diff: u128 = if wanted_here >= c[k].amount {
                    wanted_here - c[k].amount
                } else {
                    0
                };
                proof {
                    assert(diff == diff_at(c@, w, k as int));
                }
                if diff > best_diff || !started {
                    best = k;
                    best_diff = diff;
                    started = true;
                }
                k += 1;
            }
            proof {
                assert(is_first_max_diff(c@, w, best as int));
            }
            Ok(Delegation { validator: c[best].validator.clone(), amount: utoken_to_bond })
        },
    }
}

/// How far an entry's current amount overshoots its target, floored at
/// zero: what the entry can yield to an unbond.
pub open spec fn surplus_at(c: Seq<Delegation>, w: Seq<Delegation>, i: int) -> int {
    if amount_of(w, c[i].validator@) >= c[i].amount {
        0
    } else {
        c[i].amount - amount_of(w, c[i].validator@)
    }
}

/// Total surplus over the first `k` entries.
pub open spec fn sum_surplus(c: Seq<Delegation>, w: Seq<Delegation>, k: int) -> int
    decreases k,
{
    if k <= 0 {
        0
    } else {
        sum_surplus(c, w, k - 1) + surplus_at(c, w, k - 1)
    }
}

/// Total target over the first entries' validators.
pub open spec fn sum_wanted_for(c: Seq<Delegation>, w: Seq<Delegation>) -> int
    decreases c.len(),
{
    if c.len() == 0 {
        0
    } else {
        sum_wanted_for(c.drop_last(), w) + amount_of(w, c.last().validator@)
    }
}

/// Number of entries naming a validator.
pub open spec fn count_key(c: Seq<Delegation>, v: Seq<char>) -> int
    decreases c.len(),
{
    if c.len() == 0 {
        0
    } else if c.last().validator@ == v {
        count_key(c.drop_last(), v) + 1
    } else {
        count_key(c.drop_last(), v)
    }
}

proof fn lemma_count_key_bounds(c: Seq<Delegation>, v: Seq<char>)
    ensures
        0 <= count_key(c, v),
    decreases c.len(),
{
    if c.len() > 0 {
        lemma_count_key_bounds(c.drop_last(), v);
    }
}

proof fn lemma_count_key_zero(c: Seq<Delegation>, v: Seq<char>)
    requires
        forall|i: int| 0 <= i < c.len() ==> c[i].validator@ != v,
    ensures
        count_key(c, v) == 0,
    decreases c.len(),
{
    if c.len() > 0 {
        assert(forall|i: int| 0 <= i < c.len() - 1 ==> c.drop_last()[i] == c[i]);
        lemma_count_key_zero(c.drop_last(), v);
    }
}

proof fn lemma_count_key_le_one(c: Seq<Delegation>, v: Seq<char>)
    requires
        uniq_validators(c),
    ensures
        count_key(c, v) <= 1,
    decreases c.len(),
{
    if c.len() > 0 {
        let head = c.drop_last();
        assert(uniq_validators(head)) by {
            assert(forall|i: int| 0 <= i < head.len() ==> head[i] == c[i]);
        }
        lemma_count_key_le_one(head, v);
        if c.last().validator@ == v {
            assert forall|i: int| 0 <= i < head.len() implies head[i].validator@ != v by {
                assert(c[i].validator@ != c[c.len() - 1].validator@);
            }
            lemma_count_key_zero(head, v);
        }
    }
}

/// Dropping a target entry lowers the gathered targets by at most that
/// entry's amount times the number of entries that name its validator.
proof fn lemma_sum_wanted_for_split(c: Seq<Delegation>, w: Seq<Delegation>)
    requires
        w.len() > 0,
    ensures
        sum_wanted_for(c, w) == sum_wanted_for(c, w.drop_last()) + count_key(
            c,
            w.last().validator@,
        ) * w.last().amount,
    decreases c.len(),
{
    if c.len() == 0 {
        assert(count_key(c, w.last().validator@) * w.last().amount == 0) by (nonlinear_arith)
            requires
                count_key(c, w.last().validator@) == 0,
        ;
    } else {
        lemma_sum_wanted_for_split(c.drop_last(), w);
        let v = c.last().validator@;
        let lv = w.last().validator@;
        assert(amount_of(w, v) == amount_of(w.drop_last(), v) + if lv == v {
            w.last().amount as int
        } else {
            0int
        });
        let k0 = count_key(c.drop_last(), lv);
        let k1 = count_key(c, lv);
        assert(k1 == k0 + if v == lv {
            1int
        } else {
            0int
        });
        lemma_mul_is_distributive_add_other_way(w.last().amount as int, k0, 1);
        assert(k1 * w.last().amount == k0 * w.last().amount + if v == lv {
            w.last().amount as int
        } else {
            0int
        }) by (nonlinear_arith)
            requires
                k1 == k0 + if v == lv {
                    1int
                } else {
                    0int
                },
        ;
    }
}

/// Over distinct validators, gathering each one's target never exceeds
/// the total target.
proof fn lemma_sum_wanted_for_le(c: Seq<Delegation>, w: Seq<Delegation>)
    requires
        uniq_validators(c),
    ensures
        sum_wanted_for(c, w) <= sum_amounts(w),
    decreases w.len(),
{
    if w.len() == 0 {
        assert(w =~= Seq::<Delegation>::empty());
        lemma_sum_wanted_for_zero(c);
        assert(sum_wanted_for(c, w) == 0);
    } else {
        lemma_sum_wanted_for_split(c, w);
        lemma_sum_wanted_for_le(c, w.drop_last());
        lemma_count_key_le_one(c, w.last().validator@);
        lemma_count_key_bounds(c, w.last().validator@);
        let k = count_key(c, w.last().validator@);
        let a = w.last().amount as int;
        assert(k * a <= a) by (nonlinear_arith)
            requires
                0 <= k <= 1,
                0 <= a,
        ;
        assert(sum_wanted_for(c, w) == sum_wanted_for(c, w.drop_last()) + k * a);
        assert(sum_amounts(w) == sum_amounts(w.drop_last()) + a);
        assert(sum_wanted_for(c, w.drop_last()) <= sum_amounts(w.drop_last()));
    }
}

proof fn lemma_sum_wanted_for_zero(c: Seq<Delegation>)
    ensures
        sum_wanted_for(c, Seq::<Delegation>::empty()) == 0,
    decreases c.len(),
{
    if c.len() > 0 {
        lemma_sum_wanted_for_zero(c.drop_last());
    }
}

/// The surpluses cover at least the current total minus the gathered
/// targets.
proof fn lemma_sum_surplus_ge(c: Seq<Delegation>, w: Seq<Delegation>, k: int)
    requires
        0 <= k <= c.len(),
    ensures
        sum_surplus(c, w, k) >= sum_amounts(c.subrange(0, k)) - sum_wanted_for(
            c.subrange(0, k),
            w,
        ),
    decreases k,
{
    if k == 0 {
        assert(c.subrange(0, 0) =~= Seq::<Delegation>::empty());
    } else {
        lemma_sum_surplus_ge(c, w, k - 1);
        let p = c.subrange(0, k);
        assert(p.drop_last() =~= c.subrange(0, k - 1));
        assert(p.last() == c[k - 1]);
        lemma_amount_of_nonneg(w, c[k - 1].validator@);
    }
}

pub proof fn lemma_sum_und_push(s: Seq<Undelegation>, u: Undelegation)
    ensures
        sum_undelegations(s.push(u)) == sum_undelegations(s) + u.amount,
{
    assert(s.push(u).drop_last() =~= s);
    assert(s.push(u).last() == u);
}

/// Split a desired unbond amount over the current delegations: walk
/// them in order, taking from each at most its surplus over the target
/// the strategy induces for the reduced total, and stop once the amount
/// is covered.  The returned entries name pairwise distinct validators,
/// each present with a sufficient balance, and sum to exactly
/// `utoken_to_unbond`.
pub fn compute_undelegations(
    strategy: &DelegationStrategy,
    goal: &Option<DelegationGoal>,
    utoken_to_unbond: u128,
    current_delegations: &Vec<Delegation>,
    validators: &Vec<String>,
) -> (r: Vec<Undelegation>)
    requires
        validators@.len() > 0,
        uniq_strings(validators@),
        uniq_validators(current_delegations@),
        utoken_to_unbond <= sum_amounts(current_delegations@),
        sum_amounts(current_delegations@) <= u128::MAX,
        goal matches Some(g) ==> goal_wf(*g),
        goal is None ==> strategy_wf(*strategy),
        strategy is Gauges ==> goal is Some,
    ensures
        sum_undelegations(r@) == utoken_to_unbond,
        forall|a: int, b: int| 0 <= a < b < r@.len() ==> r@[a].validator@ != r@[b].validator@,
        forall|a: int|
            0 <= a < r@.len() ==> has_validator(current_delegations@, r@[a].validator@)
                && r@[a].amount <= amount_of(current_delegations@, r@[a].validator@)
                && r@[a].amount > 0,
{
    let c = current_delegations;
    let utoken_staked: u128 = sum_delegations(c);
    let to_distribute: u128 = utoken_staked - utoken_to_unbond;
    let wanted = get_utoken_per_validator(strategy, goal, to_distribute, validators);
    let ghost w = wanted@;
    let n: usize = c.len();
    let mut unds: Vec<Undelegation> = Vec::new();
    let mut available: u128 = utoken_to_unbond;
    let mut k: usize = 0;
    while k < n && available > 0
        invariant
            n == c@.len(),
            k <= n,
            w == wanted@,
            uniq_validators(w),
            uniq_validators(c@),
            sum_amounts(w) <= to_distribute,
            to_distribute == sum_amounts(c@) - utoken_to_unbond,
            available <= utoken_to_unbond,
            sum_undelegations(unds@) + available == utoken_to_unbond,
            available > 0 ==> sum_undelegations(unds@) == sum_surplus(c@, w, k as int),
            forall|a: int|
                0 <= a < unds@.len() ==> unds@[a].amount > 0 && exists|i: int|
                    0 <= i < k && unds@[a].validator@ == c@[i].validator@ && unds@[a].amount
                        <= c@[i].amount,
            forall|a: int, b: int|
                0 <= a < b < unds@.len() ==> unds@[a].validator@ != unds@[b].validator@,
        decreases n - k,
    {
        let wanted_here: u128 = match find_validator(&wanted, &c[k].validator) {
            Some(i) => {
                proof {
                    lemma_amount_of_index(w, i as int);
                }
                wanted[i].amount
            },
            None => {
                proof {
                    lemma_amount_of_absent(w, c@[k as int].validator@);
                }
                0
            },
        };
        let surplus: u128 = if c[k].amount > wanted_here {
            c[k].amount - wanted_here
        } else {
            0
        };
        proof {
            assert(surplus == surplus_at(c@, w, k as int));
        }
        let to_und: u128 = if surplus > available {
            available
        } else {
            surplus
        };
        available = available - to_und;
        if to_und > 0 {
            let ghost before = unds@;
            unds.push(Undelegation { validator: c[k].validator.clone(), amount: to_und });
            proof {
                lemma_sum_und_push(before, unds@.last());
                assert forall|a: int, b: int|
                    0 <= a < b < unds@.len() implies unds@[a].validator@
                    != unds@[b].validator@ by {
                    if b == unds@.len() - 1 {
                        let i = choose|i: int|
                            0 <= i < k && before[a].validator@ == c@[i].validator@
                                && before[a].amount <= c@[i].amount;
                        assert(c@[i].validator@ != c@[k as int].validator@);
                    }
                }
            }
        }
        k += 1;
    }
    proof {
        if available > 0 {
            assert(k == n);
            lemma_sum_surplus_ge(c@, w, n as int);
            assert(c@.subrange(0, n as int) =~= c@);
            lemma_sum_wanted_for_le(c@, w);
            assert(false);
        }
        assert forall|a: int|
            0 <= a < unds@.len() implies has_validator(c@, unds@[a].validator@) && unds@[a].amount
            <= amount_of(c@, unds@[a].validator@) && unds@[a].amount > 0 by {
            let i = choose|i: int|
                0 <= i < n && unds@[a].validator@ == c@[i].validator@ && unds@[a].amount
                    <= c@[i].amount;
            lemma_amount_of_index(c@, i);
        }
    }
    unds
}

/// How far one target entry overshoots the current balance of its
/// validator, floored at zero: what that validator still lacks.
pub open spec fn deficit_at(c: Seq<Delegation>, w: Seq<Delegation>, j: int) -> int {
    if amount_of(c, w[j].validator@) >= w[j].amount {
        0
    } else {
        w[j].amount - amount_of(c, w[j].validator@)
    }
}

/// Total deficit over the first `k` target entries.
pub open spec fn sum_deficit(c: Seq<Delegation>, w: Seq<Delegation>, k: int) -> int
    decreases k,
{
    if k <= 0 {
        0
    } else {
        sum_deficit(c, w, k - 1) + deficit_at(c, w, k - 1)
    }
}

pub proof fn lemma_sum_surplus_nonneg(c: Seq<Delegation>, w: Seq<Delegation>, k: int)
    ensures
        0 <= sum_surplus(c, w, k),
    decreases k,
{
    if k > 0 {
        lemma_sum_surplus_nonneg(c, w, k - 1);
    }
}

pub proof fn lemma_sum_deficit_nonneg(c: Seq<Delegation>, w: Seq<Delegation>, k: int)
    ensures
        0 <= sum_deficit(c, w, k),
    decreases k,
{
    if k > 0 {
        lemma_sum_deficit_nonneg(c, w, k - 1);
    }
}

/// How far a validator's balance overshoots its target, floored at
/// zero.
pub open spec fn val_surplus(c: Seq<Delegation>, w: Seq<Delegation>, v: Seq<char>) -> int {
    if amount_of(c, v) >= amount_of(w, v) {
        amount_of(c, v) - amount_of(w, v)
    } else {
        0
    }
}

/// Everything the rebalance planner promises of a plan against current
/// delegations `c` and targets `w`: positive moves over pairwise
/// distinct routes, each drawing from a genuine surplus without
/// overdrawing it and feeding a genuine deficit, and together carrying
/// exactly the lesser of the total surplus and the total deficit.
pub open spec fn spec_plan_ok(
    c: Seq<Delegation>,
    w: Seq<Delegation>,
    plan: Seq<Redelegation>,
) -> bool {
    &&& (forall|a: int| 0 <= a < plan.len() ==> (#[trigger] plan[a]).amount > 0)
    &&& (forall|a: int|
        0 <= a < plan.len() ==> amount_of(w, (#[trigger] plan[a]).dst@) > amount_of(
            c,
            plan[a].dst@,
        ))
    &&& (forall|v: Seq<char>| #![trigger moved_out(plan, v)]
        moved_out(plan, v) <= val_surplus(c, w, v) && moved_out(plan, v) <= amount_of(c, v))
    &&& (forall|a: int, b: int|
        0 <= a < b < plan.len() ==> !((#[trigger] plan[a]).src@ == (#[trigger] plan[b]).src@
            && plan[a].dst@ == plan[b].dst@))
    &&& crate::ledger::sum_redelegations(plan) == ({
        let ts = sum_surplus(c, w, c.len() as int);
        let td = sum_deficit(c, w, w.len() as int);
        if ts <= td {
            ts
        } else {
            td
        }
    })
}

/// The moves of a plan that meet a threshold, in order.
pub open spec fn spec_filter_ge(rs: Seq<Redelegation>, m: int) -> Seq<Redelegation>
    decreases rs.len(),
{
    if rs.len() == 0 {
        Seq::<Redelegation>::empty()
    } else {
        let f = spec_filter_ge(rs.drop_last(), m);
        if rs.last().amount >= m {
            f.push(rs.last())
        } else {
            f
        }
    }
}

/// Every kept move is one of the plan's moves.
pub proof fn lemma_filter_ge_subset(rs: Seq<Redelegation>, m: int)
    ensures
        forall|a: int|
            0 <= a < spec_filter_ge(rs, m).len() ==> exists|i: int|
                0 <= i < rs.len() && #[trigger] spec_filter_ge(rs, m)[a] == rs[i],
    decreases rs.len(),
{
    if rs.len() > 0 {
        lemma_filter_ge_subset(rs.drop_last(), m);
        let f = spec_filter_ge(rs, m);
        let f0 = spec_filter_ge(rs.drop_last(), m);
        assert forall|a: int| 0 <= a < f.len() implies exists|i: int|
            0 <= i < rs.len() && #[trigger] f[a] == rs[i] by {
            if a < f0.len() {
                let i = choose|i: int| 0 <= i < rs.drop_last().len() && f0[a] == rs.drop_last()[i];
                assert(f[a] == rs[i]);
            } else {
                assert(f[a] == rs[rs.len() - 1]);
            }
        }
    }
}

/// Filtering keeps the routes pairwise distinct.
pub proof fn lemma_filter_ge_distinct(rs: Seq<Redelegation>, m: int)
    requires
        forall|a: int, b: int|
            0 <= a < b < rs.len() ==> !((#[trigger] rs[a]).src@ == (#[trigger] rs[b]).src@
                && rs[a].dst@ == rs[b].dst@),
    ensures
        forall|a: int, b: int|
            0 <= a < b < spec_filter_ge(rs, m).len() ==> !((#[trigger] spec_filter_ge(rs, m)[
                a
            ]).src@ == (#[trigger] spec_filter_ge(rs, m)[b]).src@ && spec_filter_ge(rs, m)[a].dst@
                == spec_filter_ge(rs, m)[b].dst@),
    decreases rs.len(),
{
    if rs.len() > 0 {
        let head = rs.drop_last();
        assert(forall|a: int| 0 <= a < head.len() ==> head[a] == rs[a]);
        lemma_filter_ge_distinct(head, m);
        lemma_filter_ge_subset(head, m);
        let f = spec_filter_ge(rs, m);
        let f0 = spec_filter_ge(head, m);
        assert forall|a: int, b: int|
            0 <= a < b < f.len() implies !((#[trigger] f[a]).src@ == (#[trigger] f[b]).src@
            && f[a].dst@ == f[b].dst@) by {
            if b < f0.len() {
                assert(f[a] == f0[a] && f[b] == f0[b]);
            } else {
                assert(f[b] == rs[rs.len() - 1]);
                assert(f[a] == f0[a]);
                let i = choose|i: int| 0 <= i < head.len() && f0[a] == head[i];
                assert(!(rs[i].src@ == rs[rs.len() - 1].src@ && rs[i].dst@ == rs[
                    rs.len() - 1
                ].dst@));
            }
        }
    }
}

/// Plan the moves that drive the current delegations toward the target
/// the strategy in force induces for the same total: surplus validators
/// are matched greedily against deficit validators, in ledger and
/// target order.  Every move is positive, draws from a genuine surplus
/// without overdrawing it, and feeds a genuine deficit; together the
/// moves carry exactly the lesser of the total surplus and the total
/// deficit, so whichever side is smaller is fully resolved.
pub fn compute_redelegations_for_rebalancing(
    strategy: &DelegationStrategy,
    goal: &Option<DelegationGoal>,
    current_delegations: &Vec<Delegation>,
    validators: &Vec<String>,
) -> (r: Vec<Redelegation>)
    requires
        validators@.len() > 0,
        uniq_strings(validators@),
        uniq_validators(current_delegations@),
        sum_amounts(current_delegations@) <= u128::MAX,
        goal matches Some(g) ==> goal_wf(*g),
        goal is None ==> strategy_wf(*strategy),
        strategy is Gauges ==> goal is Some,
    ensures
        forall|a: int| 0 <= a < r@.len() ==> r@[a].amount > 0,
        forall|a: int|
            0 <= a < r@.len() ==> amount_of(
                spec_wanted(
                    *strategy,
                    *goal,
                    sum_amounts(current_delegations@) as u128,
                    validators@,
                ),
                r@[a].dst@,
            ) > amount_of(current_delegations@, r@[a].dst@),
        forall|v: Seq<char>| #![trigger moved_out(r@, v)]
            moved_out(r@, v) <= val_surplus(
                current_delegations@,
                spec_wanted(
                    *strategy,
                    *goal,
                    sum_amounts(current_delegations@) as u128,
                    validators@,
                ),
                v,
            ) && moved_out(r@, v) <= amount_of(current_delegations@, v),
        crate::ledger::sum_redelegations(r@) == ({
            let w = spec_wanted(
                *strategy,
                *goal,
                sum_amounts(current_delegations@) as u128,
                validators@,
            );
            let ts = sum_surplus(current_delegations@, w, current_delegations@.len() as int);
            let td = sum_deficit(current_delegations@, w, w.len() as int);
            if ts <= td {
                ts
            } else {
                td
            }
        }),
        forall|a: int, b: int|
            0 <= a < b < r@.len() ==> !((#[trigger] r@[a]).src@ == (#[trigger] r@[b]).src@
                && r@[a].dst@ == r@[b].dst@),
        spec_plan_ok(
            current_delegations@,
            spec_wanted(
                *strategy,
                *goal,
                sum_amounts(current_delegations@) as u128,
                validators@,
            ),
            r@,
        ),
{
    let c = current_delegations;
    let total: u128 = sum_delegations(c);
    let wanted = get_utoken_per_validator(strategy, goal, total, validators);
    let ghost w = wanted@;
    let n: usize = c.len();
    let nw: usize = wanted.len();

    let mut surpluses: Vec<Delegation> = Vec::new();
    let mut k: usize = 0;
    while k < n
        invariant
            n == c@.len(),
            k <= n,
            w == wanted@,
            uniq_validators(w),
            uniq_validators(c@),
            uniq_validators(surpluses@),
            sum_amounts(surpluses@) == sum_surplus(c@, w, k as int),
            forall|a: int|
                0 <= a < surpluses@.len() ==> surpluses@[a].amount > 0 && surpluses@[a].amount
                    == val_surplus(c@, w, surpluses@[a].validator@) && exists|i: int|
                    0 <= i < k && surpluses@[a].validator@ == c@[i].validator@,
        decreases n - k,
    {
        let wanted_here: u128 = match find_validator(&wanted, &c[k].validator) {
            Some(i) => {
                proof {
                    lemma_amount_of_index(w, i as int);
                }
                wanted[i].amount
            },
            None => {
                proof {
                    lemma_amount_of_absent(w, c@[k as int].validator@);
                }
                0
            },
        };
        if c[k].amount > wanted_here {
            let ghost before = surpluses@;
            proof {
                lemma_amount_of_index(c@, k as int);
            }
            surpluses.push(
                Delegation { validator: c[k].validator.clone(), amount: c[k].amount - wanted_here },
            );
            proof {
                lemma_sum_push(before, surpluses@.last());
                assert forall|a: int, b: int|
                    0 <= a < b < surpluses@.len() implies surpluses@[a].validator@
                    != surpluses@[b].validator@ by {
                    if b == surpluses@.len() - 1 {
                        let i = choose|i: int|
                            0 <= i < k && before[a].validator@ == c@[i].validator@;
                        assert(c@[i].validator@ != c@[k as int].validator@);
                    }
                }
            }
        }
        k += 1;
    }

    let mut deficits: Vec<Delegation> = Vec::new();
    let mut k2: usize = 0;
    while k2 < nw
        invariant
            nw == wanted@.len(),
            k2 <= nw,
            w == wanted@,
            uniq_validators(w),
            uniq_validators(c@),
            uniq_validators(deficits@),
            sum_amounts(deficits@) == sum_deficit(c@, w, k2 as int),
            forall|a: int|
                0 <= a < deficits@.len() ==> deficits@[a].amount > 0 && amount_of(
                    w,
                    deficits@[a].validator@,
                ) > amount_of(c@, deficits@[a].validator@) && exists|i: int|
                    0 <= i < k2 && deficits@[a].validator@ == w[i].validator@,
        decreases nw - k2,
    {
        let current_here: u128 = match find_validator(c, &wanted[k2].validator) {
            Some(i) => {
                proof {
                    lemma_amount_of_index(c@, i as int);
                }
                c[i].amount
            },
            None => {
                proof {
                    lemma_amount_of_absent(c@, wanted@[k2 as int].validator@);
                }
                0
            },
        };
        if wanted[k2].amount > current_here {
            proof {
                lemma_amount_of_index(w, k2 as int);
            }
            let ghost before = deficits@;
            deficits.push(
                Delegation {
                    validator: wanted[k2].validator.clone(),
                    amount: wanted[k2].amount - current_here,
                },
            );
            proof {
                lemma_sum_push(before, deficits@.last());
                assert forall|a: int, b: int|
                    0 <= a < b < deficits@.len() implies deficits@[a].validator@
                    != deficits@[b].validator@ by {
                    if b == deficits@.len() - 1 {
                        let i = choose|i: int|
                            0 <= i < k2 && before[a].validator@ == w[i].validator@;
                        assert(w[i].validator@ != w[k2 as int].validator@);
                    }
                }
            }
        }
        k2 += 1;
    }

    let mut moves: Vec<Redelegation> = Vec::new();
    let ns: usize = surpluses.len();
    let nd: usize = deficits.len();
    if ns == 0 || nd == 0 {
        proof {
            assert forall|v: Seq<char>| #![trigger moved_out(moves@, v)] moved_out(moves@, v)
                <= val_surplus(c@, w, v) && moved_out(moves@, v) <= amount_of(c@, v) by {
                lemma_amount_of_nonneg(c@, v);
                lemma_amount_of_nonneg(w, v);
            }
            lemma_sum_surplus_nonneg(c@, w, c@.len() as int);
            lemma_sum_deficit_nonneg(c@, w, w.len() as int);
            lemma_sum_nonneg(surpluses@);
            lemma_sum_nonneg(deficits@);
        }
        return moves;
    }
    let mut i: usize = 0;
    let mut j: usize = 0;
    let mut rem_s: u128 = surpluses[0].amount;
    let mut rem_d: u128 = deficits[0].amount;
    let ghost mut pairs: Seq<(int, int)> = Seq::<(int, int)>::empty();
    proof {
        crate::ledger::lemma_sum_amounts_first(surpluses@);
        crate::ledger::lemma_sum_amounts_first(deficits@);
    }
    while i < ns && j < nd
        invariant
            ns == surpluses@.len(),
            nd == deficits@.len(),
            i <= ns,
            j <= nd,
            sum_amounts(surpluses@) == sum_surplus(c@, w, c@.len() as int),
            sum_amounts(deficits@) == sum_deficit(c@, w, w.len() as int),
            crate::ledger::sum_redelegations(moves@) + (if i < ns {
                rem_s + sum_amounts(surpluses@.subrange(i + 1, ns as int))
            } else {
                0int
            }) == sum_amounts(surpluses@),
            crate::ledger::sum_redelegations(moves@) + (if j < nd {
                rem_d + sum_amounts(deficits@.subrange(j + 1, nd as int))
            } else {
                0int
            }) == sum_amounts(deficits@),
            uniq_validators(surpluses@),
            forall|a: int|
                0 <= a < ns ==> surpluses@[a].amount > 0 && surpluses@[a].amount == val_surplus(
                    c@,
                    w,
                    surpluses@[a].validator@,
                ),
            forall|a: int|
                0 <= a < nd ==> deficits@[a].amount > 0 && amount_of(w, deficits@[a].validator@)
                    > amount_of(c@, deficits@[a].validator@),
            i < ns ==> 1 <= rem_s <= surpluses@[i as int].amount,
            j < nd ==> 1 <= rem_d <= deficits@[j as int].amount,
            i < ns ==> moved_out(moves@, surpluses@[i as int].validator@) == surpluses@[
                i as int
            ].amount - rem_s,
            forall|a: int|
                i < a < ns ==> moved_out(moves@, surpluses@[a].validator@) == 0,
            forall|a: int|
                0 <= a < i ==> moved_out(moves@, surpluses@[a].validator@) <= surpluses@[
                    a
                ].amount,
            forall|v: Seq<char>| #![trigger moved_out(moves@, v)]
                !has_validator(surpluses@, v) ==> moved_out(moves@, v) == 0,
            forall|a: int|
                0 <= a < moves@.len() ==> moves@[a].amount > 0 && amount_of(w, moves@[a].dst@)
                    > amount_of(c@, moves@[a].dst@),
            pairs.len() == moves@.len(),
            forall|a: int|
                0 <= a < pairs.len() ==> 0 <= (#[trigger] pairs[a]).0 < ns && 0 <= pairs[a].1
                    < nd && moves@[a].src@ == surpluses@[pairs[a].0].validator@ && moves@[a].dst@
                    == deficits@[pairs[a].1].validator@,
            forall|a: int, b: int|
                0 <= a < b < pairs.len() ==> ((#[trigger] pairs[a]).0 < (#[trigger] pairs[b]).0
                    || (pairs[a].0 == pairs[b].0 && pairs[a].1 < pairs[b].1)),
            i < ns && j < nd && pairs.len() > 0 ==> (pairs.last().0 < i as int || (
            pairs.last().0 == i as int && pairs.last().1 < j as int)),
        decreases ns - i, nd - j, rem_s,
    {
        let take: u128 = if rem_s < rem_d {
            rem_s
        } else {
            rem_d
        };
        let ghost before = moves@;
        moves.push(
            Redelegation {
                src: surpluses[i].validator.clone(),
                dst: deficits[j].validator.clone(),
                amount: take,
            },
        );
        proof {
            let ghost vi = surpluses@[i as int].validator@;
            assert forall|v: Seq<char>| #![trigger moved_out(moves@, v)] moved_out(moves@, v)
                == moved_out(before, v) + (if v == vi {
                take as int
            } else {
                0int
            }) by {
                lemma_moved_out_push(before, moves@.last(), v);
            }
            assert forall|a: int| i < a < ns implies moved_out(
                moves@,
                surpluses@[a].validator@,
            ) == 0 by {
                assert(surpluses@[a].validator@ != vi);
            }
            crate::ledger::lemma_sum_redelegations_push(before, moves@.last());
            pairs = pairs.push((i as int, j as int));
            assert(pairs.last() == (i as int, j as int));
        }
        rem_s = rem_s - take;
        rem_d = rem_d - take;
        proof {
            assert(rem_s == 0 || rem_d == 0);
        }
        if rem_s == 0 {
            i += 1;
            if i < ns {
                rem_s = surpluses[i].amount;
                proof {
                    let suffix = surpluses@.subrange(i as int, ns as int);
                    crate::ledger::lemma_sum_amounts_first(suffix);
                    assert(suffix[0] == surpluses@[i as int]);
                    assert(suffix.subrange(1, suffix.len() as int) =~= surpluses@.subrange(
                        i + 1,
                        ns as int,
                    ));
                }
            } else {
                proof {
                    assert(surpluses@.subrange(ns as int, ns as int) =~= Seq::<
                        Delegation,
                    >::empty());
                }
            }
        }
        if rem_d == 0 {
            j += 1;
            if j < nd {
                rem_d = deficits[j].amount;
                proof {
                    let suffix = deficits@.subrange(j as int, nd as int);
                    crate::ledger::lemma_sum_amounts_first(suffix);
                    assert(suffix[0] == deficits@[j as int]);
                    assert(suffix.subrange(1, suffix.len() as int) =~= deficits@.subrange(
                        j + 1,
                        nd as int,
                    ));
                }
            } else {
                proof {
                    assert(deficits@.subrange(nd as int, nd as int) =~= Seq::<
                        Delegation,
                    >::empty());
                }
            }
        }
    }
    proof {
        assert forall|v: Seq<char>| #![trigger moved_out(moves@, v)] moved_out(moves@, v)
            <= val_surplus(c@, w, v) && moved_out(moves@, v) <= amount_of(c@, v) by {
            lemma_amount_of_nonneg(c@, v);
            lemma_amount_of_nonneg(w, v);
            if has_validator(surpluses@, v) {
                let a = choose|a: int|
                    0 <= a < surpluses@.len() && surpluses@[a].validator@ == v;
                assert(moved_out(moves@, v) <= surpluses@[a].amount);
            }
        }
        // the loop drains the smaller of the total surplus and deficit
        if i < ns {
            lemma_sum_nonneg(surpluses@.subrange(i + 1, ns as int));
        }
        if j < nd {
            lemma_sum_nonneg(deficits@.subrange(j + 1, nd as int));
        }
        // pointer pairs grow lexicographically, so no route repeats
        assert forall|a: int, b: int|
            0 <= a < b < moves@.len() implies !((#[trigger] moves@[a]).src@ == (
        #[trigger] moves@[b]).src@ && moves@[a].dst@ == moves@[b].dst@) by {
            if moves@[a].src@ == moves@[b].src@ {
                if pairs[a].0 != pairs[b].0 {
                    assert(surpluses@[pairs[a].0].validator@ != surpluses@[
                        pairs[b].0
                    ].validator@);
                }
                assert(pairs[a].0 == pairs[b].0);
                assert(pairs[a].1 < pairs[b].1);
                assert(deficits@[pairs[a].1].validator@ != deficits@[pairs[b].1].validator@);
            }
        }
    }
    moves
}

} // verus!
