//! The laws the share mathematics obeys across transitions: exchange-
//! rate monotonicity, round trips through mint and redeem, and the
//! solvency of freshly reconciled batches.

use vstd::prelude::*;
use vstd::arithmetic::div_mod::*;
use vstd::arithmetic::mul::*;
use crate::arith::{lemma_div_add_le, lemma_div_mul_le};
use crate::batches::{sum_request_shares, sum_unclaimed};
use crate::math::{spec_mint_amount, spec_unbond_amount};
use crate::types::{Batch, UnbondRequest};

verus! {

/// The ledger backs the books: in every well-formed state the
/// per-validator delegations sum to exactly the bonded total.  Every
/// transition preserves well-formedness, so this holds after each one;
/// only a slashing adjustment moves both sides, and it moves them
/// together.
pub proof fn lemma_ledger_backs_bonded(s: crate::state::HubState)
    requires
        s.wf(),
    ensures
        crate::ledger::sum_amounts(s.delegations.delegations@)
            == s.stake.total_utoken_bonded,
{
}

/// Batch ids stay strictly monotone and at most one batch accumulates:
/// in every well-formed state the previous batches carry pairwise
/// distinct ids, all below the single pending batch's id.
pub proof fn lemma_batch_ids_monotone(s: crate::state::HubState)
    requires
        s.wf(),
    ensures
        crate::batches::uniq_batch_ids(s.previous_batches@),
        forall|i: int|
            0 <= i < s.previous_batches@.len() ==> (#[trigger] s.previous_batches@[i]).id
                < s.pending.id,
{
}

/// Bonding never lowers the exchange rate: with shares outstanding and
/// tokens bonded, the post-bond rate `(bonded + deposit) / (supply +
/// minted)` is at least the pre-bond rate `bonded / supply`, compared
/// as cross products.  Floored minting under-mints, so existing holders
/// never lose.
pub proof fn lemma_bond_rate_monotone(supply: u128, deposit: u128, bonded: u128)
    requires
        supply > 0,
        bonded > 0,
    ensures
        ({
            let m = spec_mint_amount(supply, deposit, bonded);
            (bonded + deposit) * (supply as int) >= (bonded as int) * ((supply as int) + m)
        }),
{
    let m = spec_mint_amount(supply, deposit, bonded);
    let d = deposit as int;
    let sp = supply as int;
    let b = bonded as int;
    lemma_mul_nonnegative(d, sp);
    lemma_div_mul_le(d * sp, b);
    assert(m * b <= d * sp);
    lemma_mul_is_distributive_add_other_way(sp, b, d);
    lemma_mul_is_distributive_add(b, sp, m);
    lemma_mul_is_commutative(d, sp);
    lemma_mul_is_commutative(m, b);
    lemma_mul_is_commutative(b, sp);
}

/// A donation strictly raises the exchange rate: the bonded total grows
/// while no shares are minted.
pub proof fn lemma_donation_rate_strict(supply: u128, amount: u128, bonded: u128)
    requires
        supply > 0,
        amount > 0,
    ensures
        (bonded + amount) * (supply as int) > (bonded as int) * (supply as int),
{
    lemma_mul_is_distributive_add_other_way(supply as int, bonded as int, amount as int);
    lemma_mul_strictly_positive(amount as int, supply as int);
}

/// Reinvesting never lowers the exchange rate: bonding unlocked
/// underlying tokens and burning unlocked stake tokens both help,
/// compared as cross products over the before and after pairs.
pub proof fn lemma_reinvest_rate_monotone(supply: u128, bonded: u128, to_bond: u128, burn: u128)
    requires
        supply > 0,
        burn < supply,
    ensures
        ((bonded as int) + to_bond) * (supply as int) >= (bonded as int) * ((supply as int)
            - burn),
{
    let b = bonded as int;
    let sp = supply as int;
    lemma_mul_is_distributive_add_other_way(sp, b, to_bond as int);
    lemma_mul_is_distributive_sub(b, sp, burn as int);
    lemma_mul_nonnegative(to_bond as int, sp);
    lemma_mul_nonnegative(b, burn as int);
}

/// Exchange-rate comparisons chain: with positive supplies, a rate
/// pair at least a second that is at least a third is itself at least
/// the third.  Together with the per-transition lemmas this carries
/// rate monotonicity across any run of bonds, donations and reinvests.
pub proof fn lemma_rate_order_transitive(n1: int, d1: int, n2: int, d2: int, n3: int, d3: int)
    requires
        d1 > 0,
        d2 > 0,
        d3 > 0,
        n1 * d2 >= n2 * d1,
        n2 * d3 >= n3 * d2,
    ensures
        n1 * d3 >= n3 * d1,
{
    assert((n1 * d2) * d3 >= (n2 * d1) * d3) by (nonlinear_arith)
        requires
            n1 * d2 >= n2 * d1,
            d3 > 0,
    ;
    assert((n2 * d3) * d1 >= (n3 * d2) * d1) by (nonlinear_arith)
        requires
            n2 * d3 >= n3 * d2,
            d1 > 0,
    ;
    assert((n1 * d3) * d2 >= (n3 * d1) * d2) by (nonlinear_arith)
        requires
            (n1 * d2) * d3 >= (n2 * d1) * d3,
            (n2 * d3) * d1 >= (n3 * d2) * d1,
    ;
    assert(n1 * d3 >= n3 * d1) by (nonlinear_arith)
        requires
            (n1 * d3) * d2 >= (n3 * d1) * d2,
            d2 > 0,
    ;
}

/// Minting and then redeeming the same shares is the identity whenever
/// the share supply is a whole positive multiple of the bonded total.
pub proof fn lemma_mint_unbond_round_trip(supply: u128, deposit: u128, bonded: u128, k: int)
    requires
        bonded > 0,
        k >= 1,
        supply == k * (bonded as int),
        spec_mint_amount(supply, deposit, bonded) <= u128::MAX,
    ensures
        spec_unbond_amount(
            supply,
            spec_mint_amount(supply, deposit, bonded) as u128,
            bonded,
        ) == deposit,
{
    let d = deposit as int;
    let sp = supply as int;
    let b = bonded as int;
    let m = spec_mint_amount(supply, deposit, bonded);
    assert(sp > 0) by {
        lemma_mul_strictly_positive(k, b);
    }
    assert(d * sp == (d * k) * b) by {
        lemma_mul_is_associative(d, k, b);
    }
    assert(m == d * k) by {
        lemma_mul_is_commutative(d * k, b);
        lemma_div_multiples_vanish(d * k, b);
    }
    lemma_mul_nonnegative(d, k);
    assert(b * m == d * sp) by {
        lemma_mul_is_commutative(b, m);
        lemma_mul_is_associative(d, k, b);
    }
    assert(b * m / sp == d) by {
        assert(b * m == d * sp);
        lemma_mul_is_commutative(d, sp);
        lemma_div_multiples_vanish(d, sp);
    }
}

/// Bonding a deposit and then redeeming all resulting shares through a
/// full batch returns at most the deposit, and exactly the deposit at a
/// one-to-one exchange rate.  The hub keeps rounding dust, so the pool
/// never pays out more than came in.
pub proof fn lemma_bond_unbond_round_trip(supply: u128, deposit: u128, bonded: u128)
    requires
        supply > 0,
        bonded > 0,
        spec_mint_amount(supply, deposit, bonded) <= u128::MAX,
        supply + spec_mint_amount(supply, deposit, bonded) <= u128::MAX,
        bonded + deposit <= u128::MAX,
    ensures
        ({
            let m = spec_mint_amount(supply, deposit, bonded);
            let back = spec_unbond_amount(
                (supply + m) as u128,
                m as u128,
                (bonded + deposit) as u128,
            );
            back <= deposit && (supply == bonded ==> back == deposit)
        }),
{
    let d = deposit as int;
    let sp = supply as int;
    let b = bonded as int;
    let m = spec_mint_amount(supply, deposit, bonded);
    lemma_mul_nonnegative(d, sp);
    lemma_div_mul_le(d * sp, b);
    lemma_div_pos_is_pos(d * sp, b);
    assert(m * b <= d * sp);
    let back = spec_unbond_amount((supply + m) as u128, m as u128, (bonded + deposit) as u128);
    assert((b + d) * m <= d * (sp + m)) by {
        lemma_mul_is_distributive_add_other_way(m, b, d);
        lemma_mul_is_distributive_add(d, sp, m);
        lemma_mul_is_commutative(m, b);
        lemma_mul_is_commutative(d, m);
        lemma_mul_is_commutative(m, d);
    }
    assert(back <= d) by {
        lemma_div_is_ordered((b + d) * m, d * (sp + m), sp + m);
        lemma_mul_is_commutative(d, sp + m);
        lemma_div_multiples_vanish(d, sp + m);
    }
    if supply == bonded {
        assert(m == d) by {
            lemma_mul_is_commutative(d, b);
            lemma_div_multiples_vanish(d, b);
        }
        assert(back == d) by {
            lemma_mul_is_commutative(b + d, d);
            lemma_div_multiples_vanish(d, b + d);
        }
    }
}

/// What one batch owes one request: the pro-rata floored share.
pub open spec fn request_refund(b: Batch, shares: u128) -> int {
    (b.utoken_unclaimed as int) * (shares as int) / (b.total_shares as int)
}

/// What one batch owes all its requests together.
pub open spec fn sum_batch_refunds(reqs: Seq<UnbondRequest>, b: Batch) -> int
    decreases reqs.len(),
{
    if reqs.len() == 0 {
        0
    } else {
        sum_batch_refunds(reqs.drop_last(), b) + if reqs.last().id == b.id {
            request_refund(b, reqs.last().shares)
        } else {
            0int
        }
    }
}

proof fn lemma_batch_refunds_bounded_by_shares(reqs: Seq<UnbondRequest>, b: Batch)
    requires
        b.total_shares > 0,
    ensures
        sum_batch_refunds(reqs, b) <= (b.utoken_unclaimed as int) * sum_request_shares(
            reqs,
            b.id,
        ) / (b.total_shares as int),
    decreases reqs.len(),
{
    let u = b.utoken_unclaimed as int;
    let t = b.total_shares as int;
    if reqs.len() == 0 {
        assert(u * 0 == 0) by (nonlinear_arith);
        lemma_div_pos_is_pos(0, t);
    } else {
        let head = reqs.drop_last();
        lemma_batch_refunds_bounded_by_shares(head, b);
        crate::batches::lemma_request_shares_nonneg(head, b.id);
        lemma_mul_nonnegative(u, sum_request_shares(head, b.id));
        if reqs.last().id == b.id {
            lemma_mul_nonnegative(u, reqs.last().shares as int);
            lemma_div_add_le(
                u * sum_request_shares(head, b.id),
                u * (reqs.last().shares as int),
                t,
            );
            lemma_mul_is_distributive_add(
                u,
                sum_request_shares(head, b.id),
                reqs.last().shares as int,
            );
        } else {
            assert(sum_request_shares(reqs, b.id) == sum_request_shares(head, b.id));
        }
    }
}

/// What all users can draw from one batch never exceeds the batch's
/// unclaimed amount, because each draw is floored and the shares sum to
/// the batch's total.
pub proof fn lemma_withdrawable_within_unclaimed(reqs: Seq<UnbondRequest>, b: Batch)
    requires
        b.total_shares > 0,
        b.total_shares == sum_request_shares(reqs, b.id),
    ensures
        sum_batch_refunds(reqs, b) <= b.utoken_unclaimed,
{
    lemma_batch_refunds_bounded_by_shares(reqs, b);
    let u = b.utoken_unclaimed as int;
    let t = b.total_shares as int;
    lemma_mul_is_commutative(u, t);
    lemma_div_multiples_vanish(u, t);
}

/// What one batch column owes all its requests together.
pub open spec fn sum_column_refunds(batches: Seq<Batch>, reqs: Seq<UnbondRequest>) -> int
    decreases batches.len(),
{
    if batches.len() == 0 {
        0
    } else {
        sum_column_refunds(batches.drop_last(), reqs) + sum_batch_refunds(reqs, batches.last())
    }
}

/// Solvency of a freshly reconciled batch set: once reconciliation has
/// shrunk the set's unclaimed total to within the bank balance less the
/// unlocked coins, everything all users can draw from the set stays
/// within that same bound.
pub proof fn lemma_reconcile_solvency(
    batches: Seq<Batch>,
    reqs: Seq<UnbondRequest>,
    actual: int,
    unlocked: int,
)
    requires
        forall|j: int|
            0 <= j < batches.len() ==> (#[trigger] batches[j]).total_shares == sum_request_shares(
                reqs,
                batches[j].id,
            ),
        forall|i: int| 0 <= i < reqs.len() ==> (#[trigger] reqs[i]).shares > 0,
        sum_unclaimed(batches) <= actual - unlocked,
    ensures
        sum_column_refunds(batches, reqs) <= actual - unlocked,
{
    lemma_column_refunds_le_unclaimed(batches, reqs);
}

proof fn lemma_column_refunds_le_unclaimed(batches: Seq<Batch>, reqs: Seq<UnbondRequest>)
    requires
        forall|j: int|
            0 <= j < batches.len() ==> (#[trigger] batches[j]).total_shares == sum_request_shares(
                reqs,
                batches[j].id,
            ),
        forall|i: int| 0 <= i < reqs.len() ==> (#[trigger] reqs[i]).shares > 0,
    ensures
        sum_column_refunds(batches, reqs) <= sum_unclaimed(batches),
    decreases batches.len(),
{
    if batches.len() > 0 {
        let head = batches.drop_last();
        assert(forall|j: int| 0 <= j < head.len() ==> head[j] == batches[j]);
        lemma_column_refunds_le_unclaimed(head, reqs);
        let b = batches.last();
        if b.total_shares > 0 {
            lemma_withdrawable_within_unclaimed(reqs, b);
        } else {
            crate::batches::lemma_no_requests_when_zero(reqs, b.id);
            lemma_batch_refunds_none(reqs, b);
        }
    }
}

proof fn lemma_batch_refunds_none(reqs: Seq<UnbondRequest>, b: Batch)
    requires
        forall|i: int| 0 <= i < reqs.len() ==> (#[trigger] reqs[i]).id != b.id,
    ensures
        sum_batch_refunds(reqs, b) == 0,
    decreases reqs.len(),
{
    if reqs.len() > 0 {
        assert(forall|i: int| 0 <= i < reqs.len() - 1 ==> reqs.drop_last()[i] == reqs[i]);
        lemma_batch_refunds_none(reqs.drop_last(), b);
    }
}

} // verus!
