//! Previous-batch bookkeeping: the unclaimed totals, reconciliation
//! marking, and the proportional allocation of a reconciliation
//! shortfall.

use vstd::prelude::*;
use vstd::arithmetic::div_mod::*;
use vstd::arithmetic::mul::*;
use crate::arith::{lemma_div_add_le, lemma_ratio_le_left, mul_ratio};
use crate::types::{Batch, UnbondRequest};

verus! {

/// Total unclaimed underlying tokens over a batch column.
pub open spec fn sum_unclaimed(s: Seq<Batch>) -> int
    decreases s.len(),
{
    if s.len() == 0 {
        0
    } else {
        sum_unclaimed(s.drop_last()) + s.last().utoken_unclaimed
    }
}

/// Pairwise distinct batch ids.
pub open spec fn uniq_batch_ids(s: Seq<Batch>) -> bool {
    forall|i: int, j: int| 0 <= i < j < s.len() ==> s[i].id != s[j].id
}

/// Total shares queued under one batch id.
pub open spec fn sum_request_shares(reqs: Seq<UnbondRequest>, id: u64) -> int
    decreases reqs.len(),
{
    if reqs.len() == 0 {
        0
    } else {
        sum_request_shares(reqs.drop_last(), id) + if reqs.last().id == id {
            reqs.last().shares as int
        } else {
            0int
        }
    }
}

/// Pairwise distinct `(batch, user)` request keys.
pub open spec fn uniq_request_keys(reqs: Seq<UnbondRequest>) -> bool {
    forall|i: int, j: int|
        0 <= i < j < reqs.len() ==> !(reqs[i].id == reqs[j].id && reqs[i].user@ == reqs[j].user@)
}

pub proof fn lemma_sum_unclaimed_nonneg(s: Seq<Batch>)
    ensures
        0 <= sum_unclaimed(s),
    decreases s.len(),
{
    if s.len() > 0 {
        lemma_sum_unclaimed_nonneg(s.drop_last());
    }
}

pub proof fn lemma_unclaimed_prefix_le(s: Seq<Batch>, k: int)
    requires
        0 <= k <= s.len(),
    ensures
        sum_unclaimed(s.subrange(0, k)) <= sum_unclaimed(s),
    decreases s.len(),
{
    if k == s.len() {
        assert(s.subrange(0, k) =~= s);
    } else {
        assert(s.drop_last().subrange(0, k) =~= s.subrange(0, k));
        lemma_unclaimed_prefix_le(s.drop_last(), k);
    }
}

pub proof fn lemma_unclaimed_elem_le_sum(s: Seq<Batch>, i: int)
    requires
        0 <= i < s.len(),
    ensures
        s[i].utoken_unclaimed <= sum_unclaimed(s),
    decreases s.len(),
{
    lemma_sum_unclaimed_nonneg(s.drop_last());
    if i < s.len() - 1 {
        lemma_unclaimed_elem_le_sum(s.drop_last(), i);
    }
}

pub proof fn lemma_request_shares_nonneg(reqs: Seq<UnbondRequest>, id: u64)
    ensures
        0 <= sum_request_shares(reqs, id),
    decreases reqs.len(),
{
    if reqs.len() > 0 {
        lemma_request_shares_nonneg(reqs.drop_last(), id);
    }
}

pub proof fn lemma_request_shares_push(reqs: Seq<UnbondRequest>, r: UnbondRequest, id: u64)
    ensures
        sum_request_shares(reqs.push(r), id) == sum_request_shares(reqs, id) + if r.id == id {
            r.shares as int
        } else {
            0int
        },
{
    assert(reqs.push(r).drop_last() =~= reqs);
    assert(reqs.push(r).last() == r);
}

pub proof fn lemma_request_shares_update(
    reqs: Seq<UnbondRequest>,
    i: int,
    r: UnbondRequest,
    id: u64,
)
    requires
        0 <= i < reqs.len(),
        r.id == reqs[i].id,
    ensures
        sum_request_shares(reqs.update(i, r), id) == sum_request_shares(reqs, id) + if r.id == id {
            r.shares - reqs[i].shares
        } else {
            0int
        },
    decreases reqs.len(),
{
    let t = reqs.update(i, r);
    if i == reqs.len() - 1 {
        assert(t.drop_last() =~= reqs.drop_last());
        assert(t.last() == r);
    } else {
        assert(t.drop_last() =~= reqs.drop_last().update(i, r));
        assert(t.last() == reqs.last());
        lemma_request_shares_update(reqs.drop_last(), i, r, id);
    }
}

/// Splitting a request column splits its per-batch share totals.
pub proof fn lemma_request_shares_concat(a: Seq<UnbondRequest>, b: Seq<UnbondRequest>, id: u64)
    ensures
        sum_request_shares(a + b, id) == sum_request_shares(a, id) + sum_request_shares(b, id),
    decreases b.len(),
{
    if b.len() == 0 {
        assert(a + b =~= a);
    } else {
        assert((a + b).drop_last() =~= a + b.drop_last());
        assert((a + b).last() == b.last());
        lemma_request_shares_concat(a, b.drop_last(), id);
    }
}

/// A column without an id holds nothing under it.
pub proof fn lemma_request_shares_no_id(reqs: Seq<UnbondRequest>, id: u64)
    requires
        forall|i: int| 0 <= i < reqs.len() ==> reqs[i].id != id,
    ensures
        sum_request_shares(reqs, id) == 0,
    decreases reqs.len(),
{
    if reqs.len() > 0 {
        assert(forall|i: int| 0 <= i < reqs.len() - 1 ==> reqs.drop_last()[i] == reqs[i]);
        lemma_request_shares_no_id(reqs.drop_last(), id);
    }
}

/// A column of positive shares that sums to zero for an id holds no
/// request for that id.
pub proof fn lemma_no_requests_when_zero(reqs: Seq<UnbondRequest>, id: u64)
    requires
        forall|i: int| 0 <= i < reqs.len() ==> reqs[i].shares > 0,
        sum_request_shares(reqs, id) == 0,
    ensures
        forall|i: int| 0 <= i < reqs.len() ==> reqs[i].id != id,
    decreases reqs.len(),
{
    if reqs.len() > 0 {
        lemma_request_shares_nonneg(reqs.drop_last(), id);
        lemma_no_requests_when_zero(reqs.drop_last(), id);
        assert(forall|i: int| 0 <= i < reqs.len() - 1 ==> reqs[i] == reqs.drop_last()[i]);
    }
}

/// One request's shares stay within its batch's total.
pub proof fn lemma_request_le_sum(reqs: Seq<UnbondRequest>, i: int)
    requires
        0 <= i < reqs.len(),
    ensures
        reqs[i].shares <= sum_request_shares(reqs, reqs[i].id),
    decreases reqs.len(),
{
    lemma_request_shares_nonneg(reqs.drop_last(), reqs[i].id);
    if i < reqs.len() - 1 {
        lemma_request_le_sum(reqs.drop_last(), i);
    }
}

/// Shares queued under one `(batch, user)` key.
pub open spec fn key_shares(reqs: Seq<UnbondRequest>, id: u64, user: Seq<char>) -> int
    decreases reqs.len(),
{
    if reqs.len() == 0 {
        0
    } else {
        key_shares(reqs.drop_last(), id, user) + if reqs.last().id == id && reqs.last().user@
            == user {
            reqs.last().shares as int
        } else {
            0int
        }
    }
}

pub proof fn lemma_key_shares_nonneg(reqs: Seq<UnbondRequest>, id: u64, user: Seq<char>)
    ensures
        0 <= key_shares(reqs, id, user),
    decreases reqs.len(),
{
    if reqs.len() > 0 {
        lemma_key_shares_nonneg(reqs.drop_last(), id, user);
    }
}

pub proof fn lemma_key_shares_push(reqs: Seq<UnbondRequest>, r: UnbondRequest, id: u64, user: Seq<char>)
    ensures
        key_shares(reqs.push(r), id, user) == key_shares(reqs, id, user) + if r.id == id && r.user@
            == user {
            r.shares as int
        } else {
            0int
        },
{
    assert(reqs.push(r).drop_last() =~= reqs);
    assert(reqs.push(r).last() == r);
}

pub proof fn lemma_key_shares_update(
    reqs: Seq<UnbondRequest>,
    i: int,
    r: UnbondRequest,
    id: u64,
    user: Seq<char>,
)
    requires
        0 <= i < reqs.len(),
        r.id == reqs[i].id,
        r.user@ == reqs[i].user@,
    ensures
        key_shares(reqs.update(i, r), id, user) == key_shares(reqs, id, user) + if r.id == id
            && r.user@ == user {
            r.shares - reqs[i].shares
        } else {
            0int
        },
    decreases reqs.len(),
{
    let t = reqs.update(i, r);
    if i == reqs.len() - 1 {
        assert(t.drop_last() =~= reqs.drop_last());
        assert(t.last() == r);
    } else {
        assert(t.drop_last() =~= reqs.drop_last().update(i, r));
        assert(t.last() == reqs.last());
        lemma_key_shares_update(reqs.drop_last(), i, r, id, user);
    }
}

pub proof fn lemma_key_shares_absent(reqs: Seq<UnbondRequest>, id: u64, user: Seq<char>)
    requires
        forall|i: int| 0 <= i < reqs.len() ==> !(reqs[i].id == id && reqs[i].user@ == user),
    ensures
        key_shares(reqs, id, user) == 0,
    decreases reqs.len(),
{
    if reqs.len() > 0 {
        assert(forall|i: int| 0 <= i < reqs.len() - 1 ==> reqs.drop_last()[i] == reqs[i]);
        lemma_key_shares_absent(reqs.drop_last(), id, user);
    }
}

pub proof fn lemma_key_shares_index(reqs: Seq<UnbondRequest>, i: int)
    requires
        uniq_request_keys(reqs),
        0 <= i < reqs.len(),
    ensures
        key_shares(reqs, reqs[i].id, reqs[i].user@) == reqs[i].shares,
    decreases reqs.len(),
{
    if i == reqs.len() - 1 {
        assert forall|j: int| 0 <= j < reqs.len() - 1 implies !(reqs.drop_last()[j].id
            == reqs[i].id && reqs.drop_last()[j].user@ == reqs[i].user@) by {
            assert(!(reqs[j].id == reqs[i].id && reqs[j].user@ == reqs[i].user@));
        }
        lemma_key_shares_absent(reqs.drop_last(), reqs[i].id, reqs[i].user@);
    } else {
        assert(uniq_request_keys(reqs.drop_last())) by {
            assert(forall|j: int| 0 <= j < reqs.len() - 1 ==> reqs.drop_last()[j] == reqs[j]);
        }
        lemma_key_shares_index(reqs.drop_last(), i);
    }
}

/// Splitting a request column splits its per-key share totals.
pub proof fn lemma_key_shares_concat(
    a: Seq<UnbondRequest>,
    b: Seq<UnbondRequest>,
    id: u64,
    user: Seq<char>,
)
    ensures
        key_shares(a + b, id, user) == key_shares(a, id, user) + key_shares(b, id, user),
    decreases b.len(),
{
    if b.len() == 0 {
        assert(a + b =~= a);
    } else {
        assert((a + b).drop_last() =~= a + b.drop_last());
        assert((a + b).last() == b.last());
        lemma_key_shares_concat(a, b.drop_last(), id, user);
    }
}

/// Find the request under one `(batch, user)` key, if any.
pub fn find_request(reqs: &Vec<UnbondRequest>, id: u64, user: &String) -> (r: Option<usize>)
    ensures
        match r {
            Some(i) => i < reqs@.len() && reqs@[i as int].id == id && reqs@[i as int].user@
                == user@,
            None => forall|i: int|
                0 <= i < reqs@.len() ==> !(reqs@[i].id == id && reqs@[i].user@ == user@),
        },
{
    let n: usize = reqs.len();
    let mut k: usize = 0;
    while k < n
        invariant
            n == reqs@.len(),
            k <= n,
            forall|i: int| 0 <= i < k ==> !(reqs@[i].id == id && reqs@[i].user@ == user@),
        decreases n - k,
    {
        if reqs[k].id == id && reqs[k].user == *user {
            return Some(k);
        }
        k += 1;
    }
    None
}

/// Total the unclaimed column of a batch vector.
pub fn sum_batches_unclaimed(bs: &Vec<Batch>) -> (r: u128)
    requires
        sum_unclaimed(bs@) <= u128::MAX,
    ensures
        r == sum_unclaimed(bs@),
{
    let n: usize = bs.len();
    let mut acc: u128 = 0;
    let mut k: usize = 0;
    proof {
        assert(bs@.subrange(0, 0) =~= Seq::<Batch>::empty());
    }
    while k < n
        invariant
            n == bs@.len(),
            k <= n,
            sum_unclaimed(bs@) <= u128::MAX,
            acc == sum_unclaimed(bs@.subrange(0, k as int)),
        decreases n - k,
    {
        proof {
            assert(bs@.subrange(0, k + 1).drop_last() =~= bs@.subrange(0, k as int));
            assert(bs@.subrange(0, k + 1).last() == bs@[k as int]);
            lemma_unclaimed_prefix_le(bs@, k + 1);
            lemma_sum_unclaimed_nonneg(bs@.subrange(0, k + 1));
        }
        acc = acc + bs[k].utoken_unclaimed;
        k += 1;
    }
    proof {
        assert(bs@.subrange(0, n as int) =~= bs@);
    }
    acc
}

/// Set the reconciled flag on every supplied batch, leaving all other
/// fields alone.
pub fn mark_reconciled_batches(batches: Vec<Batch>) -> (r: Vec<Batch>)
    ensures
        r@.len() == batches@.len(),
        forall|i: int|
            0 <= i < r@.len() ==> r@[i].id == batches@[i].id && r@[i].total_shares == batches@[
                i
            ].total_shares && r@[i].utoken_unclaimed == batches@[i].utoken_unclaimed && r@[
                i
            ].est_unbond_end_time == batches@[i].est_unbond_end_time && r@[i].reconciled,
{
    let mut bs = batches;
    let n: usize = bs.len();
    let mut k: usize = 0;
    while k < n
        invariant
            n == bs@.len(),
            n == batches@.len(),
            k <= n,
            forall|i: int|
                k <= i < n ==> bs@[i] == batches@[i],
            forall|i: int|
                0 <= i < k ==> bs@[i].id == batches@[i].id && bs@[i].total_shares == batches@[
                    i
                ].total_shares && bs@[i].utoken_unclaimed == batches@[i].utoken_unclaimed && bs@[
                    i
                ].est_unbond_end_time == batches@[i].est_unbond_end_time && bs@[i].reconciled,
        decreases n - k,
    {
        bs[k].reconciled = true;
        k += 1;
    }
    bs
}

/// The floored proportional part of the shortfall charged to one batch.
pub open spec fn floor_deduction(s: Seq<Batch>, deduct: u128, i: int) -> int {
    (deduct as int) * (s[i].utoken_unclaimed as int) / sum_unclaimed(s)
}

pub open spec fn sum_floor_deductions(s: Seq<Batch>, deduct: u128, k: int) -> int
    decreases k,
{
    if k <= 0 {
        0
    } else {
        sum_floor_deductions(s, deduct, k - 1) + floor_deduction(s, deduct, k - 1)
    }
}

/// Index of the first batch holding the largest unclaimed amount.
pub open spec fn is_first_max_batch(s: Seq<Batch>, i: int) -> bool {
    0 <= i < s.len() && (forall|j: int|
        0 <= j < s.len() ==> s[j].utoken_unclaimed <= s[i].utoken_unclaimed) && (forall|j: int|
        0 <= j < i ==> s[j].utoken_unclaimed < s[i].utoken_unclaimed)
}

pub open spec fn first_max_batch(s: Seq<Batch>) -> int {
    choose|i: int| is_first_max_batch(s, i)
}

/// What one batch is charged: its floored proportional part, plus the
/// rounding remainder if it is the first largest batch.
pub open spec fn spec_deduction(s: Seq<Batch>, deduct: u128, i: int) -> int {
    floor_deduction(s, deduct, i) + if i == first_max_batch(s) {
        deduct - sum_floor_deductions(s, deduct, s.len() as int)
    } else {
        0int
    }
}

/// The largest batch can absorb its share plus the remainder.
pub open spec fn deduction_fits(s: Seq<Batch>, deduct: u128) -> bool {
    spec_deduction(s, deduct, first_max_batch(s)) <= s[first_max_batch(s)].utoken_unclaimed
}

pub proof fn lemma_first_max_unique(s: Seq<Batch>, i: int, j: int)
    requires
        is_first_max_batch(s, i),
        is_first_max_batch(s, j),
    ensures
        i == j,
{
    if i < j {
        assert(s[i].utoken_unclaimed < s[j].utoken_unclaimed);
        assert(s[j].utoken_unclaimed <= s[i].utoken_unclaimed);
    }
    if j < i {
        assert(s[j].utoken_unclaimed < s[i].utoken_unclaimed);
        assert(s[i].utoken_unclaimed <= s[j].utoken_unclaimed);
    }
}

pub proof fn lemma_floor_deduction_bounds(s: Seq<Batch>, deduct: u128, i: int)
    requires
        0 <= i < s.len(),
        0 < sum_unclaimed(s),
        deduct <= sum_unclaimed(s),
    ensures
        0 <= floor_deduction(s, deduct, i) <= s[i].utoken_unclaimed,
{
    let t = sum_unclaimed(s);
    lemma_ratio_le_left(s[i].utoken_unclaimed as int, deduct as int, t);
    lemma_mul_is_commutative(deduct as int, s[i].utoken_unclaimed as int);
    lemma_mul_nonnegative(deduct as int, s[i].utoken_unclaimed as int);
    lemma_div_pos_is_pos((deduct as int) * (s[i].utoken_unclaimed as int), t);
}

/// The floored parts never sum past the shortfall.
pub proof fn lemma_sum_floor_le(s: Seq<Batch>, deduct: u128, k: int)
    requires
        0 <= k <= s.len(),
        0 < sum_unclaimed(s),
        deduct <= sum_unclaimed(s),
    ensures
        sum_floor_deductions(s, deduct, k) <= (deduct as int) * sum_unclaimed(s.subrange(0, k))
            / sum_unclaimed(s),
        sum_floor_deductions(s, deduct, k) <= deduct,
        0 <= sum_floor_deductions(s, deduct, k),
    decreases k,
{
    let t = sum_unclaimed(s);
    let d = deduct as int;
    if k == 0 {
        assert(s.subrange(0, 0) =~= Seq::<Batch>::empty());
        assert(d * 0 == 0) by (nonlinear_arith);
        lemma_div_pos_is_pos(0, t);
    } else {
        lemma_sum_floor_le(s, deduct, k - 1);
        let p = s.subrange(0, k);
        assert(p.drop_last() =~= s.subrange(0, k - 1));
        assert(p.last() == s[k - 1]);
        lemma_sum_unclaimed_nonneg(s.subrange(0, k - 1));
        lemma_mul_nonnegative(d, sum_unclaimed(s.subrange(0, k - 1)));
        lemma_mul_nonnegative(d, s[k - 1].utoken_unclaimed as int);
        lemma_div_add_le(
            d * sum_unclaimed(s.subrange(0, k - 1)),
            d * (s[k - 1].utoken_unclaimed as int),
            t,
        );
        lemma_mul_is_distributive_add(
            d,
            sum_unclaimed(s.subrange(0, k - 1)),
            s[k - 1].utoken_unclaimed as int,
        );
        lemma_floor_deduction_bounds(s, deduct, k - 1);
        lemma_unclaimed_prefix_le(s, k);
        lemma_sum_unclaimed_nonneg(p);
        lemma_mul_inequality(sum_unclaimed(p), t, d);
        lemma_mul_is_commutative(sum_unclaimed(p), d);
        lemma_mul_is_commutative(t, d);
        lemma_div_is_ordered(d * sum_unclaimed(p), d * t, t);
        lemma_div_multiples_vanish(d, t);
        lemma_mul_is_commutative(d, t);
    }
}

pub proof fn lemma_sum_spec_deductions(s: Seq<Batch>, deduct: u128, k: int)
    requires
        0 <= k <= s.len(),
        is_first_max_batch(s, first_max_batch(s)),
    ensures
        sum_spec_deductions(s, deduct, k) == sum_floor_deductions(s, deduct, k) + if first_max_batch(
            s,
        ) < k {
            deduct - sum_floor_deductions(s, deduct, s.len() as int)
        } else {
            0int
        },
    decreases k,
{
    if k > 0 {
        lemma_sum_spec_deductions(s, deduct, k - 1);
    }
}

pub open spec fn sum_spec_deductions(s: Seq<Batch>, deduct: u128, k: int) -> int
    decreases k,
{
    if k <= 0 {
        0
    } else {
        sum_spec_deductions(s, deduct, k - 1) + spec_deduction(s, deduct, k - 1)
    }
}

/// Allocate a shortfall across batches in proportion to each batch's
/// unclaimed amount, floored, with the rounding remainder charged to
/// the first largest batch; mark every batch reconciled.  The charges
/// sum to exactly the shortfall, and no batch's unclaimed amount grows.
pub fn reconcile_batches(batches: Vec<Batch>, utoken_to_deduct: u128) -> (r: Vec<Batch>)
    requires
        batches@.len() > 0,
        0 < sum_unclaimed(batches@),
        sum_unclaimed(batches@) <= u128::MAX,
        utoken_to_deduct <= sum_unclaimed(batches@),
        deduction_fits(batches@, utoken_to_deduct),
    ensures
        r@.len() == batches@.len(),
        forall|i: int|
            0 <= i < r@.len() ==> r@[i].id == batches@[i].id && r@[i].total_shares == batches@[
                i
            ].total_shares && r@[i].est_unbond_end_time == batches@[i].est_unbond_end_time && r@[
                i
            ].reconciled,
        forall|i: int|
            0 <= i < r@.len() ==> r@[i].utoken_unclaimed == batches@[i].utoken_unclaimed
                - spec_deduction(batches@, utoken_to_deduct, i) && r@[i].utoken_unclaimed
                <= batches@[i].utoken_unclaimed,
        sum_unclaimed(r@) == sum_unclaimed(batches@) - utoken_to_deduct,
{
    let ghost orig = batches@;
    let mut bs = batches;
    let n: usize = bs.len();

    let mut total: u128 = 0;
    let mut k: usize = 0;
    proof {
        assert(orig.subrange(0, 0) =~= Seq::<Batch>::empty());
    }
    while k < n
        invariant
            n == bs@.len(),
            bs@ == orig,
            k <= n,
            sum_unclaimed(orig) <= u128::MAX,
            total == sum_unclaimed(orig.subrange(0, k as int)),
        decreases n - k,
    {
        proof {
            assert(orig.subrange(0, k + 1).drop_last() =~= orig.subrange(0, k as int));
            assert(orig.subrange(0, k + 1).last() == orig[k as int]);
            lemma_unclaimed_prefix_le(orig, k + 1);
            lemma_sum_unclaimed_nonneg(orig.subrange(0, k + 1));
        }
        total = total + bs[k].utoken_unclaimed;
        k += 1;
    }
    proof {
        assert(orig.subrange(0, n as int) =~= orig);
    }

    let mut big: usize = 0;
    let mut k2: usize = 1;
    while k2 < n
        invariant
            n == bs@.len(),
            bs@ == orig,
            1 <= k2 <= n,
            big < k2,
            forall|j: int| 0 <= j < k2 ==> orig[j].utoken_unclaimed <= orig[big as int].utoken_unclaimed,
            forall|j: int| 0 <= j < big ==> orig[j].utoken_unclaimed < orig[big as int].utoken_unclaimed,
        decreases n - k2,
    {
        if bs[k2].utoken_unclaimed > bs[big].utoken_unclaimed {
            big = k2;
        }
        k2 += 1;
    }
    proof {
        assert(is_first_max_batch(orig, big as int));
        lemma_first_max_unique(orig, big as int, first_max_batch(orig));
    }

    let mut sum_d: u128 = 0;
    let mut k3: usize = 0;
    while k3 < n
        invariant
            n == bs@.len(),
            bs@ == orig,
            k3 <= n,
            0 < sum_unclaimed(orig) <= u128::MAX,
            utoken_to_deduct <= sum_unclaimed(orig),
            total == sum_unclaimed(orig),
            sum_d == sum_floor_deductions(orig, utoken_to_deduct, k3 as int),
        decreases n - k3,
    {
        proof {
            lemma_floor_deduction_bounds(orig, utoken_to_deduct, k3 as int);
            lemma_unclaimed_elem_le_sum(orig, k3 as int);
            lemma_sum_floor_le(orig, utoken_to_deduct, k3 + 1);
        }
        let d: u128 = mul_ratio(utoken_to_deduct, bs[k3].utoken_unclaimed, total);
        sum_d = sum_d + d;
        k3 += 1;
    }
    proof {
        lemma_sum_floor_le(orig, utoken_to_deduct, n as int);
    }
    let remainder: u128 = utoken_to_deduct - sum_d;

    let mut k4: usize = 0;
    while k4 < n
        invariant
            n == bs@.len(),
            n == orig.len(),
            k4 <= n,
            0 < sum_unclaimed(orig) <= u128::MAX,
            utoken_to_deduct <= sum_unclaimed(orig),
            total == sum_unclaimed(orig),
            remainder == utoken_to_deduct - sum_floor_deductions(orig, utoken_to_deduct, n as int),
            big < n,
            big as int == first_max_batch(orig),
            is_first_max_batch(orig, big as int),
            deduction_fits(orig, utoken_to_deduct),
            forall|i: int| k4 <= i < n ==> bs@[i] == orig[i],
            forall|i: int|
                0 <= i < k4 ==> bs@[i].id == orig[i].id && bs@[i].total_shares == orig[
                    i
                ].total_shares && bs@[i].est_unbond_end_time == orig[i].est_unbond_end_time && bs@[
                    i
                ].reconciled && bs@[i].utoken_unclaimed == orig[i].utoken_unclaimed
                    - spec_deduction(orig, utoken_to_deduct, i),
        decreases n - k4,
    {
        proof {
            lemma_floor_deduction_bounds(orig, utoken_to_deduct, k4 as int);
            lemma_unclaimed_elem_le_sum(orig, k4 as int);
            lemma_sum_floor_le(orig, utoken_to_deduct, n as int);
        }
        let mut d: u128 = mul_ratio(utoken_to_deduct, bs[k4].utoken_unclaimed, total);
        if k4 == big {
            d = d + remainder;
        }
        proof {
            assert(d == spec_deduction(orig, utoken_to_deduct, k4 as int));
        }
        let shrunk: u128 = bs[k4].utoken_unclaimed - d;
        bs[k4].utoken_unclaimed = shrunk;
        bs[k4].reconciled = true;
        k4 += 1;
    }
    proof {
        lemma_sum_sub_deductions(orig, bs@, utoken_to_deduct, n as int);
        assert(bs@.subrange(0, n as int) =~= bs@);
        assert(orig.subrange(0, n as int) =~= orig);
        lemma_sum_spec_deductions(orig, utoken_to_deduct, n as int);
    }
    bs
}

/// Pointwise charges subtract from the column total.
proof fn lemma_sum_sub_deductions(orig: Seq<Batch>, done: Seq<Batch>, deduct: u128, k: int)
    requires
        orig.len() == done.len(),
        0 <= k <= orig.len(),
        forall|i: int|
            0 <= i < orig.len() ==> done[i].utoken_unclaimed == orig[i].utoken_unclaimed
                - spec_deduction(orig, deduct, i),
    ensures
        sum_unclaimed(done.subrange(0, k)) == sum_unclaimed(orig.subrange(0, k))
            - sum_spec_deductions(orig, deduct, k),
    decreases k,
{
    if k == 0 {
        assert(done.subrange(0, 0) =~= Seq::<Batch>::empty());
        assert(orig.subrange(0, 0) =~= Seq::<Batch>::empty());
    } else {
        lemma_sum_sub_deductions(orig, done, deduct, k - 1);
        assert(done.subrange(0, k).drop_last() =~= done.subrange(0, k - 1));
        assert(orig.subrange(0, k).drop_last() =~= orig.subrange(0, k - 1));
        assert(done.subrange(0, k).last() == done[k - 1]);
        assert(orig.subrange(0, k).last() == orig[k - 1]);
    }
}

/// Whether a batch is matured and still unreconciled at a given time.
pub open spec fn matured_at(b: Batch, now: u64) -> bool {
    !b.reconciled && now > b.est_unbond_end_time
}

/// The matured, unreconciled batches, in order.
pub open spec fn matured_of(s: Seq<Batch>, now: u64) -> Seq<Batch>
    decreases s.len(),
{
    if s.len() == 0 {
        Seq::<Batch>::empty()
    } else if matured_at(s.last(), now) {
        matured_of(s.drop_last(), now).push(s.last())
    } else {
        matured_of(s.drop_last(), now)
    }
}

/// Position of a batch within the matured subsequence: how many
/// matured, unreconciled batches precede it.
pub open spec fn matured_index(s: Seq<Batch>, now: u64, i: int) -> int {
    matured_of(s.subrange(0, i), now).len() as int
}

/// A zero shortfall charges nothing anywhere.
pub proof fn lemma_spec_deduction_zero(s: Seq<Batch>, i: int)
    requires
        0 <= i < s.len(),
        0 < sum_unclaimed(s),
    ensures
        spec_deduction(s, 0, i) == 0,
{
    lemma_floor_zero(s, i);
    lemma_sum_floor_zero(s, s.len() as int);
}

proof fn lemma_floor_zero(s: Seq<Batch>, i: int)
    requires
        0 <= i < s.len(),
        0 < sum_unclaimed(s),
    ensures
        floor_deduction(s, 0, i) == 0,
{
    lemma_div_of0(sum_unclaimed(s));
}

proof fn lemma_sum_floor_zero(s: Seq<Batch>, k: int)
    requires
        0 <= k <= s.len(),
        0 < sum_unclaimed(s),
    ensures
        sum_floor_deductions(s, 0, k) == 0,
    decreases k,
{
    if k > 0 {
        lemma_sum_floor_zero(s, k - 1);
        lemma_floor_zero(s, k - 1);
    }
}

/// Columns with the same unclaimed amounts have the same total.
pub proof fn lemma_sum_unclaimed_pointwise(a: Seq<Batch>, b: Seq<Batch>)
    requires
        a.len() == b.len(),
        forall|i: int| 0 <= i < a.len() ==> a[i].utoken_unclaimed == b[i].utoken_unclaimed,
    ensures
        sum_unclaimed(a) == sum_unclaimed(b),
    decreases a.len(),
{
    if a.len() > 0 {
        assert(forall|i: int| 0 <= i < a.len() - 1 ==> a.drop_last()[i] == a[i]);
        assert(forall|i: int| 0 <= i < b.len() - 1 ==> b.drop_last()[i] == b[i]);
        lemma_sum_unclaimed_pointwise(a.drop_last(), b.drop_last());
    }
}

/// Replacing the entries at increasing positions moves the column total
/// by the difference of the replaced and replacing totals.
pub proof fn lemma_sum_patch(
    old_col: Seq<Batch>,
    new_col: Seq<Batch>,
    pos: Seq<usize>,
    m: Seq<Batch>,
    rc: Seq<Batch>,
)
    requires
        old_col.len() == new_col.len(),
        pos.len() == m.len(),
        m.len() == rc.len(),
        forall|a: int| 0 <= a < pos.len() ==> (#[trigger] pos[a]) < old_col.len(),
        forall|a: int, b: int| 0 <= a < b < pos.len() ==> pos[a] < pos[b],
        forall|a: int|
            0 <= a < pos.len() ==> old_col[#[trigger] pos[a] as int] == m[a] && new_col[
                pos[a] as int
            ] == rc[a],
        forall|j: int|
            0 <= j < old_col.len() && (forall|a: int| 0 <= a < pos.len() ==> (#[trigger] pos[a])
                != j) ==> new_col[j] == old_col[j],
    ensures
        sum_unclaimed(new_col) == sum_unclaimed(old_col) - sum_unclaimed(m) + sum_unclaimed(rc),
    decreases old_col.len(),
{
    if old_col.len() == 0 {
        assert(pos.len() == 0) by {
            if pos.len() > 0 {
                assert(pos[0] < old_col.len());
            }
        }
        assert(m =~= Seq::<Batch>::empty());
        assert(rc =~= Seq::<Batch>::empty());
    } else {
        let n = old_col.len() - 1;
        if pos.len() > 0 && pos.last() == n {
            let pos2 = pos.drop_last();
            let m2 = m.drop_last();
            let rc2 = rc.drop_last();
            assert forall|j: int|
                0 <= j < old_col.drop_last().len() && (forall|a: int|
                    0 <= a < pos2.len() ==> (#[trigger] pos2[a]) != j) implies
                new_col.drop_last()[j] == old_col.drop_last()[j] by {
                assert forall|a: int| 0 <= a < pos.len() implies (#[trigger] pos[a]) != j by {
                    if a < pos.len() - 1 {
                        assert(pos2[a] == pos[a]);
                    }
                }
                assert(new_col[j] == old_col[j]);
            }
            assert(forall|a: int|
                0 <= a < pos2.len() ==> old_col.drop_last()[#[trigger] pos2[a] as int] == m2[a]
                    && new_col.drop_last()[pos2[a] as int] == rc2[a]) by {
                assert(forall|a: int|
                    0 <= a < pos2.len() ==> pos2[a] == pos[a] && (pos[a] as int) < n);
            }
            lemma_sum_patch(old_col.drop_last(), new_col.drop_last(), pos2, m2, rc2);
            assert(old_col.last() == m.last());
            assert(new_col.last() == rc.last());
        } else {
            assert forall|a: int| 0 <= a < pos.len() implies (#[trigger] pos[a]) != n by {
                if a < pos.len() - 1 {
                    assert(pos[a] < pos[pos.len() - 1]);
                }
            }
            assert(new_col[n as int] == old_col[n as int]);
            assert(forall|a: int|
                0 <= a < pos.len() ==> old_col.drop_last()[#[trigger] pos[a] as int] == m[a]
                    && new_col.drop_last()[pos[a] as int] == rc[a]) by {
                assert forall|a: int| 0 <= a < pos.len() implies (pos[a] as int) < n by {
                    assert(pos[a] != n);
                }
            }
            assert forall|j: int|
                0 <= j < old_col.drop_last().len() && (forall|a: int|
                    0 <= a < pos.len() ==> (#[trigger] pos[a]) != j) implies
                new_col.drop_last()[j] == old_col.drop_last()[j] by {
                assert(new_col[j] == old_col[j]);
            }
            lemma_sum_patch(old_col.drop_last(), new_col.drop_last(), pos, m, rc);
        }
    }
}

/// Whether some batch carries this id.
pub open spec fn has_batch(s: Seq<Batch>, id: u64) -> bool {
    exists|j: int| 0 <= j < s.len() && s[j].id == id
}

/// The batch under an id, if any; well defined when ids are distinct.
pub open spec fn batch_of(s: Seq<Batch>, id: u64) -> Option<Batch> {
    if has_batch(s, id) {
        Some(s[choose|j: int| 0 <= j < s.len() && s[j].id == id])
    } else {
        None
    }
}

pub proof fn lemma_batch_of_index(s: Seq<Batch>, j: int)
    requires
        uniq_batch_ids(s),
        0 <= j < s.len(),
    ensures
        batch_of(s, s[j].id) == Some(s[j]),
{
    let j2 = choose|i: int| 0 <= i < s.len() && s[i].id == s[j].id;
    if j2 != j {
        assert(s[j2].id != s[j].id);
    }
}

pub proof fn lemma_batch_of_update(s: Seq<Batch>, j: int, b: Batch, id0: u64)
    requires
        uniq_batch_ids(s),
        0 <= j < s.len(),
        b.id == s[j].id,
    ensures
        batch_of(s.update(j, b), id0) == (if id0 == b.id {
            Some(b)
        } else {
            batch_of(s, id0)
        }),
{
    let t = s.update(j, b);
    assert(uniq_batch_ids(t)) by {
        assert(forall|i: int| 0 <= i < s.len() ==> t[i].id == s[i].id);
    }
    if id0 == b.id {
        lemma_batch_of_index(t, j);
    } else {
        if has_batch(s, id0) {
            let i = choose|i: int| 0 <= i < s.len() && s[i].id == id0;
            assert(t[i].id == id0);
            lemma_batch_of_index(t, i);
            lemma_batch_of_index(s, i);
        } else {
            assert(!has_batch(t, id0)) by {
                assert(forall|i: int| 0 <= i < s.len() ==> t[i].id == s[i].id);
            }
        }
    }
}

pub proof fn lemma_batch_of_remove(s: Seq<Batch>, j: int, id0: u64)
    requires
        uniq_batch_ids(s),
        0 <= j < s.len(),
    ensures
        id0 != s[j].id ==> batch_of(s.remove(j), id0) == batch_of(s, id0),
        batch_of(s.remove(j), s[j].id) is None,
        uniq_batch_ids(s.remove(j)),
    decreases s.len(),
{
    let t = s.remove(j);
    assert(forall|i: int| 0 <= i < j ==> t[i] == s[i]);
    assert(forall|i: int| j <= i < t.len() ==> t[i] == s[i + 1]);
    assert(uniq_batch_ids(t)) by {
        assert forall|a: int, b: int| 0 <= a < b < t.len() implies t[a].id != t[b].id by {
            let a0 = if a < j { a } else { a + 1 };
            let b0 = if b < j { b } else { b + 1 };
            assert(t[a] == s[a0] && t[b] == s[b0]);
            assert(s[a0].id != s[b0].id);
        }
    }
    assert(batch_of(t, s[j].id) is None) by {
        if has_batch(t, s[j].id) {
            let i = choose|i: int| 0 <= i < t.len() && t[i].id == s[j].id;
            let i0 = if i < j { i } else { i + 1 };
            assert(s[i0].id == s[j].id && i0 != j);
            assert(s[i0].id != s[j].id);
        }
    }
    if id0 != s[j].id {
        if has_batch(s, id0) {
            let i = choose|i: int| 0 <= i < s.len() && s[i].id == id0;
            assert(i != j);
            let i2 = if i < j { i } else { i - 1 };
            assert(t[i2] == s[i]);
            lemma_batch_of_index(t, i2);
            lemma_batch_of_index(s, i);
        } else {
            assert(!has_batch(t, id0)) by {
                if has_batch(t, id0) {
                    let i = choose|i: int| 0 <= i < t.len() && t[i].id == id0;
                    let i0 = if i < j { i } else { i + 1 };
                    assert(s[i0].id == id0);
                }
            }
        }
    }
}

pub proof fn lemma_sum_unclaimed_update(s: Seq<Batch>, j: int, b: Batch)
    requires
        0 <= j < s.len(),
    ensures
        sum_unclaimed(s.update(j, b)) == sum_unclaimed(s) - s[j].utoken_unclaimed
            + b.utoken_unclaimed,
    decreases s.len(),
{
    let t = s.update(j, b);
    if j == s.len() - 1 {
        assert(t.drop_last() =~= s.drop_last());
        assert(t.last() == b);
    } else {
        assert(t.drop_last() =~= s.drop_last().update(j, b));
        assert(t.last() == s.last());
        lemma_sum_unclaimed_update(s.drop_last(), j, b);
    }
}

pub proof fn lemma_sum_unclaimed_remove(s: Seq<Batch>, j: int)
    requires
        0 <= j < s.len(),
    ensures
        sum_unclaimed(s.remove(j)) == sum_unclaimed(s) - s[j].utoken_unclaimed,
    decreases s.len(),
{
    let t = s.remove(j);
    if j == s.len() - 1 {
        assert(t =~= s.drop_last());
    } else {
        assert(t.drop_last() =~= s.drop_last().remove(j));
        assert(t.last() == s.last());
        lemma_sum_unclaimed_remove(s.drop_last(), j);
    }
}

/// Find the batch carrying an id, if any.
pub fn find_batch(batches: &Vec<Batch>, id: u64) -> (r: Option<usize>)
    ensures
        match r {
            Some(j) => j < batches@.len() && batches@[j as int].id == id,
            None => !has_batch(batches@, id),
        },
{
    let n: usize = batches.len();
    let mut k: usize = 0;
    while k < n
        invariant
            n == batches@.len(),
            k <= n,
            forall|i: int| 0 <= i < k ==> batches@[i].id != id,
        decreases n - k,
    {
        if batches[k].id == id {
            return Some(k);
        }
        k += 1;
    }
    None
}

/// Whether an id's batch is reconciled and past its unbonding window.
pub open spec fn withdrawable_batch(s: Seq<Batch>, id: u64, now: u64) -> bool {
    match batch_of(s, id) {
        Some(b) => b.reconciled && b.est_unbond_end_time < now,
        None => false,
    }
}

/// What one request can draw: its pro-rata floored share of its batch's
/// unclaimed amount, once the batch is reconciled and matured.
pub open spec fn refund_of(s: Seq<Batch>, rq: UnbondRequest, now: u64) -> int {
    if withdrawable_batch(s, rq.id, now) {
        let b = batch_of(s, rq.id)->Some_0;
        (b.utoken_unclaimed as int) * (rq.shares as int) / (b.total_shares as int)
    } else {
        0
    }
}

/// A batch after one settled request is taken out of it: the shares
/// leave, the pro-rata floored payout leaves the unclaimed amount, and
/// a batch whose shares are exhausted is deleted.
pub open spec fn spec_after_withdraw(b: Batch, ks: int) -> Option<Batch> {
    if ks == b.total_shares {
        None
    } else {
        Some(
            Batch {
                id: b.id,
                total_shares: (b.total_shares - ks) as u128,
                utoken_unclaimed: (b.utoken_unclaimed - (b.utoken_unclaimed as int) * ks / (
                b.total_shares as int)) as u128,
                est_unbond_end_time: b.est_unbond_end_time,
                reconciled: b.reconciled,
            },
        )
    }
}

/// Everything a user can draw across batches.
pub open spec fn spec_user_refund(
    reqs: Seq<UnbondRequest>,
    batches: Seq<Batch>,
    user: Seq<char>,
    now: u64,
) -> int
    decreases reqs.len(),
{
    if reqs.len() == 0 {
        0
    } else {
        spec_user_refund(reqs.drop_last(), batches, user, now) + if reqs.last().user@ == user {
            refund_of(batches, reqs.last(), now)
        } else {
            0int
        }
    }
}

/// The user-refund total grows request by request, front to back.
pub proof fn lemma_user_refund_step(
    reqs: Seq<UnbondRequest>,
    batches: Seq<Batch>,
    user: Seq<char>,
    now: u64,
    k: int,
)
    requires
        0 <= k < reqs.len(),
    ensures
        spec_user_refund(reqs.subrange(0, k + 1), batches, user, now) == spec_user_refund(
            reqs.subrange(0, k),
            batches,
            user,
            now,
        ) + if reqs[k].user@ == user {
            refund_of(batches, reqs[k], now)
        } else {
            0int
        },
{
    assert(reqs.subrange(0, k + 1).drop_last() =~= reqs.subrange(0, k));
    assert(reqs.subrange(0, k + 1).last() == reqs[k]);
}

} // verus!
