//! The per-validator delegation ledger.
//!
//! The ledger is the hub's authoritative map from validator to bonded
//! amount, kept as a vector of [`Delegation`] entries with pairwise
//! distinct validators.  Deltas are applied builder-style: each
//! operation returns the new ledger value and the caller persists it.
//! Entries that reach zero are retained.

use vstd::prelude::*;
use vstd::arithmetic::div_mod::*;
use crate::types::{Delegation, HubError, Redelegation, Undelegation};

verus! {

/// Total amount over all entries.
pub open spec fn sum_amounts(s: Seq<Delegation>) -> int
    decreases s.len(),
{
    if s.len() == 0 {
        0
    } else {
        sum_amounts(s.drop_last()) + s.last().amount
    }
}

/// Total amount over an undelegation list.
pub open spec fn sum_undelegations(s: Seq<Undelegation>) -> int
    decreases s.len(),
{
    if s.len() == 0 {
        0
    } else {
        sum_undelegations(s.drop_last()) + s.last().amount
    }
}

/// No validator appears twice.
pub open spec fn uniq_validators(s: Seq<Delegation>) -> bool {
    forall|i: int, j: int|
        0 <= i < j < s.len() ==> s[i].validator@ != s[j].validator@
}

/// Whether some entry names this validator.
pub open spec fn has_validator(s: Seq<Delegation>, v: Seq<char>) -> bool {
    exists|i: int| 0 <= i < s.len() && s[i].validator@ == v
}

/// Total amount over the entries naming this validator; with distinct
/// validators this is the validator's single entry, or zero if absent.
pub open spec fn amount_of(s: Seq<Delegation>, v: Seq<char>) -> int
    decreases s.len(),
{
    if s.len() == 0 {
        0
    } else if s.last().validator@ == v {
        amount_of(s.drop_last(), v) + s.last().amount
    } else {
        amount_of(s.drop_last(), v)
    }
}

pub proof fn lemma_sum_nonneg(s: Seq<Delegation>)
    ensures
        0 <= sum_amounts(s),
    decreases s.len(),
{
    if s.len() > 0 {
        lemma_sum_nonneg(s.drop_last());
    }
}

pub proof fn lemma_sum_push(s: Seq<Delegation>, d: Delegation)
    ensures
        sum_amounts(s.push(d)) == sum_amounts(s) + d.amount,
{
    assert(s.push(d).drop_last() =~= s);
    assert(s.push(d).last() == d);
}

pub proof fn lemma_sum_update(s: Seq<Delegation>, i: int, d: Delegation)
    requires
        0 <= i < s.len(),
    ensures
        sum_amounts(s.update(i, d)) == sum_amounts(s) - s[i].amount + d.amount,
    decreases s.len(),
{
    let t = s.update(i, d);
    if i == s.len() - 1 {
        assert(t.drop_last() =~= s.drop_last());
        assert(t.last() == d);
    } else {
        assert(t.drop_last() =~= s.drop_last().update(i, d));
        assert(t.last() == s.last());
        lemma_sum_update(s.drop_last(), i, d);
    }
}

pub proof fn lemma_elem_le_sum(s: Seq<Delegation>, i: int)
    requires
        0 <= i < s.len(),
    ensures
        s[i].amount <= sum_amounts(s),
    decreases s.len(),
{
    lemma_sum_nonneg(s.drop_last());
    if i == s.len() - 1 {
    } else {
        lemma_elem_le_sum(s.drop_last(), i);
    }
}

pub proof fn lemma_amount_of_nonneg(s: Seq<Delegation>, v: Seq<char>)
    ensures
        0 <= amount_of(s, v),
    decreases s.len(),
{
    if s.len() > 0 {
        lemma_amount_of_nonneg(s.drop_last(), v);
    }
}

/// With distinct validators, the amount of an entry's validator is that
/// entry's amount.
pub proof fn lemma_amount_of_index(s: Seq<Delegation>, i: int)
    requires
        uniq_validators(s),
        0 <= i < s.len(),
    ensures
        amount_of(s, s[i].validator@) == s[i].amount,
    decreases s.len(),
{
    if i == s.len() - 1 {
        lemma_amount_of_absent(s.drop_last(), s[i].validator@);
    } else {
        lemma_amount_of_index(s.drop_last(), i);
    }
}

pub proof fn lemma_amount_of_absent(s: Seq<Delegation>, v: Seq<char>)
    requires
        !has_validator(s, v),
    ensures
        amount_of(s, v) == 0,
    decreases s.len(),
{
    if s.len() > 0 {
        assert(!has_validator(s.drop_last(), v)) by {
            assert(forall|i: int|
                0 <= i < s.len() - 1 ==> s.drop_last()[i] == s[i]);
        }
        lemma_amount_of_absent(s.drop_last(), v);
    }
}

/// Updating one entry's amount moves `amount_of` for its validator and
/// leaves every other validator's amount alone.
pub proof fn lemma_amount_of_update(s: Seq<Delegation>, i: int, d: Delegation, v: Seq<char>)
    requires
        0 <= i < s.len(),
        d.validator@ == s[i].validator@,
    ensures
        amount_of(s.update(i, d), v) == if v == d.validator@ {
            amount_of(s, v) - s[i].amount + d.amount
        } else {
            amount_of(s, v)
        },
    decreases s.len(),
{
    let t = s.update(i, d);
    if i == s.len() - 1 {
        assert(t.drop_last() =~= s.drop_last());
        assert(t.last() == d);
    } else {
        assert(t.drop_last() =~= s.drop_last().update(i, d));
        assert(t.last() == s.last());
        lemma_amount_of_update(s.drop_last(), i, d, v);
    }
}

pub proof fn lemma_amount_of_push(s: Seq<Delegation>, d: Delegation, v: Seq<char>)
    ensures
        amount_of(s.push(d), v) == if v == d.validator@ {
            amount_of(s, v) + d.amount
        } else {
            amount_of(s, v)
        },
{
    assert(s.push(d).drop_last() =~= s);
    assert(s.push(d).last() == d);
}

/// Find the entry for a validator, if any.
pub fn find_validator(ds: &Vec<Delegation>, v: &String) -> (r: Option<usize>)
    ensures
        match r {
            Some(i) => i < ds@.len() && ds@[i as int].validator@ == v@,
            None => !has_validator(ds@, v@),
        },
{
    let n: usize = ds.len();
    let mut k: usize = 0;
    while k < n
        invariant
            n == ds@.len(),
            k <= n,
            forall|i: int| 0 <= i < k ==> ds@[i].validator@ != v@,
        decreases n - k,
    {
        if ds[k].validator == *v {
            return Some(k);
        }
        k += 1;
    }
    None
}

/// Effect of one undelegation entry: the named validator's entry is
/// decremented, short balances and unknown validators fail.
pub open spec fn spec_undelegate_one(s: Seq<Delegation>, u: Undelegation) -> Result<
    Seq<Delegation>,
    HubError,
> {
    if !has_validator(s, u.validator@) {
        Err(HubError::ValidatorNotFound)
    } else {
        let i = choose|i: int| 0 <= i < s.len() && s[i].validator@ == u.validator@;
        if s[i].amount < u.amount {
            Err(HubError::InsufficientBalance)
        } else {
            Ok(
                s.update(
                    i,
                    Delegation {
                        validator: s[i].validator,
                        amount: (s[i].amount - u.amount) as u128,
                    },
                ),
            )
        }
    }
}

/// Effect of an undelegation list, applied front to back, stopping at
/// the first failure.
pub open spec fn spec_undelegate_seq(s: Seq<Delegation>, us: Seq<Undelegation>) -> Result<
    Seq<Delegation>,
    HubError,
>
    decreases us.len(),
{
    if us.len() == 0 {
        Ok(s)
    } else {
        match spec_undelegate_one(s, us[0]) {
            Ok(s2) => spec_undelegate_seq(s2, us.subrange(1, us.len() as int)),
            Err(e) => Err(e),
        }
    }
}

pub proof fn lemma_sum_und_first(us: Seq<Undelegation>)
    requires
        us.len() > 0,
    ensures
        sum_undelegations(us) == us[0].amount + sum_undelegations(
            us.subrange(1, us.len() as int),
        ),
    decreases us.len(),
{
    if us.len() == 1 {
        assert(us.subrange(1, 1) =~= Seq::<Undelegation>::empty());
        assert(us.drop_last() =~= Seq::<Undelegation>::empty());
    } else {
        let tail = us.subrange(1, us.len() as int);
        assert(us.drop_last() =~= us.subrange(0, us.len() - 1));
        lemma_sum_und_first(us.drop_last());
        assert(us.drop_last().subrange(1, us.len() - 1) =~= tail.drop_last());
        assert(tail.last() == us.last());
        assert(us.drop_last()[0] == us[0]);
    }
}

pub proof fn lemma_sum_und_prefix_le(us: Seq<Undelegation>, k: int)
    requires
        0 <= k <= us.len(),
    ensures
        sum_undelegations(us.subrange(0, k)) <= sum_undelegations(us),
    decreases us.len(),
{
    if k == us.len() {
        assert(us.subrange(0, k) =~= us);
    } else {
        assert(us.drop_last().subrange(0, k) =~= us.subrange(0, k));
        lemma_sum_und_prefix_le(us.drop_last(), k);
    }
}

pub proof fn lemma_sum_und_nonneg(us: Seq<Undelegation>)
    ensures
        0 <= sum_undelegations(us),
    decreases us.len(),
{
    if us.len() > 0 {
        lemma_sum_und_nonneg(us.drop_last());
    }
}

/// A successful undelegation list keeps the validator column and drops
/// the total by exactly the list's sum.
pub proof fn lemma_spec_undelegate_seq_props(s: Seq<Delegation>, us: Seq<Undelegation>)
    requires
        uniq_validators(s),
        spec_undelegate_seq(s, us) is Ok,
    ensures
        ({
            let t = spec_undelegate_seq(s, us)->Ok_0;
            t.len() == s.len() && (forall|i: int|
                0 <= i < s.len() ==> t[i].validator == s[i].validator) && uniq_validators(t)
                && sum_amounts(t) == sum_amounts(s) - sum_undelegations(us)
        }),
    decreases us.len(),
{
    if us.len() == 0 {
    } else {
        let step = spec_undelegate_one(s, us[0]);
        let s2 = step->Ok_0;
        let i = choose|i: int| 0 <= i < s.len() && s[i].validator@ == us[0].validator@;
        lemma_sum_update(
            s,
            i,
            Delegation {
                validator: s[i].validator,
                amount: (s[i].amount - us[0].amount) as u128,
            },
        );
        assert(uniq_validators(s2)) by {
            assert(forall|k: int| 0 <= k < s.len() ==> s2[k].validator == s[k].validator);
        }
        lemma_spec_undelegate_seq_props(s2, us.subrange(1, us.len() as int));
        lemma_sum_und_first(us);
    }
}

/// Distinct validators each backed by a sufficient ledger balance make
/// the whole list succeed.
pub proof fn lemma_spec_undelegate_seq_ok(s: Seq<Delegation>, us: Seq<Undelegation>)
    requires
        uniq_validators(s),
        forall|a: int, b: int|
            0 <= a < b < us.len() ==> us[a].validator@ != us[b].validator@,
        forall|a: int|
            0 <= a < us.len() ==> has_validator(s, us[a].validator@) && us[a].amount
                <= amount_of(s, us[a].validator@),
    ensures
        spec_undelegate_seq(s, us) is Ok,
    decreases us.len(),
{
    if us.len() > 0 {
        let v = us[0].validator@;
        let i = choose|i: int| 0 <= i < s.len() && s[i].validator@ == v;
        lemma_amount_of_index(s, i);
        let d2 = Delegation { validator: s[i].validator, amount: (s[i].amount - us[0].amount) as u128 };
        let s2 = s.update(i, d2);
        assert(spec_undelegate_one(s, us[0]) == Ok::<Seq<Delegation>, HubError>(s2));
        assert(uniq_validators(s2)) by {
            assert(forall|k: int| 0 <= k < s.len() ==> s2[k].validator == s[k].validator);
        }
        let tail = us.subrange(1, us.len() as int);
        assert forall|a: int| 0 <= a < tail.len() implies has_validator(s2, tail[a].validator@)
            && tail[a].amount <= amount_of(s2, tail[a].validator@) by {
            assert(tail[a] == us[a + 1]);
            let w = tail[a].validator@;
            assert(has_validator(s, w));
            let k = choose|k: int| 0 <= k < s.len() && s[k].validator@ == w;
            assert(s2[k].validator@ == w);
            lemma_amount_of_update(s, i, d2, w);
        }
        lemma_spec_undelegate_seq_ok(s2, tail);
    }
}

/// Effect of one redelegation: the source entry is decremented as in an
/// undelegation and the destination incremented as in a delegation.
/// The destination increment is exact whenever the ledger total stays
/// within 128 bits, which callers establish.
pub open spec fn spec_redelegate_one(s: Seq<Delegation>, r: Redelegation) -> Result<
    Seq<Delegation>,
    HubError,
> {
    if !has_validator(s, r.src@) {
        Err(HubError::ValidatorNotFound)
    } else {
        let i = choose|i: int| 0 <= i < s.len() && s[i].validator@ == r.src@;
        if s[i].amount < r.amount {
            Err(HubError::InsufficientBalance)
        } else {
            let s2 = s.update(
                i,
                Delegation { validator: s[i].validator, amount: (s[i].amount - r.amount) as u128 },
            );
            if has_validator(s2, r.dst@) {
                let j = choose|j: int| 0 <= j < s2.len() && s2[j].validator@ == r.dst@;
                Ok(
                    s2.update(
                        j,
                        Delegation {
                            validator: s2[j].validator,
                            amount: (s2[j].amount + r.amount) as u128,
                        },
                    ),
                )
            } else {
                Ok(s2.push(Delegation { validator: r.dst, amount: r.amount }))
            }
        }
    }
}

/// Effect of a redelegation list, applied front to back, stopping at
/// the first failure.
pub open spec fn spec_redelegate_seq(s: Seq<Delegation>, rs: Seq<Redelegation>) -> Result<
    Seq<Delegation>,
    HubError,
>
    decreases rs.len(),
{
    if rs.len() == 0 {
        Ok(s)
    } else {
        match spec_redelegate_one(s, rs[0]) {
            Ok(s2) => spec_redelegate_seq(s2, rs.subrange(1, rs.len() as int)),
            Err(e) => Err(e),
        }
    }
}

/// Total amount a redelegation list moves away from one validator.
pub open spec fn moved_out(rs: Seq<Redelegation>, v: Seq<char>) -> int
    decreases rs.len(),
{
    if rs.len() == 0 {
        0
    } else {
        moved_out(rs.drop_last(), v) + if rs.last().src@ == v {
            rs.last().amount as int
        } else {
            0int
        }
    }
}

pub proof fn lemma_moved_out_push(rs: Seq<Redelegation>, m: Redelegation, v: Seq<char>)
    ensures
        moved_out(rs.push(m), v) == moved_out(rs, v) + if m.src@ == v {
            m.amount as int
        } else {
            0int
        },
{
    assert(rs.push(m).drop_last() =~= rs);
    assert(rs.push(m).last() == m);
}

pub proof fn lemma_moved_out_first(rs: Seq<Redelegation>, v: Seq<char>)
    requires
        rs.len() > 0,
    ensures
        moved_out(rs, v) == moved_out(rs.subrange(1, rs.len() as int), v) + if rs[0].src@ == v {
            rs[0].amount as int
        } else {
            0int
        },
    decreases rs.len(),
{
    if rs.len() == 1 {
        assert(rs.subrange(1, 1) =~= Seq::<Redelegation>::empty());
        assert(rs.drop_last() =~= Seq::<Redelegation>::empty());
    } else {
        let tail = rs.subrange(1, rs.len() as int);
        assert(rs.drop_last() =~= rs.subrange(0, rs.len() - 1));
        lemma_moved_out_first(rs.drop_last(), v);
        assert(rs.drop_last().subrange(1, rs.len() - 1) =~= tail.drop_last());
        assert(tail.last() == rs.last());
        assert(rs.drop_last()[0] == rs[0]);
    }
}

/// Total amount over a redelegation list.
pub open spec fn sum_redelegations(rs: Seq<Redelegation>) -> int
    decreases rs.len(),
{
    if rs.len() == 0 {
        0
    } else {
        sum_redelegations(rs.drop_last()) + rs.last().amount
    }
}

pub proof fn lemma_sum_redelegations_push(rs: Seq<Redelegation>, m: Redelegation)
    ensures
        sum_redelegations(rs.push(m)) == sum_redelegations(rs) + m.amount,
{
    assert(rs.push(m).drop_last() =~= rs);
    assert(rs.push(m).last() == m);
}

/// Peel the first entry off a delegation column's sum.
pub proof fn lemma_sum_amounts_first(s: Seq<Delegation>)
    requires
        s.len() > 0,
    ensures
        sum_amounts(s) == s[0].amount + sum_amounts(s.subrange(1, s.len() as int)),
    decreases s.len(),
{
    if s.len() == 1 {
        assert(s.subrange(1, 1) =~= Seq::<Delegation>::empty());
        assert(s.drop_last() =~= Seq::<Delegation>::empty());
    } else {
        let tail = s.subrange(1, s.len() as int);
        assert(s.drop_last() =~= s.subrange(0, s.len() - 1));
        lemma_sum_amounts_first(s.drop_last());
        assert(s.drop_last().subrange(1, s.len() - 1) =~= tail.drop_last());
        assert(tail.last() == s.last());
        assert(s.drop_last()[0] == s[0]);
    }
}

pub proof fn lemma_moved_out_nonneg(rs: Seq<Redelegation>, v: Seq<char>)
    ensures
        0 <= moved_out(rs, v),
    decreases rs.len(),
{
    if rs.len() > 0 {
        lemma_moved_out_nonneg(rs.drop_last(), v);
    }
}

/// Moves whose per-source totals fit the ledger all apply.
pub proof fn lemma_spec_redelegate_seq_ok(s: Seq<Delegation>, rs: Seq<Redelegation>)
    requires
        uniq_validators(s),
        sum_amounts(s) <= u128::MAX,
        forall|a: int| 0 <= a < rs.len() ==> rs[a].amount > 0,
        forall|v: Seq<char>| #![trigger moved_out(rs, v)] moved_out(rs, v) <= amount_of(s, v),
    ensures
        spec_redelegate_seq(s, rs) is Ok,
    decreases rs.len(),
{
    if rs.len() > 0 {
        let m = rs[0];
        let v = m.src@;
        lemma_moved_out_nonneg(rs.subrange(1, rs.len() as int), v);
        lemma_moved_out_first(rs, v);
        assert(m.amount <= moved_out(rs, v));
        assert(has_validator(s, v)) by {
            if !has_validator(s, v) {
                lemma_amount_of_absent(s, v);
            }
        }
        let i = choose|i: int| 0 <= i < s.len() && s[i].validator@ == v;
        lemma_amount_of_index(s, i);
        let d2 = Delegation { validator: s[i].validator, amount: (s[i].amount - m.amount) as u128 };
        let s2 = s.update(i, d2);
        assert(uniq_validators(s2)) by {
            assert(forall|k: int| 0 <= k < s.len() ==> s2[k].validator == s[k].validator);
        }
        let tail = rs.subrange(1, rs.len() as int);
        lemma_sum_update(s, i, d2);
        if has_validator(s2, m.dst@) {
            let j = choose|j: int| 0 <= j < s2.len() && s2[j].validator@ == m.dst@;
            lemma_elem_le_sum(s2, j);
            lemma_sum_nonneg(s2);
            assert(s2[j].amount + m.amount <= u128::MAX);
            let d3 = Delegation {
                validator: s2[j].validator,
                amount: (s2[j].amount + m.amount) as u128,
            };
            let s3 = s2.update(j, d3);
            lemma_sum_update(s2, j, d3);
            assert(spec_redelegate_one(s, m) == Ok::<Seq<Delegation>, HubError>(s3));
            assert(uniq_validators(s3)) by {
                assert(forall|k: int| 0 <= k < s2.len() ==> s3[k].validator == s2[k].validator);
            }
            assert forall|w: Seq<char>| #![trigger moved_out(tail, w)] moved_out(tail, w)
                <= amount_of(s3, w) by {
                lemma_moved_out_first(rs, w);
                lemma_amount_of_update(s, i, d2, w);
                lemma_amount_of_update(s2, j, d3, w);
                lemma_moved_out_nonneg(tail, w);
                lemma_amount_of_index(s2, j);
            }
            lemma_spec_redelegate_seq_ok(s3, tail);
        } else {
            let s3 = s2.push(Delegation { validator: m.dst, amount: m.amount });
            lemma_sum_push(s2, Delegation { validator: m.dst, amount: m.amount });
            assert(spec_redelegate_one(s, m) == Ok::<Seq<Delegation>, HubError>(s3));
            assert(uniq_validators(s3)) by {
                assert(forall|k: int| 0 <= k < s2.len() ==> s3[k] == s2[k]);
                assert(s3[s3.len() - 1].validator@ == m.dst@);
            }
            assert forall|w: Seq<char>| #![trigger moved_out(tail, w)] moved_out(tail, w)
                <= amount_of(s3, w) by {
                lemma_moved_out_first(rs, w);
                lemma_amount_of_update(s, i, d2, w);
                lemma_amount_of_push(s2, Delegation { validator: m.dst, amount: m.amount }, w);
                lemma_moved_out_nonneg(tail, w);
            }
            lemma_spec_redelegate_seq_ok(s3, tail);
        }
    }
}

/// The hub's per-validator bonded-amount map.
#[derive(Clone, Debug, PartialEq, Eq)]
pub struct AllianceDelegations {
    pub delegations: Vec<Delegation>,
}

impl AllianceDelegations {
    /// Validators are pairwise distinct.
    pub open spec fn wf(self) -> bool {
        uniq_validators(self.delegations@)
    }

    /// Total bonded amount over the ledger.
    pub open spec fn total(self) -> int {
        sum_amounts(self.delegations@)
    }

    /// Bonded amount of one validator, zero if absent.
    pub open spec fn amount(self, v: Seq<char>) -> int {
        amount_of(self.delegations@, v)
    }

    /// Increment the target validator by the target amount, inserting a
    /// fresh entry for a validator the ledger does not hold yet.
    pub fn delegate(self, d: &Delegation) -> (r: AllianceDelegations)
        requires
            self.wf(),
            self.total() + d.amount <= u128::MAX,
        ensures
            r.wf(),
            r.total() == self.total() + d.amount,
            r.amount(d.validator@) == self.amount(d.validator@) + d.amount,
            forall|v: Seq<char>| v != d.validator@ ==> r.amount(v) == self.amount(v),
            has_validator(r.delegations@, d.validator@),
    {
        let mut ds = self.delegations;
        match find_validator(&ds, &d.validator) {
            Some(i) => {
                proof {
                    lemma_elem_le_sum(ds@, i as int);
                    lemma_sum_nonneg(ds@);
                    let ghost prev = ds@[i as int];
                    let ghost upd = Delegation {
                        validator: prev.validator,
                        amount: (prev.amount + d.amount) as u128,
                    };
                    lemma_sum_update(ds@, i as int, upd);
                    lemma_amount_of_index(ds@, i as int);
                }
                let new_amount: u128 = ds[i].amount + d.amount;
                let ghost before = ds@;
                ds[i].amount = new_amount;
                proof {
                    assert(ds@ =~= before.update(i as int, ds@[i as int]));
                    assert forall|v: Seq<char>| true implies
                        amount_of(ds@, v) == if v == d.validator@ {
                            amount_of(before, v) + d.amount
                        } else {
                            amount_of(before, v)
                        } by {
                        lemma_amount_of_update(before, i as int, ds@[i as int], v);
                        lemma_amount_of_index(before, i as int);
                    }
                }
                AllianceDelegations { delegations: ds }
            },
            None => {
                let entry = Delegation { validator: d.validator.clone(), amount: d.amount };
                let ghost before = ds@;
                ds.push(entry);
                proof {
                    lemma_sum_push(before, ds@.last());
                    lemma_amount_of_absent(before, d.validator@);
                    assert forall|v: Seq<char>| true implies
                        amount_of(ds@, v) == if v == d.validator@ {
                            amount_of(before, v) + d.amount
                        } else {
                            amount_of(before, v)
                        } by {
                        lemma_amount_of_push(before, ds@.last(), v);
                    }
                    assert(ds@[ds@.len() - 1].validator@ == d.validator@);
                }
                AllianceDelegations { delegations: ds }
            },
        }
    }

    /// Decrement each named validator, front to back; fails with
    /// `ValidatorNotFound` on an absent validator and with
    /// `InsufficientBalance` on a short one, exactly as
    /// [`spec_undelegate_seq`] lays out.
    pub fn undelegate(self, us: &Vec<Undelegation>) -> (r: Result<AllianceDelegations, HubError>)
        requires
            self.wf(),
        ensures
            match r {
                Ok(l) => spec_undelegate_seq(self.delegations@, us@) is Ok && l.delegations@
                    == spec_undelegate_seq(self.delegations@, us@)->Ok_0 && l.wf(),
                Err(e) => spec_undelegate_seq(self.delegations@, us@) == Err::<
                    Seq<Delegation>,
                    HubError,
                >(e),
            },
    {
        let mut ds = self.delegations;
        let n: usize = us.len();
        let mut k: usize = 0;
        proof {
            assert(us@.subrange(0, n as int) =~= us@);
        }
        while k < n
            invariant
                n == us@.len(),
                k <= n,
                uniq_validators(ds@),
                spec_undelegate_seq(self.delegations@, us@) == spec_undelegate_seq(
                    ds@,
                    us@.subrange(k as int, n as int),
                ),
            decreases n - k,
        {
            let u = &us[k];
            let ghost rest = us@.subrange(k as int, n as int);
            proof {
                assert(rest[0] == us@[k as int]);
            }
            match find_validator(&ds, &u.validator) {
                None => {
                    return Err(HubError::ValidatorNotFound);
                },
                Some(i) => {
                    proof {
                        let v = u.validator@;
                        let j = choose|j: int| 0 <= j < ds@.len() && ds@[j].validator@ == v;
                        if i as int != j {
                            assert(ds@[i as int].validator@ != ds@[j].validator@);
                        }
                    }
                    if ds[i].amount < u.amount {
                        return Err(HubError::InsufficientBalance);
                    }
                    let ghost before = ds@;
                    let new_amount: u128 = ds[i].amount - u.amount;
                    ds[i].amount = new_amount;
                    proof {
                        assert(ds@[i as int].validator == before[i as int].validator);
                        assert(spec_undelegate_one(before, rest[0]) == Ok::<
                            Seq<Delegation>,
                            HubError,
                        >(ds@));
                        assert(forall|a: int|
                            0 <= a < before.len() ==> ds@[a].validator == before[a].validator);
                        assert(rest.subrange(1, rest.len() as int) =~= us@.subrange(
                            k + 1,
                            n as int,
                        ));
                    }
                    k += 1;
                },
            }
        }
        proof {
            assert(us@.subrange(n as int, n as int) =~= Seq::<Undelegation>::empty());
        }
        Ok(AllianceDelegations { delegations: ds })
    }

    /// Move each listed amount from its source validator to its
    /// destination, front to back; fails exactly as
    /// [`spec_redelegate_seq`] lays out.  The ledger total is conserved.
    pub fn redelegate(self, rs: &Vec<Redelegation>) -> (r: Result<AllianceDelegations, HubError>)
        requires
            self.wf(),
            self.total() <= u128::MAX,
        ensures
            match r {
                Ok(l) => spec_redelegate_seq(self.delegations@, rs@) is Ok && l.delegations@
                    == spec_redelegate_seq(self.delegations@, rs@)->Ok_0 && l.wf() && l.total()
                    == self.total(),
                Err(e) => spec_redelegate_seq(self.delegations@, rs@) == Err::<
                    Seq<Delegation>,
                    HubError,
                >(e),
            },
    {
        let mut ds = self.delegations;
        let n: usize = rs.len();
        let mut k: usize = 0;
        proof {
            assert(rs@.subrange(0, n as int) =~= rs@);
        }
        while k < n
            invariant
                n == rs@.len(),
                k <= n,
                uniq_validators(ds@),
                sum_amounts(ds@) == self.total(),
                self.total() <= u128::MAX,
                spec_redelegate_seq(self.delegations@, rs@) == spec_redelegate_seq(
                    ds@,
                    rs@.subrange(k as int, n as int),
                ),
            decreases n - k,
        {
            let mv = &rs[k];
            let ghost rest = rs@.subrange(k as int, n as int);
            proof {
                assert(rest[0] == rs@[k as int]);
            }
            match find_validator(&ds, &mv.src) {
                None => {
                    return Err(HubError::ValidatorNotFound);
                },
                Some(i) => {
                    proof {
                        let v = mv.src@;
                        let j = choose|j: int| 0 <= j < ds@.len() && ds@[j].validator@ == v;
                        if i as int != j {
                            assert(ds@[i as int].validator@ != ds@[j].validator@);
                        }
                    }
                    if ds[i].amount < mv.amount {
                        return Err(HubError::InsufficientBalance);
                    }
                    let ghost before = ds@;
                    let reduced: u128 = ds[i].amount - mv.amount;
                    ds[i].amount = reduced;
                    let ghost mid = ds@;
                    proof {
                        assert(mid[i as int].validator == before[i as int].validator);
                        lemma_sum_update(before, i as int, mid[i as int]);
                        assert(forall|a: int|
                            0 <= a < before.len() ==> mid[a].validator == before[a].validator);
                    }
                    match find_validator(&ds, &mv.dst) {
                        Some(j) => {
                            proof {
                                let w = mv.dst@;
                                let j2 = choose|j2: int|
                                    0 <= j2 < mid.len() && mid[j2].validator@ == w;
                                if j as int != j2 {
                                    assert(mid[j as int].validator@ != mid[j2].validator@);
                                }
                                lemma_elem_le_sum(mid, j as int);
                                lemma_sum_nonneg(mid);
                            }
                            let grown: u128 = ds[j].amount + mv.amount;
                            ds[j].amount = grown;
                            proof {
                                assert(ds@[j as int].validator == mid[j as int].validator);
                                lemma_sum_update(mid, j as int, ds@[j as int]);
                                assert(spec_redelegate_one(before, rest[0]) == Ok::<
                                    Seq<Delegation>,
                                    HubError,
                                >(ds@));
                                assert(forall|a: int|
                                    0 <= a < mid.len() ==> ds@[a].validator == mid[a].validator);
                            }
                        },
                        None => {
                            let entry = Delegation { validator: mv.dst.clone(), amount: mv.amount };
                            ds.push(entry);
                            proof {
                                lemma_sum_push(mid, ds@.last());
                                assert(spec_redelegate_one(before, rest[0]) == Ok::<
                                    Seq<Delegation>,
                                    HubError,
                                >(ds@));
                                assert(uniq_validators(ds@)) by {
                                    assert(forall|a: int|
                                        0 <= a < mid.len() ==> ds@[a] == mid[a]);
                                    assert(ds@[ds@.len() - 1].validator@ == mv.dst@);
                                }
                            }
                        },
                    }
                    proof {
                        assert(rest.subrange(1, rest.len() as int) =~= rs@.subrange(
                            k + 1,
                            n as int,
                        ));
                    }
                    k += 1;
                },
            }
        }
        proof {
            assert(rs@.subrange(n as int, n as int) =~= Seq::<Redelegation>::empty());
        }
        Ok(AllianceDelegations { delegations: ds })
    }
}

} // verus!
