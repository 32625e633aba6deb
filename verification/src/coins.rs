//! The unlocked-coin list: tokens the hub has received and not yet
//! reinvested, one entry per denomination, amounts summed.

use vstd::prelude::*;
use crate::types::Coin;

verus! {

/// Amount held of one denomination, zero if absent.
pub open spec fn coin_amount(s: Seq<Coin>, denom: Seq<char>) -> int
    decreases s.len(),
{
    if s.len() == 0 {
        0
    } else if s.last().denom@ == denom {
        coin_amount(s.drop_last(), denom) + s.last().amount
    } else {
        coin_amount(s.drop_last(), denom)
    }
}

/// Pairwise distinct denominations.
pub open spec fn uniq_denoms(s: Seq<Coin>) -> bool {
    forall|i: int, j: int| 0 <= i < j < s.len() ==> s[i].denom@ != s[j].denom@
}

pub open spec fn has_denom(s: Seq<Coin>, denom: Seq<char>) -> bool {
    exists|i: int| 0 <= i < s.len() && s[i].denom@ == denom
}

pub proof fn lemma_coin_amount_nonneg(s: Seq<Coin>, denom: Seq<char>)
    ensures
        0 <= coin_amount(s, denom),
    decreases s.len(),
{
    if s.len() > 0 {
        lemma_coin_amount_nonneg(s.drop_last(), denom);
    }
}

pub proof fn lemma_coin_amount_absent(s: Seq<Coin>, denom: Seq<char>)
    requires
        !has_denom(s, denom),
    ensures
        coin_amount(s, denom) == 0,
    decreases s.len(),
{
    if s.len() > 0 {
        assert(forall|i: int| 0 <= i < s.len() - 1 ==> s.drop_last()[i] == s[i]);
        lemma_coin_amount_absent(s.drop_last(), denom);
    }
}

pub proof fn lemma_coin_amount_index(s: Seq<Coin>, i: int)
    requires
        uniq_denoms(s),
        0 <= i < s.len(),
    ensures
        coin_amount(s, s[i].denom@) == s[i].amount,
    decreases s.len(),
{
    if i == s.len() - 1 {
        assert(!has_denom(s.drop_last(), s[i].denom@)) by {
            assert(forall|j: int| 0 <= j < s.len() - 1 ==> s[j].denom@ != s[i].denom@);
        }
        lemma_coin_amount_absent(s.drop_last(), s[i].denom@);
    } else {
        lemma_coin_amount_index(s.drop_last(), i);
    }
}

pub proof fn lemma_coin_amount_push(s: Seq<Coin>, c: Coin, denom: Seq<char>)
    ensures
        coin_amount(s.push(c), denom) == coin_amount(s, denom) + if c.denom@ == denom {
            c.amount as int
        } else {
            0int
        },
{
    assert(s.push(c).drop_last() =~= s);
    assert(s.push(c).last() == c);
}

pub proof fn lemma_coin_amount_update(s: Seq<Coin>, i: int, c: Coin, denom: Seq<char>)
    requires
        0 <= i < s.len(),
        c.denom@ == s[i].denom@,
    ensures
        coin_amount(s.update(i, c), denom) == coin_amount(s, denom) + if c.denom@ == denom {
            c.amount - s[i].amount
        } else {
            0int
        },
    decreases s.len(),
{
    let t = s.update(i, c);
    if i == s.len() - 1 {
        assert(t.drop_last() =~= s.drop_last());
        assert(t.last() == c);
    } else {
        assert(t.drop_last() =~= s.drop_last().update(i, c));
        assert(t.last() == s.last());
        lemma_coin_amount_update(s.drop_last(), i, c, denom);
    }
}

/// Find the entry for a denomination, if any.
pub fn find_coin(coins: &Vec<Coin>, denom: &String) -> (r: Option<usize>)
    ensures
        match r {
            Some(i) => i < coins@.len() && coins@[i as int].denom@ == denom@,
            None => !has_denom(coins@, denom@),
        },
{
    let n: usize = coins.len();
    let mut k: usize = 0;
    while k < n
        invariant
            n == coins@.len(),
            k <= n,
            forall|i: int| 0 <= i < k ==> coins@[i].denom@ != denom@,
        decreases n - k,
    {
        if coins[k].denom == *denom {
            return Some(k);
        }
        k += 1;
    }
    None
}

/// Merge a received amount into the list, keeping one entry per
/// denomination.
pub fn add_coin(coins: Vec<Coin>, denom: &String, amount: u128) -> (r: Vec<Coin>)
    requires
        uniq_denoms(coins@),
        coin_amount(coins@, denom@) + amount <= u128::MAX,
    ensures
        uniq_denoms(r@),
        coin_amount(r@, denom@) == coin_amount(coins@, denom@) + amount,
        forall|d: Seq<char>| d != denom@ ==> coin_amount(r@, d) == coin_amount(coins@, d),
{
    let mut cs = coins;
    match find_coin(&cs, denom) {
        Some(i) => {
            proof {
                lemma_coin_amount_index(cs@, i as int);
                lemma_coin_amount_nonneg(cs@, denom@);
            }
            let grown: u128 = cs[i].amount + amount;
            let ghost before = cs@;
            cs[i].amount = grown;
            proof {
                assert(cs@[i as int].denom == before[i as int].denom);
                assert forall|d: Seq<char>| true implies coin_amount(cs@, d) == coin_amount(
                    before,
                    d,
                ) + (if d == denom@ {
                    amount as int
                } else {
                    0int
                }) by {
                    lemma_coin_amount_update(before, i as int, cs@[i as int], d);
                    lemma_coin_amount_index(before, i as int);
                }
            }
            cs
        },
        None => {
            let ghost before = cs@;
            proof {
                lemma_coin_amount_absent(cs@, denom@);
            }
            cs.push(Coin { denom: denom.clone(), amount });
            proof {
                assert forall|d: Seq<char>| true implies coin_amount(cs@, d) == coin_amount(
                    before,
                    d,
                ) + (if d == denom@ {
                    amount as int
                } else {
                    0int
                }) by {
                    lemma_coin_amount_push(before, cs@.last(), d);
                }
                assert(cs@[cs@.len() - 1].denom@ == denom@);
            }
            cs
        },
    }
}

/// Drop the entries of two denominations, keeping every other entry's
/// amount.
pub fn retain_other_denoms(coins: &Vec<Coin>, d1: &String, d2: &String) -> (r: Vec<Coin>)
    requires
        uniq_denoms(coins@),
    ensures
        uniq_denoms(r@),
        coin_amount(r@, d1@) == 0,
        coin_amount(r@, d2@) == 0,
        forall|d: Seq<char>|
            d != d1@ && d != d2@ ==> coin_amount(r@, d) == coin_amount(coins@, d),
        coins@.len() == 0 ==> r@.len() == 0,
{
    let n: usize = coins.len();
    let mut kept: Vec<Coin> = Vec::new();
    let mut k: usize = 0;
    proof {
        assert(coins@.subrange(0, 0) =~= Seq::<Coin>::empty());
    }
    while k < n
        invariant
            n == coins@.len(),
            k <= n,
            uniq_denoms(coins@),
            uniq_denoms(kept@),
            coin_amount(kept@, d1@) == 0,
            coin_amount(kept@, d2@) == 0,
            forall|d: Seq<char>|
                d != d1@ && d != d2@ ==> coin_amount(kept@, d) == coin_amount(
                    coins@.subrange(0, k as int),
                    d,
                ),
            forall|a: int|
                0 <= a < kept@.len() ==> exists|i: int|
                    0 <= i < k && (#[trigger] kept@[a]).denom@ == (#[trigger] coins@[i]).denom@,
        decreases n - k,
    {
        let ghost prefix = coins@.subrange(0, k as int);
        proof {
            assert(coins@.subrange(0, k + 1).drop_last() =~= prefix);
            assert(coins@.subrange(0, k + 1).last() == coins@[k as int]);
        }
        if !(coins[k].denom == *d1) && !(coins[k].denom == *d2) {
            let ghost before = kept@;
            let entry = Coin { denom: coins[k].denom.clone(), amount: coins[k].amount };
            kept.push(entry);
            proof {
                assert forall|d: Seq<char>| true implies coin_amount(kept@, d) == coin_amount(
                    before,
                    d,
                ) + (if d == coins@[k as int].denom@ {
                    coins@[k as int].amount as int
                } else {
                    0int
                }) by {
                    lemma_coin_amount_push(before, kept@.last(), d);
                }
                assert forall|a: int, b: int|
                    0 <= a < b < kept@.len() implies kept@[a].denom@ != kept@[b].denom@ by {
                    if b == kept@.len() - 1 {
                        let i = choose|i: int|
                            0 <= i < k && before[a].denom@ == coins@[i].denom@;
                        assert(coins@[i].denom@ != coins@[k as int].denom@);
                    }
                }
            }
        }
        k += 1;
    }
    proof {
        assert(coins@.subrange(0, n as int) =~= coins@);
    }
    kept
}

} // verus!
