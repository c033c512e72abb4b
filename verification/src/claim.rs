//! The claim aggregator: reads and zeroes the ledger rows and order entries
//! that presented credentials cover, sums the amounts per token, and
//! releases the sums from custody into payout containers.
//!
//! Processing is sequential, so a credential presented twice in one call
//! reads an already-zeroed row the second time and contributes nothing; an
//! order entry, once deleted, is simply absent for any later reference.

use vstd::prelude::*;

use crate::decimal::Decimal;
use crate::errors::ClaimError;
use crate::keyval::{
    distinct_keys, AmountsV, amount_for, with_key, total_all, total_for, find_key,
    lemma_find_key, lemma_find_key_unique, lemma_with_key_distinct, lemma_with_key_values,
    lemma_with_key_value_for, lemma_with_key_total_for, lemma_total_for_is_amount,
    lemma_total_all_remove, lemma_sum_values_update,
};
use crate::ledger::{
    CategoryMap, TokenMap, CatsV, LedgerV, amounts_view, cats_view, wf_ledger, wf_cats, wf_tokens,
    ledger_total_for, cats_total_for, cats_summand, token_summand,
};
use crate::orders::{order_key, wf_orders};
use crate::component::{FundsContainer, AccountCredential, OrderCredential, wf_vaults, set_amount};

verus! {

broadcast use crate::decimal::lemma_decimal_range;

/// Running totals are well-formed: distinct tokens, every total strictly
/// positive and representable.
pub open spec fn wf_totals(ts: AmountsV) -> bool {
    &&& distinct_keys(ts)
    &&& forall|i: int| 0 <= i < ts.len() ==> 0 < #[trigger] ts[i].1 <= i128::MAX
}

/// Adds every balance of one token map to the running totals; `None` on
/// overflow.
pub open spec fn claim_tokens_into(totals: AmountsV, tm: AmountsV) -> Option<AmountsV>
    decreases tm.len(),
{
    if tm.len() == 0 {
        Some(totals)
    } else {
        match claim_tokens_into(totals, tm.drop_last()) {
            Some(ts) => {
                let t = tm.last().0;
                let v = amount_for(ts, t) + tm.last().1;
                if v > i128::MAX {
                    None
                } else {
                    Some(with_key(ts, t, v, v > 0))
                }
            },
            None => None,
        }
    }
}

/// Adds every balance of one account row to the running totals.
pub open spec fn claim_cats_into(totals: AmountsV, cm: CatsV) -> Option<AmountsV>
    decreases cm.len(),
{
    if cm.len() == 0 {
        Some(totals)
    } else {
        match claim_cats_into(totals, cm.drop_last()) {
            Some(ts) => claim_tokens_into(ts, cm.last().1),
            None => None,
        }
    }
}

/// Claims the rows of the given accounts, left to right: each present row
/// is summed into the totals and reset to empty; an absent or already
/// empty row contributes nothing.
pub open spec fn claim_accounts(ledger: LedgerV, totals: AmountsV, accounts: Seq<Seq<char>>) -> Option<
    (LedgerV, AmountsV),
>
    decreases accounts.len(),
{
    if accounts.len() == 0 {
        Some((ledger, totals))
    } else {
        match claim_accounts(ledger, totals, accounts.drop_last()) {
            Some(p) => match find_key(p.0, accounts.last()) {
                Some(i) => match claim_cats_into(p.1, p.0[i].1) {
                    Some(ts) => Some(
                        (p.0.update(i, (p.0[i].0, Seq::<(Seq<char>, AmountsV)>::empty())), ts),
                    ),
                    None => None,
                },
                None => Some(p),
            },
            None => None,
        }
    }
}

/// Claims the order entries a credential names, left to right: each present
/// entry is deleted and its amount added to the designated token's total;
/// an absent entry is skipped silently.
pub open spec fn claim_order_ids(
    orders: AmountsV,
    totals: AmountsV,
    dextr: Seq<char>,
    receipt: Seq<char>,
    ids: Seq<u64>,
) -> Option<(AmountsV, AmountsV)>
    decreases ids.len(),
{
    if ids.len() == 0 {
        Some((orders, totals))
    } else {
        match claim_order_ids(orders, totals, dextr, receipt, ids.drop_last()) {
            Some(p) => {
                let key = order_key(receipt, ids.last());
                match find_key(p.0, key) {
                    Some(i) => {
                        let v = amount_for(p.1, dextr) + p.0[i].1;
                        if v > i128::MAX {
                            None
                        } else {
                            Some((p.0.remove(i), with_key(p.1, dextr, v, v > 0)))
                        }
                    },
                    None => Some(p),
                }
            },
            None => None,
        }
    }
}

/// Claims the order entries of all presented order credentials.
pub open spec fn claim_order_creds(
    orders: AmountsV,
    totals: AmountsV,
    dextr: Seq<char>,
    creds: Seq<(Seq<char>, Seq<u64>)>,
) -> Option<(AmountsV, AmountsV)>
    decreases creds.len(),
{
    if creds.len() == 0 {
        Some((orders, totals))
    } else {
        match claim_order_creds(orders, totals, dextr, creds.drop_last()) {
            Some(p) => claim_order_ids(p.0, p.1, dextr, creds.last().0, creds.last().1),
            None => None,
        }
    }
}

/// Releases every positive total from its token's vault, in order; the
/// payouts are the settled (token, amount) pairs. `Err` exactly when some
/// vault holds less than its total asks: a custody desynchronization.
pub open spec fn settle_claims(vaults: AmountsV, totals: AmountsV) -> Result<
    (AmountsV, Seq<(Seq<char>, int)>),
    (),
>
    decreases totals.len(),
{
    if totals.len() == 0 {
        Ok((vaults, Seq::<(Seq<char>, int)>::empty()))
    } else {
        match settle_claims(vaults, totals.drop_last()) {
            Ok(p) => {
                let t = totals.last().0;
                let amt = totals.last().1;
                if amt <= 0 {
                    Ok(p)
                } else {
                    let have = amount_for(p.0, t);
                    if have < amt {
                        Err(())
                    } else {
                        Ok((with_key(p.0, t, have - amt, true), p.1.push((t, amt))))
                    }
                }
            },
            Err(e) => Err(e),
        }
    }
}

/// Summing one token map into the totals keeps them well-formed, and moves
/// each token's total by exactly that map's balance.
pub proof fn lemma_claim_tokens_into_props(totals: AmountsV, tm: AmountsV)
    requires
        wf_totals(totals),
        wf_tokens(tm),
    ensures
        match claim_tokens_into(totals, tm) {
            Some(ts2) => wf_totals(ts2) && forall|t: Seq<char>| #[trigger] total_for(ts2, t)
                == total_for(totals, t) + total_for(tm, t),
            None => true,
        },
    decreases tm.len(),
{
    if tm.len() == 0 {
        assert forall|t: Seq<char>| #[trigger] total_for(totals, t) == total_for(totals, t)
            + total_for(tm, t) by {
            crate::keyval::lemma_total_for_push(tm, tm.last(), t);
        }
    } else {
        let head = tm.drop_last();
        assert(forall|j: int| 0 <= j < head.len() ==> #[trigger] head[j] == tm[j]);
        lemma_claim_tokens_into_props(totals, head);
        match claim_tokens_into(totals, head) {
            Some(ts) => {
                let t0 = tm.last().0;
                let amt = tm.last().1;
                assert(0 < amt <= i128::MAX);
                lemma_find_key(ts, t0);
                lemma_total_for_is_amount(ts, t0);
                let v = amount_for(ts, t0) + amt;
                if v <= i128::MAX {
                    let ts2 = with_key(ts, t0, v, v > 0);
                    lemma_with_key_distinct(ts, t0, v, v > 0);
                    lemma_with_key_values(ts, t0, v, v > 0);
                    assert forall|t: Seq<char>| #[trigger] total_for(ts2, t) == total_for(
                        totals,
                        t,
                    ) + total_for(tm, t) by {
                        lemma_with_key_total_for(ts, t0, v, v > 0, t);
                        assert(head.push(tm.last()) =~= tm);
                        crate::keyval::lemma_total_for_push(head, tm.last(), t);
                    }
                }
            },
            None => {},
        }
    }
}

/// Summing one account row into the totals keeps them well-formed, and
/// moves each token's total by the row's whole balance in it.
pub proof fn lemma_claim_cats_into_props(totals: AmountsV, cm: CatsV)
    requires
        wf_totals(totals),
        wf_cats(cm),
    ensures
        match claim_cats_into(totals, cm) {
            Some(ts2) => wf_totals(ts2) && forall|t: Seq<char>| #[trigger] total_for(ts2, t)
                == total_for(totals, t) + cats_total_for(cm, t),
            None => true,
        },
    decreases cm.len(),
{
    if cm.len() == 0 {
        assert forall|t: Seq<char>| #[trigger] total_for(totals, t) == total_for(totals, t)
            + cats_total_for(cm, t) by {
            assert(cats_total_for(cm, t) == 0);
        }
    } else {
        let head = cm.drop_last();
        assert(forall|j: int| 0 <= j < head.len() ==> #[trigger] head[j] == cm[j]);
        lemma_claim_cats_into_props(totals, head);
        match claim_cats_into(totals, head) {
            Some(ts) => {
                assert(wf_tokens(cm.last().1));
                lemma_claim_tokens_into_props(ts, cm.last().1);
                match claim_tokens_into(ts, cm.last().1) {
                    Some(ts2) => {
                        assert forall|t: Seq<char>| #[trigger] total_for(ts2, t) == total_for(
                            totals,
                            t,
                        ) + cats_total_for(cm, t) by {
                            assert(head.push(cm.last()) =~= cm);
                            crate::keyval::lemma_sum_values_push(head, cm.last(), token_summand(t));
                        }
                    },
                    None => {},
                }
            },
            None => {},
        }
    }
}

/// Claiming rows keeps the ledger and the totals well-formed, conserves
/// value (what leaves the ledger enters the totals, token by token), keeps
/// every row's key and position, and leaves each claimed row empty.
pub proof fn lemma_claim_accounts_props(ledger: LedgerV, totals: AmountsV, accounts: Seq<Seq<char>>)
    requires
        wf_ledger(ledger),
        wf_totals(totals),
    ensures
        match claim_accounts(ledger, totals, accounts) {
            Some(p) => {
                &&& wf_ledger(p.0)
                &&& wf_totals(p.1)
                &&& p.0.len() == ledger.len()
                &&& forall|j: int| 0 <= j < ledger.len() ==> #[trigger] p.0[j].0 == ledger[j].0
                &&& forall|t: Seq<char>| #[trigger] ledger_total_for(p.0, t) + total_for(p.1, t)
                    == ledger_total_for(ledger, t) + total_for(totals, t)
                &&& forall|k: int|
                    0 <= k < accounts.len() ==> match find_key(p.0, #[trigger] accounts[k]) {
                        Some(i) => p.0[i].1.len() == 0,
                        None => true,
                    }
            },
            None => true,
        },
    decreases accounts.len(),
{
    if accounts.len() > 0 {
        let head = accounts.drop_last();
        assert(forall|j: int| 0 <= j < head.len() ==> #[trigger] head[j] == accounts[j]);
        lemma_claim_accounts_props(ledger, totals, head);
        match claim_accounts(ledger, totals, head) {
            Some(p) => {
                let a = accounts.last();
                lemma_find_key(p.0, a);
                match find_key(p.0, a) {
                    Some(i) => {
                        assert(wf_cats(p.0[i].1));
                        lemma_claim_cats_into_props(p.1, p.0[i].1);
                        match claim_cats_into(p.1, p.0[i].1) {
                            Some(ts) => {
                                let l2 = p.0.update(
                                    i,
                                    (p.0[i].0, Seq::<(Seq<char>, AmountsV)>::empty()),
                                );
                                assert(forall|j: int| 0 <= j < l2.len() ==> #[trigger] l2[j].0
                                    == p.0[j].0);
                                assert(wf_cats(Seq::<(Seq<char>, AmountsV)>::empty()));
                                assert forall|t: Seq<char>| #[trigger] ledger_total_for(l2, t)
                                    + total_for(ts, t) == ledger_total_for(ledger, t) + total_for(
                                    totals,
                                    t,
                                ) by {
                                    lemma_sum_values_update(
                                        p.0,
                                        i,
                                        (p.0[i].0, Seq::<(Seq<char>, AmountsV)>::empty()),
                                        cats_summand(t),
                                    );
                                    assert(cats_total_for(
                                        Seq::<(Seq<char>, AmountsV)>::empty(),
                                        t,
                                    ) == 0);
                                    assert(ledger_total_for(p.0, t) + total_for(p.1, t)
                                        == ledger_total_for(ledger, t) + total_for(totals, t));
                                    assert(total_for(ts, t) == total_for(p.1, t) + cats_total_for(
                                        p.0[i].1,
                                        t,
                                    ));
                                    assert(ledger_total_for(l2, t) == ledger_total_for(p.0, t)
                                        + cats_total_for(Seq::<(Seq<char>, AmountsV)>::empty(), t)
                                        - cats_total_for(p.0[i].1, t));
                                }
                                assert forall|k: int| 0 <= k < accounts.len() implies match
                                    find_key(l2, #[trigger] accounts[k]) {
                                    Some(j) => l2[j].1.len() == 0,
                                    None => true,
                                } by {
                                    crate::keyval::lemma_find_key_same_keys(l2, p.0, accounts[k]);
                                    if k < accounts.len() - 1 {
                                        assert(accounts[k] == head[k]);
                                        lemma_find_key(p.0, head[k]);
                                        match find_key(p.0, head[k]) {
                                            Some(j) => {
                                                assert(p.0[j].1.len() == 0);
                                                if j != i {
                                                    assert(l2[j] == p.0[j]);
                                                }
                                            },
                                            None => {},
                                        }
                                    } else {
                                        assert(accounts[k] == a);
                                        assert(l2[i].1.len() == 0);
                                    }
                                }
                            },
                            None => {},
                        }
                    },
                    None => {
                        assert forall|k: int| 0 <= k < accounts.len() implies match find_key(
                            p.0,
                            #[trigger] accounts[k],
                        ) {
                            Some(j) => p.0[j].1.len() == 0,
                            None => true,
                        } by {
                            if k < accounts.len() - 1 {
                                assert(accounts[k] == head[k]);
                            } else {
                                assert(accounts[k] == a);
                            }
                        }
                    },
                }
            },
            None => {},
        }
    }
}

/// Claiming the orders a credential names keeps both stores well-formed,
/// conserves value into the designated token's total, touches no other
/// token's total, and leaves each named entry absent.
pub proof fn lemma_claim_order_ids_props(
    orders: AmountsV,
    totals: AmountsV,
    dextr: Seq<char>,
    receipt: Seq<char>,
    ids: Seq<u64>,
)
    requires
        wf_orders(orders),
        wf_totals(totals),
    ensures
        match claim_order_ids(orders, totals, dextr, receipt, ids) {
            Some(p) => {
                &&& wf_orders(p.0)
                &&& wf_totals(p.1)
                &&& total_all(p.0) + total_for(p.1, dextr) == total_all(orders) + total_for(
                    totals,
                    dextr,
                )
                &&& forall|t: Seq<char>|
                    t != dextr ==> #[trigger] total_for(p.1, t) == total_for(totals, t)
                &&& forall|k: int|
                    0 <= k < ids.len() ==> find_key(
                        p.0,
                        order_key(receipt, #[trigger] ids[k]),
                    ) is None
            },
            None => true,
        },
    decreases ids.len(),
{
    if ids.len() > 0 {
        let head = ids.drop_last();
        assert(forall|j: int| 0 <= j < head.len() ==> #[trigger] head[j] == ids[j]);
        lemma_claim_order_ids_props(orders, totals, dextr, receipt, head);
        match claim_order_ids(orders, totals, dextr, receipt, head) {
            Some(p) => {
                let key = order_key(receipt, ids.last());
                lemma_find_key(p.0, key);
                lemma_find_key(p.1, dextr);
                lemma_total_for_is_amount(p.1, dextr);
                match find_key(p.0, key) {
                    Some(i) => {
                        assert(0 < p.0[i].1 <= i128::MAX);
                        let v = amount_for(p.1, dextr) + p.0[i].1;
                        if v <= i128::MAX {
                            let o2 = p.0.remove(i);
                            let ts2 = with_key(p.1, dextr, v, v > 0);
                            lemma_with_key_distinct(p.1, dextr, v, v > 0);
                            lemma_with_key_values(p.1, dextr, v, v > 0);
                            lemma_total_all_remove(p.0, i);
                            lemma_with_key_total_for(p.1, dextr, v, v > 0, dextr);
                            assert forall|t: Seq<char>| t != dextr implies #[trigger] total_for(
                                ts2,
                                t,
                            ) == total_for(totals, t) by {
                                lemma_with_key_total_for(p.1, dextr, v, v > 0, t);
                            }
                            // distinctness of the order ledger survives the removal
                            assert(o2 == with_key(p.0, key, 0, false)) by {
                                lemma_find_key_unique(p.0, key, i);
                            }
                            lemma_with_key_distinct(p.0, key, 0, false);
                            lemma_with_key_values(p.0, key, 0, false);
                            // every previously absent key stays absent
                            assert forall|k: int| 0 <= k < ids.len() implies find_key(
                                o2,
                                order_key(receipt, #[trigger] ids[k]),
                            ) is None by {
                                if k < ids.len() - 1 {
                                    assert(ids[k] == head[k]);
                                    crate::keyval::lemma_find_key_remove_none(
                                        p.0,
                                        i,
                                        order_key(receipt, ids[k]),
                                    );
                                } else {
                                    lemma_with_key_value_for(p.0, key, 0, false, key);
                                    lemma_find_key(o2, key);
                                }
                            }
                        }
                    },
                    None => {
                        assert forall|k: int| 0 <= k < ids.len() implies find_key(
                            p.0,
                            order_key(receipt, #[trigger] ids[k]),
                        ) is None by {
                            if k < ids.len() - 1 {
                                assert(ids[k] == head[k]);
                            }
                        }
                    },
                }
            },
            None => {},
        }
    }
}

/// The same facts folded over all presented order credentials.
pub proof fn lemma_claim_order_creds_props(
    orders: AmountsV,
    totals: AmountsV,
    dextr: Seq<char>,
    creds: Seq<(Seq<char>, Seq<u64>)>,
)
    requires
        wf_orders(orders),
        wf_totals(totals),
    ensures
        match claim_order_creds(orders, totals, dextr, creds) {
            Some(p) => {
                &&& wf_orders(p.0)
                &&& wf_totals(p.1)
                &&& total_all(p.0) + total_for(p.1, dextr) == total_all(orders) + total_for(
                    totals,
                    dextr,
                )
                &&& forall|t: Seq<char>|
                    t != dextr ==> #[trigger] total_for(p.1, t) == total_for(totals, t)
            },
            None => true,
        },
    decreases creds.len(),
{
    if creds.len() > 0 {
        let head = creds.drop_last();
        assert(forall|j: int| 0 <= j < head.len() ==> #[trigger] head[j] == creds[j]);
        lemma_claim_order_creds_props(orders, totals, dextr, head);
        match claim_order_creds(orders, totals, dextr, head) {
            Some(p) => {
                lemma_claim_order_ids_props(p.0, p.1, dextr, creds.last().0, creds.last().1);
            },
            None => {},
        }
    }
}

/// Settlement keeps custody well-formed, pays out exactly the totals, and
/// debits each token's vault by its total.
pub proof fn lemma_settle_claims_props(vaults: AmountsV, totals: AmountsV)
    requires
        wf_vaults(vaults),
        wf_totals(totals),
    ensures
        match settle_claims(vaults, totals) {
            Ok(p) => {
                &&& wf_vaults(p.0)
                &&& p.1 == totals
                &&& forall|t: Seq<char>| #[trigger] amount_for(p.0, t) == amount_for(vaults, t)
                    - total_for(totals, t)
            },
            Err(_) => true,
        },
    decreases totals.len(),
{
    lemma_find_key(vaults, Seq::<char>::empty());
    if totals.len() == 0 {
        assert forall|t: Seq<char>| #[trigger] amount_for(vaults, t) == amount_for(vaults, t)
            - total_for(totals, t) by {
            assert(total_for(totals, t) == 0);
        }
    } else {
        let head = totals.drop_last();
        assert(forall|j: int| 0 <= j < head.len() ==> #[trigger] head[j] == totals[j]);
        assert(distinct_keys(head));
        lemma_settle_claims_props(vaults, head);
        match settle_claims(vaults, head) {
            Ok(p) => {
                let t0 = totals.last().0;
                let amt = totals.last().1;
                assert(0 < amt <= i128::MAX);
                let have = amount_for(p.0, t0);
                if have >= amt {
                    let v2 = with_key(p.0, t0, have - amt, true);
                    lemma_with_key_distinct(p.0, t0, have - amt, true);
                    lemma_with_key_values(p.0, t0, have - amt, true);
                    lemma_find_key(p.0, t0);
                    assert forall|t: Seq<char>| #[trigger] amount_for(v2, t) == amount_for(
                        vaults,
                        t,
                    ) - total_for(totals, t) by {
                        lemma_with_key_value_for(p.0, t0, have - amt, true, t);
                        assert(head.push(totals.last()) =~= totals);
                        crate::keyval::lemma_total_for_push(head, totals.last(), t);
                        assert(amount_for(p.0, t) == amount_for(vaults, t) - total_for(head, t));
                    }
                    assert(p.1.push((t0, amt)) =~= totals) by {
                        assert(p.1 == head);
                    }
                }
            },
            Err(_) => {},
        }
    }
}

/// Once a prefix fails, the whole fold fails: token maps into totals.
pub proof fn lemma_claim_tokens_none_extends(totals: AmountsV, tm: Seq<(Seq<char>, int)>, j: int, k: int)
    requires
        0 <= j <= k <= tm.len(),
        claim_tokens_into(totals, tm.take(j)) is None,
    ensures
        claim_tokens_into(totals, tm.take(k)) is None,
    decreases k - j,
{
    if k > j {
        lemma_claim_tokens_none_extends(totals, tm, j, k - 1);
        assert(tm.take(k).drop_last() =~= tm.take(k - 1));
        assert(tm.take(k).len() == k);
    }
}

/// Once a prefix fails, the whole fold fails: category maps into totals.
pub proof fn lemma_claim_cats_none_extends(totals: AmountsV, cm: CatsV, j: int, k: int)
    requires
        0 <= j <= k <= cm.len(),
        claim_cats_into(totals, cm.take(j)) is None,
    ensures
        claim_cats_into(totals, cm.take(k)) is None,
    decreases k - j,
{
    if k > j {
        lemma_claim_cats_none_extends(totals, cm, j, k - 1);
        assert(cm.take(k).drop_last() =~= cm.take(k - 1));
        assert(cm.take(k).len() == k);
    }
}

/// Once a prefix fails, the whole fold fails: accounts.
pub proof fn lemma_claim_accounts_none_extends(
    ledger: LedgerV,
    totals: AmountsV,
    accounts: Seq<Seq<char>>,
    j: int,
    k: int,
)
    requires
        0 <= j <= k <= accounts.len(),
        claim_accounts(ledger, totals, accounts.take(j)) is None,
    ensures
        claim_accounts(ledger, totals, accounts.take(k)) is None,
    decreases k - j,
{
    if k > j {
        lemma_claim_accounts_none_extends(ledger, totals, accounts, j, k - 1);
        assert(accounts.take(k).drop_last() =~= accounts.take(k - 1));
        assert(accounts.take(k).len() == k);
    }
}

/// Once a prefix fails, the whole fold fails: order ids.
pub proof fn lemma_claim_order_ids_none_extends(
    orders: AmountsV,
    totals: AmountsV,
    dextr: Seq<char>,
    receipt: Seq<char>,
    ids: Seq<u64>,
    j: int,
    k: int,
)
    requires
        0 <= j <= k <= ids.len(),
        claim_order_ids(orders, totals, dextr, receipt, ids.take(j)) is None,
    ensures
        claim_order_ids(orders, totals, dextr, receipt, ids.take(k)) is None,
    decreases k - j,
{
    if k > j {
        lemma_claim_order_ids_none_extends(orders, totals, dextr, receipt, ids, j, k - 1);
        assert(ids.take(k).drop_last() =~= ids.take(k - 1));
        assert(ids.take(k).len() == k);
    }
}

/// Once a prefix fails, the whole fold fails: order credentials.
pub proof fn lemma_claim_order_creds_none_extends(
    orders: AmountsV,
    totals: AmountsV,
    dextr: Seq<char>,
    creds: Seq<(Seq<char>, Seq<u64>)>,
    j: int,
    k: int,
)
    requires
        0 <= j <= k <= creds.len(),
        claim_order_creds(orders, totals, dextr, creds.take(j)) is None,
    ensures
        claim_order_creds(orders, totals, dextr, creds.take(k)) is None,
    decreases k - j,
{
    if k > j {
        lemma_claim_order_creds_none_extends(orders, totals, dextr, creds, j, k - 1);
        assert(creds.take(k).drop_last() =~= creds.take(k - 1));
        assert(creds.take(k).len() == k);
    }
}

/// Once a prefix fails, the whole settlement fails.
pub proof fn lemma_settle_err_extends(vaults: AmountsV, totals: AmountsV, j: int, k: int)
    requires
        0 <= j <= k <= totals.len(),
        settle_claims(vaults, totals.take(j)) is Err,
    ensures
        settle_claims(vaults, totals.take(k)) is Err,
    decreases k - j,
{
    if k > j {
        lemma_settle_err_extends(vaults, totals, j, k - 1);
        assert(totals.take(k).drop_last() =~= totals.take(k - 1));
        assert(totals.take(k).len() == k);
    }
}

/// Claim exactly-once: claiming a set of accounts leaves each of their
/// rows empty, so claiming the same accounts again changes nothing and
/// yields no totals at all.
pub proof fn lemma_claim_exactly_once(ledger: LedgerV, accounts: Seq<Seq<char>>)
    requires
        wf_ledger(ledger),
    ensures
        match claim_accounts(ledger, Seq::<(Seq<char>, int)>::empty(), accounts) {
            Some(p) => claim_accounts(p.0, Seq::<(Seq<char>, int)>::empty(), accounts) == Some(
                (p.0, Seq::<(Seq<char>, int)>::empty()),
            ),
            None => true,
        },
{
    assert(wf_totals(Seq::<(Seq<char>, int)>::empty()));
    lemma_claim_accounts_props(ledger, Seq::<(Seq<char>, int)>::empty(), accounts);
    match claim_accounts(ledger, Seq::<(Seq<char>, int)>::empty(), accounts) {
        Some(p) => {
            lemma_claim_empty_rows_identity(p.0, Seq::<(Seq<char>, int)>::empty(), accounts);
        },
        None => {},
    }
}

/// Claiming accounts whose rows are all empty or absent changes nothing
/// and adds nothing to the totals.
pub proof fn lemma_claim_empty_rows_identity(
    ledger: LedgerV,
    totals: AmountsV,
    accounts: Seq<Seq<char>>,
)
    requires
        forall|k: int|
            0 <= k < accounts.len() ==> match find_key(ledger, #[trigger] accounts[k]) {
                Some(i) => ledger[i].1.len() == 0,
                None => true,
            },
    ensures
        claim_accounts(ledger, totals, accounts) == Some((ledger, totals)),
    decreases accounts.len(),
{
    if accounts.len() > 0 {
        let head = accounts.drop_last();
        assert(forall|j: int| 0 <= j < head.len() ==> #[trigger] head[j] == accounts[j]);
        lemma_claim_empty_rows_identity(ledger, totals, head);
        let a = accounts.last();
        lemma_find_key(ledger, a);
        match find_key(ledger, a) {
            Some(i) => {
                assert(ledger[i].1.len() == 0);
                assert(ledger[i].1 =~= Seq::<(Seq<char>, AmountsV)>::empty());
                assert(claim_cats_into(totals, ledger[i].1) == Some(totals));
                assert(ledger.update(i, (ledger[i].0, Seq::<(Seq<char>, AmountsV)>::empty()))
                    =~= ledger);
            },
            None => {},
        }
    }
}

/// Order claim exactly-once: claiming a credential's order entries deletes
/// them, so a second claim of the same credential is a silent no-op that
/// contributes nothing to any total.
pub proof fn lemma_order_claim_exactly_once(
    orders: AmountsV,
    totals: AmountsV,
    dextr: Seq<char>,
    receipt: Seq<char>,
    ids: Seq<u64>,
)
    requires
        wf_orders(orders),
        wf_totals(totals),
    ensures
        match claim_order_ids(orders, totals, dextr, receipt, ids) {
            Some(p) => forall|ts: AmountsV|
                claim_order_ids(p.0, ts, dextr, receipt, ids) == Some((p.0, ts)),
            None => true,
        },
{
    lemma_claim_order_ids_props(orders, totals, dextr, receipt, ids);
    match claim_order_ids(orders, totals, dextr, receipt, ids) {
        Some(p) => {
            assert forall|ts: AmountsV| claim_order_ids(p.0, ts, dextr, receipt, ids) == Some(
                (p.0, ts),
            ) by {
                lemma_claim_absent_orders_identity(p.0, ts, dextr, receipt, ids);
            }
        },
        None => {},
    }
}

/// Claiming order entries that are all absent changes nothing.
pub proof fn lemma_claim_absent_orders_identity(
    orders: AmountsV,
    totals: AmountsV,
    dextr: Seq<char>,
    receipt: Seq<char>,
    ids: Seq<u64>,
)
    requires
        forall|k: int|
            0 <= k < ids.len() ==> find_key(orders, order_key(receipt, #[trigger] ids[k])) is None,
    ensures
        claim_order_ids(orders, totals, dextr, receipt, ids) == Some((orders, totals)),
    decreases ids.len(),
{
    if ids.len() > 0 {
        let head = ids.drop_last();
        assert(forall|j: int| 0 <= j < head.len() ==> #[trigger] head[j] == ids[j]);
        lemma_claim_absent_orders_identity(orders, totals, dextr, receipt, head);
        assert(find_key(orders, order_key(receipt, ids.last())) is None);
    }
}

/// What one claim call does, stated over the views: credential validation,
/// the account phase, the order phase, then settlement against custody.
pub open spec fn claim_rewards_spec(
    ledger: LedgerV,
    orders: AmountsV,
    vaults: AmountsV,
    dextr: Seq<char>,
    issuer: Seq<char>,
    acct_creds: Seq<(Seq<char>, Seq<char>)>,
    order_creds: Seq<(Seq<char>, Seq<u64>)>,
) -> Result<(LedgerV, AmountsV, AmountsV, Seq<(Seq<char>, int)>), ClaimError> {
    if exists|i: int| 0 <= i < acct_creds.len() && #[trigger] acct_creds[i].0 != issuer {
        Err(ClaimError::WrongCredential)
    } else {
        match claim_accounts(
            ledger,
            Seq::<(Seq<char>, int)>::empty(),
            acct_creds.map_values(|c: (Seq<char>, Seq<char>)| c.1),
        ) {
            None => Err(ClaimError::LedgerOverflow),
            Some(p) => match claim_order_creds(orders, p.1, dextr, order_creds) {
                None => Err(ClaimError::LedgerOverflow),
                Some(q) => match settle_claims(vaults, q.1) {
                    Err(_) => Err(ClaimError::CustodyShortfall),
                    Ok(s) => Ok((p.0, q.0, s.0, s.1)),
                },
            },
        }
    }
}

/// Account credentials, as specifications read them: (issuer, account).
pub open spec fn acct_creds_view(s: Seq<AccountCredential>) -> Seq<(Seq<char>, Seq<char>)> {
    s.map_values(|c: AccountCredential| (c.issuer@, c.account_id@))
}

/// Order credentials, as specifications read them: (receipt, order ids).
pub open spec fn order_creds_view(s: Seq<OrderCredential>) -> Seq<(Seq<char>, Seq<u64>)> {
    s.map_values(|c: OrderCredential| (c.receipt_address@, c.order_ids@))
}

/// Payout containers, as specifications read them: (token, amount).
pub open spec fn payouts_view(s: Seq<FundsContainer>) -> Seq<(Seq<char>, int)> {
    s.map_values(|c: FundsContainer| (c.token@, c.amount@))
}

/// Whether every presented account credential names the expected issuer.
pub(crate) fn all_issuers_match(creds: &Vec<AccountCredential>, issuer: &String) -> (r: bool)
    ensures
        r == !(exists|i: int|
            0 <= i < creds@.len() && #[trigger] acct_creds_view(creds@)[i].0 != issuer@),
{
    let ghost av = acct_creds_view(creds@);
    proof {
        assert(forall|j: int| 0 <= j < creds@.len() ==> #[trigger] av[j] == (
            creds@[j].issuer@,
            creds@[j].account_id@,
        ));
    }
    let mut i: usize = 0;
    while i < creds.len()
        invariant
            i <= creds@.len(),
            av == acct_creds_view(creds@),
            av.len() == creds@.len(),
            forall|j: int| 0 <= j < creds@.len() ==> #[trigger] av[j] == (
                creds@[j].issuer@,
                creds@[j].account_id@,
            ),
            forall|j: int| 0 <= j < i ==> #[trigger] av[j].0 == issuer@,
        decreases creds@.len() - i,
    {
        if !(creds[i].issuer == *issuer) {
            proof {
                assert(av[i as int].0 != issuer@);
            }
            return false;
        }
        i = i + 1;
    }
    true
}

/// Sums one token map into the running totals.
fn add_tokens_to_totals(totals: Vec<(String, Decimal)>, tm: &TokenMap) -> (r: Result<
    Vec<(String, Decimal)>,
    ClaimError,
>)
    requires
        wf_totals(amounts_view(totals@)),
        wf_tokens(amounts_view(tm@)),
    ensures
        match r {
            Ok(ts2) => claim_tokens_into(amounts_view(totals@), amounts_view(tm@)) == Some(
                amounts_view(ts2@),
            ),
            Err(e) => e == ClaimError::LedgerOverflow && claim_tokens_into(
                amounts_view(totals@),
                amounts_view(tm@),
            ) is None,
        },
{
    let ghost ts0 = amounts_view(totals@);
    let ghost tmv = amounts_view(tm@);
    proof {
        assert(forall|j: int| 0 <= j < tm@.len() ==> #[trigger] tmv[j] == (tm@[j].0@, tm@[j].1@));
    }
    let mut ts = totals;
    let mut j: usize = 0;
    while j < tm.len()
        invariant
            j <= tm@.len(),
            ts0 == amounts_view(totals@),
            tmv == amounts_view(tm@),
            tmv.len() == tm@.len(),
            forall|a: int| 0 <= a < tm@.len() ==> #[trigger] tmv[a] == (tm@[a].0@, tm@[a].1@),
            wf_tokens(tmv),
            wf_totals(amounts_view(ts@)),
            claim_tokens_into(ts0, tmv.take(j as int)) == Some(amounts_view(ts@)),
        decreases tm@.len() - j,
    {
        let ghost prev_ts = amounts_view(ts@);
        let key = &tm[j].0;
        let amt = tm[j].1;
        proof {
            assert(tmv.take(j + 1).drop_last() =~= tmv.take(j as int));
            assert(tmv.take(j + 1).last() == tmv[j as int]);
            assert(0 < tmv[j as int].1 <= i128::MAX);
        }
        let (prev, _) = crate::component::vault_balance(&ts, key);
        proof {
            lemma_find_key(prev_ts, key@);
            lemma_total_for_is_amount(prev_ts, key@);
        }
        let v = match prev.checked_add(amt) {
            Some(v) => v,
            None => {
                proof {
                    assert(claim_tokens_into(ts0, tmv.take(j + 1)) is None);
                    lemma_claim_tokens_none_extends(ts0, tmv, j + 1, tmv.len() as int);
                    assert(tmv.take(tmv.len() as int) =~= tmv);
                }
                return Err(ClaimError::LedgerOverflow);
            },
        };
        proof {
            lemma_with_key_distinct(prev_ts, key@, v@, true);
            lemma_with_key_values(prev_ts, key@, v@, true);
        }
        set_amount(&mut ts, key.clone(), v);
        proof {
            assert(with_key(prev_ts, key@, v@, v@ > 0) == with_key(prev_ts, key@, v@, true));
            assert(claim_tokens_into(ts0, tmv.take(j + 1)) == Some(amounts_view(ts@)));
        }
        j = j + 1;
    }
    proof {
        assert(tmv.take(tm@.len() as int) =~= tmv);
    }
    Ok(ts)
}

/// Sums one account row into the running totals.
pub(crate) fn add_row_to_totals(totals: Vec<(String, Decimal)>, cm: &CategoryMap) -> (r: Result<
    Vec<(String, Decimal)>,
    ClaimError,
>)
    requires
        wf_totals(amounts_view(totals@)),
        wf_cats(cats_view(cm@)),
    ensures
        match r {
            Ok(ts2) => claim_cats_into(amounts_view(totals@), cats_view(cm@)) == Some(
                amounts_view(ts2@),
            ),
            Err(e) => e == ClaimError::LedgerOverflow && claim_cats_into(
                amounts_view(totals@),
                cats_view(cm@),
            ) is None,
        },
{
    let ghost ts0 = amounts_view(totals@);
    let ghost cmv = cats_view(cm@);
    proof {
        assert(forall|j: int| 0 <= j < cm@.len() ==> #[trigger] cmv[j] == (
            cm@[j].0@,
            amounts_view(cm@[j].1@),
        ));
    }
    let mut ts = totals;
    let mut j: usize = 0;
    while j < cm.len()
        invariant
            j <= cm@.len(),
            ts0 == amounts_view(totals@),
            cmv == cats_view(cm@),
            cmv.len() == cm@.len(),
            forall|a: int| 0 <= a < cm@.len() ==> #[trigger] cmv[a] == (
                cm@[a].0@,
                amounts_view(cm@[a].1@),
            ),
            wf_cats(cmv),
            wf_totals(amounts_view(ts@)),
            claim_cats_into(ts0, cmv.take(j as int)) == Some(amounts_view(ts@)),
        decreases cm@.len() - j,
    {
        let ghost prev_ts = amounts_view(ts@);
        proof {
            assert(cmv.take(j + 1).drop_last() =~= cmv.take(j as int));
            assert(cmv.take(j + 1).last() == cmv[j as int]);
            assert(wf_tokens(cmv[j as int].1));
            lemma_claim_tokens_into_props(prev_ts, cmv[j as int].1);
        }
        ts = match add_tokens_to_totals(ts, &cm[j].1) {
            Ok(ts) => ts,
            Err(e) => {
                proof {
                    assert(claim_cats_into(ts0, cmv.take(j + 1)) is None);
                    lemma_claim_cats_none_extends(ts0, cmv, j + 1, cmv.len() as int);
                    assert(cmv.take(cmv.len() as int) =~= cmv);
                }
                return Err(e);
            },
        };
        proof {
            assert(claim_cats_into(ts0, cmv.take(j + 1)) == Some(amounts_view(ts@)));
        }
        j = j + 1;
    }
    proof {
        assert(cmv.take(cm@.len() as int) =~= cmv);
    }
    Ok(ts)
}

} // verus!
