//! The order ledger: a flat mapping from composite order key to one decimal
//! amount owed in the designated order-reward token.
//!
//! The composite key joins a receipt-series identifier and an order number.
//! Granting is a set operation: the entry takes the new amount, and the
//! custody contribution is the difference against the previous amount.
//! Removing deletes the entry and reports its stored amount; an absent key
//! contributes nothing. An entry exists exactly while its amount is
//! positive.

use vstd::prelude::*;

use crate::decimal::Decimal;
use crate::errors::ClaimError;
use crate::keyval::{
    distinct_keys, key_index, AmountsV, amount_for, with_key, total_all, find_key,
    lemma_find_key, lemma_find_key_unique, lemma_find_key_none, lemma_with_key_distinct,
    lemma_with_key_values, lemma_total_all_update, lemma_total_all_remove, lemma_total_all_push,
};
use crate::ledger::amounts_view;
use crate::text::{dec_digits, push_digits, string_to_chars, chars_to_string};

verus! {

broadcast use crate::decimal::lemma_decimal_range;

/// The order ledger.
pub type OrderLedger = Vec<(String, Decimal)>;

/// One receipt series and its per-order rewards, as a decoded batch holds
/// them.
#[derive(Clone, Debug)]
pub struct JsonPairOrderRewards {
    pub pair_receipt_address: String,
    pub pair_rewards: Vec<(u64, Decimal)>,
}

/// The per-order rewards of one receipt series, as specifications read them.
pub open spec fn pair_rewards_view(s: Seq<(u64, Decimal)>) -> Seq<(u64, int)> {
    s.map_values(|e: (u64, Decimal)| (e.0, e.1@))
}

pub open spec fn pair_view(p: JsonPairOrderRewards) -> (Seq<char>, Seq<(u64, int)>) {
    (p.pair_receipt_address@, pair_rewards_view(p.pair_rewards@))
}

pub open spec fn orders_batch_view(b: Seq<JsonPairOrderRewards>) -> Seq<
    (Seq<char>, Seq<(u64, int)>),
> {
    b.map_values(|p: JsonPairOrderRewards| pair_view(p))
}

/// The order ledger is well-formed: distinct keys, every amount strictly
/// positive and representable.
pub open spec fn wf_orders(om: AmountsV) -> bool {
    &&& distinct_keys(om)
    &&& forall|i: int| 0 <= i < om.len() ==> 0 < #[trigger] om[i].1 <= i128::MAX
}

/// The composite key of one order's entry.
pub open spec fn order_key(receipt: Seq<char>, id: u64) -> Seq<char> {
    receipt + seq!['#'] + dec_digits(id as int) + seq!['#']
}

/// Builds the composite key of one order's entry.
pub fn make_order_key(receipt: &str, id: u64) -> (r: String)
    ensures
        r@ == order_key(receipt@, id),
{
    let mut v = string_to_chars(receipt);
    v.push('#');
    push_digits(&mut v, id);
    v.push('#');
    proof {
        assert(v@ =~= order_key(receipt@, id));
    }
    chars_to_string(&v)
}

/// Granting an order reward: the entry is set to `amount` (pruned at zero),
/// and the custody contribution is the change against the previous amount.
pub open spec fn grant_order(om: AmountsV, key: Seq<char>, amount: int) -> (AmountsV, int) {
    (with_key(om, key, amount, amount > 0), amount - amount_for(om, key))
}

/// Removing an order reward: the entry is deleted, and its stored amount is
/// the custody contribution; an absent key contributes zero.
pub open spec fn remove_order(om: AmountsV, key: Seq<char>) -> (AmountsV, int) {
    (with_key(om, key, 0, false), amount_for(om, key))
}

/// One receipt series of a batch, applied left to right, with `net` the
/// running custody contribution. `None` exactly when the running total
/// leaves `i128`'s range.
pub open spec fn apply_pair_orders(
    om: AmountsV,
    receipt: Seq<char>,
    rewards: Seq<(u64, int)>,
    net: int,
    add: bool,
) -> Option<(AmountsV, int)>
    decreases rewards.len(),
{
    if rewards.len() == 0 {
        Some((om, net))
    } else {
        match apply_pair_orders(om, receipt, rewards.drop_last(), net, add) {
            Some(p) => {
                let key = order_key(receipt, rewards.last().0);
                let q = if add {
                    grant_order(p.0, key, rewards.last().1)
                } else {
                    remove_order(p.0, key)
                };
                if p.1 + q.1 > i128::MAX || p.1 + q.1 < i128::MIN {
                    None
                } else {
                    Some((q.0, p.1 + q.1))
                }
            },
            None => None,
        }
    }
}

/// A whole orders batch, series by series.
pub open spec fn apply_orders_batch(
    om: AmountsV,
    batch: Seq<(Seq<char>, Seq<(u64, int)>)>,
    net: int,
    add: bool,
) -> Option<(AmountsV, int)>
    decreases batch.len(),
{
    if batch.len() == 0 {
        Some((om, net))
    } else {
        match apply_orders_batch(om, batch.drop_last(), net, add) {
            Some(p) => apply_pair_orders(p.0, batch.last().0, batch.last().1, p.1, add),
            None => None,
        }
    }
}

/// How `with_key` moves the sum of all amounts.
pub proof fn lemma_with_key_total_all(s: AmountsV, k: Seq<char>, val: int, keep: bool)
    requires
        distinct_keys(s),
    ensures
        total_all(with_key(s, k, val, keep)) == total_all(s) + (if keep {
            val
        } else {
            0
        }) - amount_for(s, k),
{
    lemma_find_key(s, k);
    match find_key(s, k) {
        Some(i) => {
            if keep {
                lemma_total_all_update(s, i, val);
            } else {
                lemma_total_all_remove(s, i);
            }
        },
        None => {
            if keep {
                lemma_total_all_push(s, (k, val));
            }
        },
    }
}

/// One grant or removal keeps the order ledger well-formed and moves the
/// sum of all amounts by exactly the reported contribution (signed by
/// direction).
pub proof fn lemma_order_step_props(om: AmountsV, key: Seq<char>, amount: int, add: bool)
    requires
        wf_orders(om),
        0 <= amount <= i128::MAX,
    ensures
        ({
            let q = if add {
                grant_order(om, key, amount)
            } else {
                remove_order(om, key)
            };
            &&& wf_orders(q.0)
            &&& -i128::MAX <= q.1 <= i128::MAX
            &&& total_all(q.0) == total_all(om) + (if add {
                q.1
            } else {
                -q.1
            })
            &&& (!add ==> q.1 >= 0)
        }),
{
    lemma_find_key(om, key);
    let prev = amount_for(om, key);
    let val = if add {
        amount
    } else {
        0
    };
    let keep = add && amount > 0;
    lemma_with_key_distinct(om, key, val, keep);
    lemma_with_key_values(om, key, val, keep);
    lemma_with_key_total_all(om, key, val, keep);
}

/// A pair application keeps the ledger well-formed and moves the sum of all
/// amounts by the change in the running contribution.
pub proof fn lemma_apply_pair_orders_props(
    om: AmountsV,
    receipt: Seq<char>,
    rewards: Seq<(u64, int)>,
    net: int,
    add: bool,
)
    requires
        wf_orders(om),
        forall|j: int| 0 <= j < rewards.len() ==> 0 <= #[trigger] rewards[j].1 <= i128::MAX,
    ensures
        match apply_pair_orders(om, receipt, rewards, net, add) {
            Some(p) => wf_orders(p.0) && total_all(p.0) == total_all(om) + (if add {
                p.1 - net
            } else {
                -(p.1 - net)
            }) && (!add ==> p.1 >= net),
            None => true,
        },
    decreases rewards.len(),
{
    if rewards.len() > 0 {
        let head = rewards.drop_last();
        assert(forall|j: int| 0 <= j < head.len() ==> #[trigger] head[j] == rewards[j]);
        lemma_apply_pair_orders_props(om, receipt, head, net, add);
        match apply_pair_orders(om, receipt, head, net, add) {
            Some(p) => {
                assert(0 <= rewards.last().1 <= i128::MAX);
                lemma_order_step_props(p.0, order_key(receipt, rewards.last().0), rewards.last().1, add);
            },
            None => {},
        }
    }
}

/// A batch application keeps the ledger well-formed and moves the sum of
/// all amounts by the change in the running contribution.
pub proof fn lemma_apply_orders_batch_props(
    om: AmountsV,
    batch: Seq<(Seq<char>, Seq<(u64, int)>)>,
    net: int,
    add: bool,
)
    requires
        wf_orders(om),
        forall|i: int, j: int|
            0 <= i < batch.len() && 0 <= j < batch[i].1.len() ==> 0 <= #[trigger] batch[i].1[j].1
                <= i128::MAX,
    ensures
        match apply_orders_batch(om, batch, net, add) {
            Some(p) => wf_orders(p.0) && total_all(p.0) == total_all(om) + (if add {
                p.1 - net
            } else {
                -(p.1 - net)
            }) && (!add ==> p.1 >= net),
            None => true,
        },
    decreases batch.len(),
{
    if batch.len() > 0 {
        let head = batch.drop_last();
        assert(forall|i: int| 0 <= i < head.len() ==> #[trigger] head[i] == batch[i]);
        lemma_apply_orders_batch_props(om, head, net, add);
        match apply_orders_batch(om, head, net, add) {
            Some(p) => {
                assert(forall|j: int|
                    0 <= j < batch.last().1.len() ==> 0 <= #[trigger] batch.last().1[j].1
                        <= i128::MAX);
                lemma_apply_pair_orders_props(p.0, batch.last().0, batch.last().1, p.1, add);
            },
            None => {},
        }
    }
}

/// Once a prefix of a pair's rewards fails, the whole pair fails.
pub proof fn lemma_pair_none_extends(
    om: AmountsV,
    receipt: Seq<char>,
    rewards: Seq<(u64, int)>,
    net: int,
    add: bool,
    j: int,
    k: int,
)
    requires
        0 <= j <= k <= rewards.len(),
        apply_pair_orders(om, receipt, rewards.take(j), net, add) is None,
    ensures
        apply_pair_orders(om, receipt, rewards.take(k), net, add) is None,
    decreases k - j,
{
    if k > j {
        lemma_pair_none_extends(om, receipt, rewards, net, add, j, k - 1);
        assert(rewards.take(k).drop_last() =~= rewards.take(k - 1));
        assert(rewards.take(k).len() == k);
    }
}

/// Once a prefix of the batch fails, the whole batch fails.
pub proof fn lemma_orders_batch_none_extends(
    om: AmountsV,
    batch: Seq<(Seq<char>, Seq<(u64, int)>)>,
    net: int,
    add: bool,
    j: int,
    k: int,
)
    requires
        0 <= j <= k <= batch.len(),
        apply_orders_batch(om, batch.take(j), net, add) is None,
    ensures
        apply_orders_batch(om, batch.take(k), net, add) is None,
    decreases k - j,
{
    if k > j {
        lemma_orders_batch_none_extends(om, batch, net, add, j, k - 1);
        assert(batch.take(k).drop_last() =~= batch.take(k - 1));
        assert(batch.take(k).len() == k);
    }
}

/// One grant on an owned order ledger.
pub fn grant_order_exec(om: OrderLedger, key: String, amount: Decimal) -> (r: (
    OrderLedger,
    Decimal,
))
    requires
        wf_orders(amounts_view(om@)),
        amount@ >= 0,
    ensures
        (amounts_view(r.0@), r.1@) == grant_order(amounts_view(om@), key@, amount@),
{
    let ghost v0 = amounts_view(om@);
    let mut om = om;
    let idx = key_index(&om, &key);
    proof {
        assert(forall|j: int| 0 <= j < om@.len() ==> #[trigger] v0[j].0 == om@[j].0@ && v0[j].1
            == om@[j].1@);
        match idx {
            Some(i) => {
                lemma_find_key_unique(v0, key@, i as int);
            },
            None => {
                lemma_find_key_none(v0, key@);
            },
        }
    }
    match idx {
        Some(i) => {
            let prev = om[i].1;
            proof {
                assert(0 < v0[i as int].1 <= i128::MAX);
            }
            let delta = Decimal::from_atto(amount.atto() - prev.atto());
            if amount.is_positive() {
                let (k, _) = om.remove(i);
                om.insert(i, (k, amount));
                proof {
                    assert(amounts_view(om@) =~= with_key(v0, key@, amount@, amount@ > 0));
                }
            } else {
                om.remove(i);
                proof {
                    assert(amounts_view(om@) =~= with_key(v0, key@, amount@, amount@ > 0));
                }
            }
            (om, delta)
        },
        None => {
            if amount.is_positive() {
                om.push((key, amount));
                proof {
                    assert(amounts_view(om@) =~= with_key(v0, key@, amount@, amount@ > 0));
                }
            } else {
                proof {
                    assert(amounts_view(om@) =~= with_key(v0, key@, amount@, amount@ > 0));
                }
            }
            (om, amount)
        },
    }
}

/// One removal on an owned order ledger.
pub fn remove_order_exec(om: OrderLedger, key: &String) -> (r: (OrderLedger, Decimal))
    requires
        wf_orders(amounts_view(om@)),
    ensures
        (amounts_view(r.0@), r.1@) == remove_order(amounts_view(om@), key@),
{
    let ghost v0 = amounts_view(om@);
    let mut om = om;
    let idx = key_index(&om, key);
    proof {
        assert(forall|j: int| 0 <= j < om@.len() ==> #[trigger] v0[j].0 == om@[j].0@ && v0[j].1
            == om@[j].1@);
        match idx {
            Some(i) => {
                lemma_find_key_unique(v0, key@, i as int);
            },
            None => {
                lemma_find_key_none(v0, key@);
            },
        }
    }
    match idx {
        Some(i) => {
            let (_, prev) = om.remove(i);
            proof {
                assert(amounts_view(om@) =~= with_key(v0, key@, 0, false));
            }
            (om, prev)
        },
        None => {
            (om, Decimal::zero())
        },
    }
}

/// A whole orders batch on an owned order ledger: the result is exactly
/// what `apply_orders_batch` says of the inputs' views.
pub fn apply_orders_batch_exec(om: OrderLedger, batch: &Vec<JsonPairOrderRewards>, add: bool) -> (r:
    Result<(OrderLedger, Decimal), ClaimError>)
    requires
        wf_orders(amounts_view(om@)),
        forall|i: int, j: int|
            0 <= i < batch@.len() && 0 <= j < batch@[i].pair_rewards@.len()
                ==> #[trigger] batch@[i].pair_rewards@[j].1@ >= 0,
    ensures
        match r {
            Ok(p) => apply_orders_batch(amounts_view(om@), orders_batch_view(batch@), 0, add)
                == Some((amounts_view(p.0@), p.1@)),
            Err(e) => e == ClaimError::LedgerOverflow && apply_orders_batch(
                amounts_view(om@),
                orders_batch_view(batch@),
                0,
                add,
            ) is None,
        },
{
    let ghost om0 = amounts_view(om@);
    let ghost bv = orders_batch_view(batch@);
    proof {
        assert(forall|i: int| 0 <= i < batch@.len() ==> #[trigger] bv[i] == pair_view(batch@[i]));
    }
    let mut cur = om;
    let mut net = Decimal::zero();
    let mut i: usize = 0;
    while i < batch.len()
        invariant
            i <= batch@.len(),
            om0 == amounts_view(om@),
            bv == orders_batch_view(batch@),
            bv.len() == batch@.len(),
            forall|a: int| 0 <= a < batch@.len() ==> #[trigger] bv[a] == pair_view(batch@[a]),
            forall|a: int, b: int|
                0 <= a < batch@.len() && 0 <= b < batch@[a].pair_rewards@.len()
                    ==> #[trigger] batch@[a].pair_rewards@[b].1@ >= 0,
            wf_orders(amounts_view(cur@)),
            apply_orders_batch(om0, bv.take(i as int), 0, add) == Some((amounts_view(cur@), net@)),
        decreases batch@.len() - i,
    {
        let pair = &batch[i];
        let receipt = &pair.pair_receipt_address;
        let ghost pv = pair_rewards_view(pair.pair_rewards@);
        let ghost om_i = amounts_view(cur@);
        let ghost net_i = net@;
        proof {
            assert(forall|b: int| 0 <= b < pair.pair_rewards@.len() ==> #[trigger] pv[b] == (
                pair.pair_rewards@[b].0,
                pair.pair_rewards@[b].1@,
            ));
        }
        let mut j: usize = 0;
        while j < pair.pair_rewards.len()
            invariant
                j <= pair.pair_rewards@.len(),
                i < batch@.len(),
                om0 == amounts_view(om@),
                bv == orders_batch_view(batch@),
                bv.len() == batch@.len(),
                bv[i as int] == pair_view(batch@[i as int]),
                pair == batch@[i as int],
                bv[i as int].0 == receipt@,
                bv[i as int].1 == pv,
                apply_orders_batch(om0, bv.take(i as int), 0, add) == Some((om_i, net_i)),
                pv == pair_rewards_view(pair.pair_rewards@),
                pv.len() == pair.pair_rewards@.len(),
                forall|b: int| 0 <= b < pair.pair_rewards@.len() ==> #[trigger] pv[b] == (
                    pair.pair_rewards@[b].0,
                    pair.pair_rewards@[b].1@,
                ),
                forall|b: int|
                    0 <= b < pair.pair_rewards@.len() ==> #[trigger] pair.pair_rewards@[b].1@ >= 0,
                wf_orders(amounts_view(cur@)),
                apply_pair_orders(om_i, receipt@, pv.take(j as int), net_i, add) == Some(
                    (amounts_view(cur@), net@),
                ),
            decreases pair.pair_rewards@.len() - j,
        {
            let id = pair.pair_rewards[j].0;
            let amt = pair.pair_rewards[j].1;
            let key = make_order_key(receipt.as_str(), id);
            let ghost prev_cur = amounts_view(cur@);
            proof {
                assert(pv.take(j + 1).drop_last() =~= pv.take(j as int));
                assert(pv.take(j + 1).last() == pv[j as int]);
            }
            let (om2, delta) = if add {
                grant_order_exec(cur, key, amt)
            } else {
                let p = remove_order_exec(cur, &key);
                p
            };
            cur = om2;
            proof {
                lemma_order_step_props(prev_cur, key@, if add {
                    amt@
                } else {
                    0
                }, add);
            }
            match net.checked_add(delta) {
                None => {
                    proof {
                        assert(apply_pair_orders(om_i, receipt@, pv.take(j + 1), net_i, add)
                            is None);
                        lemma_pair_none_extends(
                            om_i,
                            receipt@,
                            pv,
                            net_i,
                            add,
                            j + 1,
                            pv.len() as int,
                        );
                        assert(pv.take(pv.len() as int) =~= pv);
                        assert(bv.take(i + 1).drop_last() =~= bv.take(i as int));
                        assert(bv.take(i + 1).last() == bv[i as int]);
                        assert(apply_orders_batch(om0, bv.take(i + 1), 0, add) is None);
                        lemma_orders_batch_none_extends(om0, bv, 0, add, i + 1, bv.len() as int);
                        assert(bv.take(bv.len() as int) =~= bv);
                    }
                    return Err(ClaimError::LedgerOverflow);
                },
                Some(n2) => {
                    net = n2;
                    proof {
                        assert(apply_pair_orders(om_i, receipt@, pv.take(j + 1), net_i, add)
                            == Some((amounts_view(cur@), net@)));
                    }
                    j = j + 1;
                },
            }
        }
        proof {
            assert(pv.take(pair.pair_rewards@.len() as int) =~= pv);
            assert(bv.take(i + 1).drop_last() =~= bv.take(i as int));
            assert(bv.take(i + 1).last() == bv[i as int]);
            assert(apply_orders_batch(om0, bv.take(i + 1), 0, add) == Some(
                (amounts_view(cur@), net@),
            ));
        }
        i = i + 1;
    }
    proof {
        assert(bv.take(batch@.len() as int) =~= bv);
    }
    Ok((cur, net))
}

} // verus!
