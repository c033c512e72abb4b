//! The account ledger: per-account, per-category, per-token balances.
//!
//! A ledger is a keyed list of account rows; a row is a keyed list of
//! category sub-maps; a sub-map is a keyed list of token balances. A token
//! balance is present only while it is strictly positive, and a category is
//! present only while it holds at least one balance; an account row, once
//! created, stays present even when emptied, so that a last-known row can
//! still be shown for the account.
//!
//! Merging is additive with checked arithmetic; unmerging clamps at the
//! current balance and never drives a balance negative. Each step reports
//! the amount actually applied, which is what custody reconciliation moves.

use vstd::prelude::*;

use crate::decimal::Decimal;
use crate::errors::ClaimError;
use crate::keyval::{
    find_key, distinct_keys, key_index, AmountsV, total_for, amount_for, with_key,
    sum_values, lemma_find_key, lemma_find_key_unique, lemma_find_key_none,
    lemma_with_key_distinct, lemma_with_key_total_for, lemma_total_for_is_amount,
    lemma_with_key_value_for, lemma_with_key_sum, lemma_sum_values_update, lemma_sum_values_push,
};

verus! {

broadcast use crate::decimal::lemma_decimal_range;

/// Token balances of one category: token identifier to positive amount.
pub type TokenMap = Vec<(String, Decimal)>;

/// Category sub-maps of one account row: category name to token balances.
pub type CategoryMap = Vec<(String, TokenMap)>;

/// The account ledger: account identifier to category sub-maps.
pub type AccountLedger = Vec<(String, CategoryMap)>;

/// Category sub-maps, as specifications read them.
pub type CatsV = Seq<(Seq<char>, AmountsV)>;

/// The account ledger, as specifications read it.
pub type LedgerV = Seq<(Seq<char>, CatsV)>;

/// A keyed list of amounts, as specifications read it.
pub open spec fn amounts_view(s: Seq<(String, Decimal)>) -> AmountsV {
    s.map_values(|e: (String, Decimal)| (e.0@, e.1@))
}

pub open spec fn cats_view(s: Seq<(String, TokenMap)>) -> CatsV {
    s.map_values(|e: (String, TokenMap)| (e.0@, amounts_view(e.1@)))
}

pub open spec fn ledger_view(s: Seq<(String, CategoryMap)>) -> LedgerV {
    s.map_values(|e: (String, CategoryMap)| (e.0@, cats_view(e.1@)))
}

/// Token balances are well-formed: distinct tokens, every amount strictly
/// positive and representable.
pub open spec fn wf_tokens(tm: AmountsV) -> bool {
    &&& distinct_keys(tm)
    &&& forall|i: int| 0 <= i < tm.len() ==> 0 < #[trigger] tm[i].1 <= i128::MAX
}

/// A category map is well-formed: distinct categories, every sub-map
/// well-formed and non-empty.
pub open spec fn wf_cats(cm: CatsV) -> bool {
    &&& distinct_keys(cm)
    &&& forall|i: int| 0 <= i < cm.len() ==> wf_tokens(#[trigger] cm[i].1) && cm[i].1.len() > 0
}

/// The ledger is well-formed: distinct accounts, every row well-formed.
/// Rows may be empty.
pub open spec fn wf_ledger(l: LedgerV) -> bool {
    &&& distinct_keys(l)
    &&& forall|i: int| 0 <= i < l.len() ==> wf_cats(#[trigger] l[i].1)
}

/// The token map with the balance of `k` set to `val`, entries of zero
/// balance pruned.
pub open spec fn tokens_with(tm: AmountsV, k: Seq<char>, val: int) -> AmountsV {
    with_key(tm, k, val, val > 0)
}

/// The category map with the sub-map of `k` set to `sub`, empty sub-maps
/// pruned.
pub open spec fn cats_with(cm: CatsV, k: Seq<char>, sub: AmountsV) -> CatsV {
    with_key(cm, k, sub, sub.len() > 0)
}

/// The sub-map of category `k`, empty when the category is absent.
pub open spec fn cats_sub(cm: CatsV, k: Seq<char>) -> AmountsV {
    match find_key(cm, k) {
        Some(i) => cm[i].1,
        None => Seq::empty(),
    }
}

/// One merge (`add == true`) or unmerge step on one token map: the new map
/// and the amount actually applied. `None` exactly on overflow.
///
/// Adding puts the full `amount` in; removing applies the smaller of the
/// requested amount and the present balance, so a balance never goes below
/// zero and over-removal silently clamps.
pub open spec fn apply_tokens(tm: AmountsV, token: Seq<char>, amount: int, add: bool) -> Option<
    (AmountsV, int),
> {
    let prev = amount_for(tm, token);
    if add {
        if prev + amount > i128::MAX {
            None
        } else {
            Some((tokens_with(tm, token, prev + amount), amount))
        }
    } else {
        let applied = if prev <= amount {
            prev
        } else {
            amount
        };
        Some((tokens_with(tm, token, prev - applied), applied))
    }
}

/// One merge or unmerge step on one category map.
pub open spec fn apply_cats(
    cm: CatsV,
    cat: Seq<char>,
    token: Seq<char>,
    amount: int,
    add: bool,
) -> Option<(CatsV, int)> {
    match apply_tokens(cats_sub(cm, cat), token, amount, add) {
        Some((tm2, applied)) => Some((cats_with(cm, cat, tm2), applied)),
        None => None,
    }
}

/// One merge or unmerge step on the whole ledger, for one account.
///
/// A missing row is created on a merge; an unmerge against a missing row is
/// skipped entirely and applies nothing.
pub open spec fn apply_ledger_one(
    l: LedgerV,
    account: Seq<char>,
    cat: Seq<char>,
    token: Seq<char>,
    amount: int,
    add: bool,
) -> Option<(LedgerV, int)> {
    match find_key(l, account) {
        Some(i) => match apply_cats(l[i].1, cat, token, amount, add) {
            Some((cm2, applied)) => Some((l.update(i, (l[i].0, cm2)), applied)),
            None => None,
        },
        None => if add {
            match apply_cats(Seq::empty(), cat, token, amount, add) {
                Some((cm2, applied)) => Some((l.push((account, cm2)), applied)),
                None => None,
            }
        } else {
            Some((l, 0))
        },
    }
}

/// The balance of one (account, category, token) cell; zero when any level
/// is absent.
pub open spec fn balance_of(
    l: LedgerV,
    account: Seq<char>,
    cat: Seq<char>,
    token: Seq<char>,
) -> int {
    match find_key(l, account) {
        Some(i) => amount_for(cats_sub(l[i].1, cat), token),
        None => 0,
    }
}

/// The summand for per-token sums over a category map.
pub open spec fn token_summand(t: Seq<char>) -> spec_fn(AmountsV) -> int {
    |v: AmountsV| total_for(v, t)
}

/// All balances a category map holds in token `t`, summed over categories.
pub open spec fn cats_total_for(cm: CatsV, t: Seq<char>) -> int {
    sum_values(cm, token_summand(t))
}

/// The summand for per-token sums over the ledger.
pub open spec fn cats_summand(t: Seq<char>) -> spec_fn(CatsV) -> int {
    |v: CatsV| cats_total_for(v, t)
}

/// All balances the ledger holds in token `t`, summed over accounts.
pub open spec fn ledger_total_for(l: LedgerV, t: Seq<char>) -> int {
    sum_values(l, cats_summand(t))
}

/// How one token-map step moves the per-token sum: by the applied amount on
/// the touched token (signed by direction), not at all elsewhere.
pub proof fn lemma_apply_tokens_total(
    tm: AmountsV,
    token: Seq<char>,
    amount: int,
    add: bool,
    t: Seq<char>,
)
    requires
        wf_tokens(tm),
        amount >= 0,
    ensures
        match apply_tokens(tm, token, amount, add) {
            Some(p) => total_for(p.0, t) == total_for(tm, t) + (if t == token {
                if add {
                    p.1
                } else {
                    -p.1
                }
            } else {
                0
            }),
            None => true,
        },
{
    lemma_find_key(tm, token);
    lemma_total_for_is_amount(tm, token);
    let prev = amount_for(tm, token);
    match apply_tokens(tm, token, amount, add) {
        Some(p) => {
            let val = if add {
                prev + amount
            } else {
                prev - (if prev <= amount {
                    prev
                } else {
                    amount
                })
            };
            lemma_with_key_total_for(tm, token, val, val > 0, t);
        },
        None => {},
    }
}

/// The same one level up: a category-map step moves the per-token sum by
/// the applied amount.
pub proof fn lemma_apply_cats_total(
    cm: CatsV,
    cat: Seq<char>,
    token: Seq<char>,
    amount: int,
    add: bool,
    t: Seq<char>,
)
    requires
        wf_cats(cm),
        amount >= 0,
    ensures
        match apply_cats(cm, cat, token, amount, add) {
            Some(p) => cats_total_for(p.0, t) == cats_total_for(cm, t) + (if t == token {
                if add {
                    p.1
                } else {
                    -p.1
                }
            } else {
                0
            }),
            None => true,
        },
{
    lemma_find_key(cm, cat);
    let sub = cats_sub(cm, cat);
    assert(wf_tokens(sub));
    lemma_apply_tokens_total(sub, token, amount, add, t);
    match apply_tokens(sub, token, amount, add) {
        Some(p) => {
            let tm2 = p.0;
            lemma_with_key_sum(cm, cat, tm2, tm2.len() > 0, token_summand(t));
            if tm2.len() == 0 {
                assert(total_for(tm2, t) == 0);
            }
            assert(total_for(Seq::<(Seq<char>, int)>::empty(), t) == 0);
        },
        None => {},
    }
}

/// The same at the ledger level, for one account.
pub proof fn lemma_apply_ledger_one_total(
    l: LedgerV,
    account: Seq<char>,
    cat: Seq<char>,
    token: Seq<char>,
    amount: int,
    add: bool,
    t: Seq<char>,
)
    requires
        wf_ledger(l),
        amount >= 0,
    ensures
        match apply_ledger_one(l, account, cat, token, amount, add) {
            Some(p) => ledger_total_for(p.0, t) == ledger_total_for(l, t) + (if t == token {
                if add {
                    p.1
                } else {
                    -p.1
                }
            } else {
                0
            }),
            None => true,
        },
{
    lemma_find_key(l, account);
    match find_key(l, account) {
        Some(i) => {
            lemma_apply_cats_total(l[i].1, cat, token, amount, add, t);
            match apply_cats(l[i].1, cat, token, amount, add) {
                Some(p) => {
                    lemma_sum_values_update(l, i, (l[i].0, p.0), cats_summand(t));
                },
                None => {},
            }
        },
        None => {
            assert(wf_cats(Seq::empty()));
            lemma_apply_cats_total(Seq::empty(), cat, token, amount, add, t);
            if add {
                match apply_cats(Seq::empty(), cat, token, amount, add) {
                    Some(p) => {
                        lemma_sum_values_push(l, (account, p.0), cats_summand(t));
                        assert(cats_total_for(Seq::empty(), t) == 0);
                    },
                    None => {},
                }
            }
        },
    }
}

/// A whole batch moves the per-token sum by its reported total, signed by
/// its direction, and touches no other token's sum.
pub proof fn lemma_apply_ledger_batch_total(
    l: LedgerV,
    rewards: AmountsV,
    cat: Seq<char>,
    token: Seq<char>,
    add: bool,
    t: Seq<char>,
)
    requires
        wf_ledger(l),
        forall|j: int| 0 <= j < rewards.len() ==> #[trigger] rewards[j].1 >= 0,
    ensures
        match apply_ledger_batch(l, rewards, cat, token, add) {
            Some(p) => ledger_total_for(p.0, t) == ledger_total_for(l, t) + (if t == token {
                if add {
                    p.1
                } else {
                    -p.1
                }
            } else {
                0
            }),
            None => true,
        },
    decreases rewards.len(),
{
    if rewards.len() > 0 {
        let head = rewards.drop_last();
        assert(forall|j: int| 0 <= j < head.len() ==> #[trigger] head[j] == rewards[j]);
        lemma_apply_ledger_batch_total(l, head, cat, token, add, t);
        lemma_apply_ledger_batch_props(l, head, cat, token, add);
        match apply_ledger_batch(l, head, cat, token, add) {
            Some(p) => {
                assert(rewards.last().1 >= 0);
                lemma_apply_ledger_one_total(
                    p.0,
                    rewards.last().0,
                    cat,
                    token,
                    rewards.last().1,
                    add,
                    t,
                );
            },
            None => {},
        }
    }
}

/// Floor at zero: an unmerge always succeeds, applies exactly the smaller
/// of the requested amount and the present balance, and leaves the cell at
/// their difference, never below zero.
pub proof fn lemma_floor_at_zero(
    l: LedgerV,
    account: Seq<char>,
    cat: Seq<char>,
    token: Seq<char>,
    amount: int,
)
    requires
        wf_ledger(l),
        amount >= 0,
    ensures
        match apply_ledger_one(l, account, cat, token, amount, false) {
            Some(p) => {
                let bal = balance_of(l, account, cat, token);
                &&& p.1 == (if bal <= amount {
                    bal
                } else {
                    amount
                })
                &&& balance_of(p.0, account, cat, token) == bal - p.1
                &&& balance_of(p.0, account, cat, token) >= 0
            },
            None => false,
        },
{
    lemma_find_key(l, account);
    match find_key(l, account) {
        Some(i) => {
            let cm = l[i].1;
            let sub = cats_sub(cm, cat);
            lemma_find_key(cm, cat);
            assert(wf_tokens(sub));
            lemma_total_for_is_amount(sub, token);
            lemma_find_key(sub, token);
            let prev = amount_for(sub, token);
            let applied = if prev <= amount {
                prev
            } else {
                amount
            };
            let val = prev - applied;
            let tm2 = tokens_with(sub, token, val);
            let cm2 = cats_with(cm, cat, tm2);
            lemma_with_key_value_for(sub, token, val, val > 0, token);
            lemma_with_key_value_for(cm, cat, tm2, tm2.len() > 0, cat);
            let l2 = l.update(i, (l[i].0, cm2));
            assert(forall|j: int| 0 <= j < l2.len() ==> #[trigger] l2[j].0 == l[j].0);
            lemma_find_key_unique(l2, account, i);
            if tm2.len() > 0 {
                assert(cats_sub(l2[i].1, cat) == tm2);
                assert(amount_for(tm2, token) == val);
            } else {
                assert(cats_sub(l2[i].1, cat) =~= Seq::<(Seq<char>, int)>::empty());
                if val > 0 {
                    lemma_find_key(tm2, token);
                }
            }
        },
        None => {},
    }
}

/// Merging an amount and then unmerging it restores a token map exactly.
pub proof fn lemma_tokens_roundtrip(tm: AmountsV, token: Seq<char>, amount: int)
    requires
        wf_tokens(tm),
        amount >= 0,
        amount_for(tm, token) + amount <= i128::MAX,
    ensures
        match apply_tokens(tm, token, amount, true) {
            Some(p) => apply_tokens(p.0, token, amount, false) == Some((tm, amount)),
            None => false,
        },
{
    lemma_find_key(tm, token);
    lemma_total_for_is_amount(tm, token);
    let prev = amount_for(tm, token);
    let val1 = prev + amount;
    let tm1 = tokens_with(tm, token, val1);
    lemma_with_key_distinct(tm, token, val1, val1 > 0);
    lemma_with_key_value_for(tm, token, val1, val1 > 0, token);
    // after the merge, the balance reads prev + amount
    assert(amount_for(tm1, token) == val1);
    let applied = if val1 <= amount {
        val1
    } else {
        amount
    };
    assert(applied == amount);
    let val2 = val1 - amount;
    assert(val2 == prev);
    let tm2 = tokens_with(tm1, token, prev);
    match find_key(tm, token) {
        Some(i) => {
            // the merge updated in place; the unmerge writes the old value back
            assert(prev == tm[i].1);
            assert(val1 > 0);
            assert(tm1 == tm.update(i, (tm[i].0, val1)));
            assert(forall|j: int| 0 <= j < tm1.len() ==> #[trigger] tm1[j].0 == tm[j].0);
            lemma_find_key_unique(tm1, token, i);
            assert(tm2 == tm1.update(i, (tm1[i].0, prev)));
            assert(tm2 =~= tm);
        },
        None => {
            assert(prev == 0);
            if amount > 0 {
                // the merge appended a fresh entry; the unmerge drops it
                assert(tm1 == tm.push((token, amount)));
                lemma_find_key_unique(tm1, token, tm.len() as int);
                assert(tm2 == tm1.remove(tm.len() as int));
                assert(tm2 =~= tm);
            } else {
                // a zero merge changes nothing either way
                assert(tm1 == tm);
                assert(tm2 == tm);
            }
        },
    }
}

/// Merging an amount and then unmerging it restores a category map exactly.
pub proof fn lemma_cats_roundtrip(cm: CatsV, cat: Seq<char>, token: Seq<char>, amount: int)
    requires
        wf_cats(cm),
        amount >= 0,
        amount_for(cats_sub(cm, cat), token) + amount <= i128::MAX,
    ensures
        match apply_cats(cm, cat, token, amount, true) {
            Some(p) => apply_cats(p.0, cat, token, amount, false) == Some((cm, amount)),
            None => false,
        },
{
    lemma_find_key(cm, cat);
    let sub = cats_sub(cm, cat);
    assert(wf_tokens(sub));
    lemma_tokens_roundtrip(sub, token, amount);
    let prev = amount_for(sub, token);
    let tm1 = tokens_with(sub, token, prev + amount);
    let cm1 = cats_with(cm, cat, tm1);
    lemma_with_key_distinct(cm, cat, tm1, tm1.len() > 0);
    lemma_with_key_value_for(cm, cat, tm1, tm1.len() > 0, cat);
    // the unmerge sees exactly the merged sub-map (an absent category reads
    // as the empty one)
    assert(cats_sub(cm1, cat) =~= tm1);
    let cm2 = cats_with(cm1, cat, sub);
    match find_key(cm, cat) {
        Some(i) => {
            assert(sub == cm[i].1);
            assert(sub.len() > 0);
            assert(tm1.len() > 0);
            assert(cm1 == cm.update(i, (cm[i].0, tm1)));
            assert(forall|j: int| 0 <= j < cm1.len() ==> #[trigger] cm1[j].0 == cm[j].0);
            lemma_find_key_unique(cm1, cat, i);
            assert(cm2 == cm1.update(i, (cm1[i].0, sub)));
            assert(cm2 =~= cm);
        },
        None => {
            assert(sub =~= Seq::<(Seq<char>, int)>::empty());
            if tm1.len() > 0 {
                assert(cm1 == cm.push((cat, tm1)));
                lemma_find_key_unique(cm1, cat, cm.len() as int);
                assert(cm2 == cm1.remove(cm.len() as int));
                assert(cm2 =~= cm);
            } else {
                assert(cm1 == cm);
                assert(cm2 == cm);
            }
        },
    }
}

/// Merge idempotence under net zero: merging an amount into one (account,
/// category, token) cell and then unmerging the same amount restores the
/// ledger exactly — except that a row created by the merge stays behind,
/// empty, as rows are never deleted once created.
pub proof fn lemma_merge_roundtrip(
    l: LedgerV,
    account: Seq<char>,
    cat: Seq<char>,
    token: Seq<char>,
    amount: int,
)
    requires
        wf_ledger(l),
        amount >= 0,
        balance_of(l, account, cat, token) + amount <= i128::MAX,
    ensures
        match apply_ledger_one(l, account, cat, token, amount, true) {
            Some(p) => apply_ledger_one(p.0, account, cat, token, amount, false) == Some(
                (
                    match find_key(l, account) {
                        Some(_) => l,
                        None => l.push((account, Seq::<(Seq<char>, AmountsV)>::empty())),
                    },
                    amount,
                ),
            ),
            None => false,
        },
{
    lemma_find_key(l, account);
    match find_key(l, account) {
        Some(i) => {
            let cm = l[i].1;
            lemma_cats_roundtrip(cm, cat, token, amount);
            match apply_cats(cm, cat, token, amount, true) {
                Some(p) => {
                    let l1 = l.update(i, (l[i].0, p.0));
                    assert(forall|j: int| 0 <= j < l1.len() ==> #[trigger] l1[j].0 == l[j].0);
                    lemma_find_key_unique(l1, account, i);
                    let l2 = l1.update(i, (l1[i].0, cm));
                    assert(l2 =~= l);
                },
                None => {},
            }
        },
        None => {
            let cm = Seq::<(Seq<char>, AmountsV)>::empty();
            assert(wf_cats(cm));
            assert(amount_for(cats_sub(cm, cat), token) == 0);
            lemma_cats_roundtrip(cm, cat, token, amount);
            match apply_cats(cm, cat, token, amount, true) {
                Some(p) => {
                    let l1 = l.push((account, p.0));
                    lemma_find_key(l, account);
                    assert(forall|j: int| 0 <= j < l.len() ==> #[trigger] l1[j] == l[j]);
                    assert(distinct_keys(l1));
                    lemma_find_key_unique(l1, account, l.len() as int);
                    let l2 = l1.update(l.len() as int, (l1[l.len() as int].0, cm));
                    assert(l2 =~= l.push((account, cm)));
                },
                None => {},
            }
        },
    }
}

/// A whole batch of merge or unmerge steps, one per (account, amount) pair,
/// all in one category and one token, applied left to right. The second
/// component is the running total of applied amounts, itself checked.
pub open spec fn apply_ledger_batch(
    l: LedgerV,
    rewards: AmountsV,
    cat: Seq<char>,
    token: Seq<char>,
    add: bool,
) -> Option<(LedgerV, int)>
    decreases rewards.len(),
{
    if rewards.len() == 0 {
        Some((l, 0))
    } else {
        match apply_ledger_batch(l, rewards.drop_last(), cat, token, add) {
            Some(p) => match apply_ledger_one(
                p.0,
                rewards.last().0,
                cat,
                token,
                rewards.last().1,
                add,
            ) {
                Some(q) => if p.1 + q.1 > i128::MAX {
                    None
                } else {
                    Some((q.0, p.1 + q.1))
                },
                None => None,
            },
            None => None,
        }
    }
}

/// Once a prefix of the batch fails, the whole batch fails.
pub proof fn lemma_batch_none_extends(
    l: LedgerV,
    rewards: AmountsV,
    cat: Seq<char>,
    token: Seq<char>,
    add: bool,
    j: int,
    k: int,
)
    requires
        0 <= j <= k <= rewards.len(),
        apply_ledger_batch(l, rewards.take(j), cat, token, add) is None,
    ensures
        apply_ledger_batch(l, rewards.take(k), cat, token, add) is None,
    decreases k - j,
{
    if k > j {
        lemma_batch_none_extends(l, rewards, cat, token, add, j, k - 1);
        assert(rewards.take(k).drop_last() =~= rewards.take(k - 1));
        assert(rewards.take(k).len() == k);
    }
}

/// A batch keeps the ledger well-formed and totals a nonnegative amount.
pub proof fn lemma_apply_ledger_batch_props(
    l: LedgerV,
    rewards: AmountsV,
    cat: Seq<char>,
    token: Seq<char>,
    add: bool,
)
    requires
        wf_ledger(l),
        forall|j: int| 0 <= j < rewards.len() ==> #[trigger] rewards[j].1 >= 0,
    ensures
        match apply_ledger_batch(l, rewards, cat, token, add) {
            Some(p) => wf_ledger(p.0) && p.1 >= 0,
            None => true,
        },
    decreases rewards.len(),
{
    if rewards.len() > 0 {
        let head = rewards.drop_last();
        assert(forall|j: int| 0 <= j < head.len() ==> #[trigger] head[j] == rewards[j]);
        lemma_apply_ledger_batch_props(l, head, cat, token, add);
        match apply_ledger_batch(l, head, cat, token, add) {
            Some(p) => {
                assert(rewards.last().1 >= 0);
                lemma_apply_ledger_one_props(
                    p.0,
                    rewards.last().0,
                    cat,
                    token,
                    rewards.last().1,
                    add,
                );
            },
            None => {},
        }
    }
}

/// A whole batch on an owned ledger: the result is exactly what
/// `apply_ledger_batch` says of the inputs' views.
pub fn apply_ledger_batch_exec(
    l: AccountLedger,
    rewards: &Vec<(String, Decimal)>,
    cat: &String,
    token: &String,
    add: bool,
) -> (r: Result<(AccountLedger, Decimal), ClaimError>)
    requires
        wf_ledger(ledger_view(l@)),
        forall|j: int| 0 <= j < rewards@.len() ==> #[trigger] rewards@[j].1@ >= 0,
    ensures
        match r {
            Ok(p) => apply_ledger_batch(ledger_view(l@), amounts_view(rewards@), cat@, token@, add)
                == Some((ledger_view(p.0@), p.1@)),
            Err(e) => e == ClaimError::LedgerOverflow && apply_ledger_batch(
                ledger_view(l@),
                amounts_view(rewards@),
                cat@,
                token@,
                add,
            ) is None,
        },
{
    let ghost l0 = ledger_view(l@);
    let ghost rv = amounts_view(rewards@);
    proof {
        assert(forall|j: int| 0 <= j < rewards@.len() ==> #[trigger] rv[j] == (
            rewards@[j].0@,
            rewards@[j].1@,
        ));
    }
    let mut cur = l;
    let mut total = Decimal::zero();
    let mut i: usize = 0;
    while i < rewards.len()
        invariant
            i <= rewards@.len(),
            l0 == ledger_view(l@),
            rv == amounts_view(rewards@),
            rv.len() == rewards@.len(),
            forall|j: int| 0 <= j < rewards@.len() ==> #[trigger] rv[j] == (
                rewards@[j].0@,
                rewards@[j].1@,
            ),
            forall|j: int| 0 <= j < rewards@.len() ==> #[trigger] rewards@[j].1@ >= 0,
            wf_ledger(ledger_view(cur@)),
            total@ >= 0,
            apply_ledger_batch(l0, rv.take(i as int), cat@, token@, add) == Some(
                (ledger_view(cur@), total@),
            ),
        decreases rewards@.len() - i,
    {
        let account = &rewards[i].0;
        let amt = rewards[i].1;
        let ghost prev_cur = ledger_view(cur@);
        proof {
            assert(rv.take(i + 1).drop_last() =~= rv.take(i as int));
            assert(rv.take(i + 1).last() == rv[i as int]);
            lemma_apply_ledger_one_props(prev_cur, account@, cat@, token@, amt@, add);
        }
        match apply_ledger_one_exec(cur, account, cat, token, amt, add) {
            Err(e) => {
                proof {
                    assert(apply_ledger_batch(l0, rv.take(i + 1), cat@, token@, add) is None);
                    lemma_batch_none_extends(l0, rv, cat@, token@, add, i + 1, rv.len() as int);
                    assert(rv.take(rv.len() as int) =~= rv);
                }
                return Err(e);
            },
            Ok((l2, applied)) => {
                cur = l2;
                match total.checked_add(applied) {
                    None => {
                        proof {
                            assert(apply_ledger_batch(l0, rv.take(i + 1), cat@, token@, add)
                                is None);
                            lemma_batch_none_extends(
                                l0,
                                rv,
                                cat@,
                                token@,
                                add,
                                i + 1,
                                rv.len() as int,
                            );
                            assert(rv.take(rv.len() as int) =~= rv);
                        }
                        return Err(ClaimError::LedgerOverflow);
                    },
                    Some(t2) => {
                        total = t2;
                        proof {
                            assert(apply_ledger_batch(l0, rv.take(i + 1), cat@, token@, add)
                                == Some((ledger_view(cur@), total@)));
                        }
                        i = i + 1;
                    },
                }
            },
        }
    }
    proof {
        assert(rv.take(rewards@.len() as int) =~= rv);
    }
    Ok((cur, total))
}

/// One merge or unmerge step on an owned token map.
///
/// The result is exactly what `apply_tokens` says of the input's view; the
/// only error is overflow of the checked addition.
pub fn apply_tokens_exec(tm: TokenMap, token: &String, amount: Decimal, add: bool) -> (r: Result<
    (TokenMap, Decimal),
    ClaimError,
>)
    requires
        amount@ >= 0,
        wf_tokens(amounts_view(tm@)),
    ensures
        match r {
            Ok(p) => apply_tokens(amounts_view(tm@), token@, amount@, add) == Some(
                (amounts_view(p.0@), p.1@),
            ),
            Err(e) => e == ClaimError::LedgerOverflow && apply_tokens(
                amounts_view(tm@),
                token@,
                amount@,
                add,
            ) is None,
        },
{
    let ghost v0 = amounts_view(tm@);
    let mut tm = tm;
    let idx = key_index(&tm, token);
    proof {
        assert(forall|j: int| 0 <= j < tm@.len() ==> #[trigger] v0[j].0 == tm@[j].0@ && v0[j].1
            == tm@[j].1@);
        match idx {
            Some(i) => {
                lemma_find_key_unique(v0, token@, i as int);
            },
            None => {
                crate::keyval::lemma_find_key_none(v0, token@);
            },
        }
    }
    match idx {
        Some(i) => {
            let prev = tm[i].1;
            if add {
                match prev.checked_add(amount) {
                    None => Err(ClaimError::LedgerOverflow),
                    Some(nv) => {
                        let (k, _) = tm.remove(i);
                        tm.insert(i, (k, nv));
                        proof {
                            assert(amounts_view(tm@) =~= tokens_with(v0, token@, v0[i as int].1 + amount@));
                        }
                        Ok((tm, amount))
                    },
                }
            } else {
                let applied = prev.min(amount);
                let nv = Decimal::from_atto(prev.atto() - applied.atto());
                if nv.is_positive() {
                    let (k, _) = tm.remove(i);
                    tm.insert(i, (k, nv));
                    proof {
                        assert(amounts_view(tm@) =~= tokens_with(v0, token@, v0[i as int].1 - applied@));
                    }
                } else {
                    tm.remove(i);
                    proof {
                        assert(amounts_view(tm@) =~= tokens_with(v0, token@, v0[i as int].1 - applied@));
                    }
                }
                Ok((tm, applied))
            }
        },
        None => {
            if add {
                if amount.is_positive() {
                    tm.push((token.clone(), amount));
                    proof {
                        assert(amounts_view(tm@) =~= tokens_with(v0, token@, amount@));
                    }
                } else {
                    proof {
                        assert(amounts_view(tm@) =~= tokens_with(v0, token@, amount@));
                    }
                }
                Ok((tm, amount))
            } else {
                Ok((tm, Decimal::zero()))
            }
        },
    }
}

/// A merge or unmerge step keeps a token map well-formed, and applies a
/// nonnegative amount no greater than the requested one.
pub proof fn lemma_apply_tokens_props(tm: AmountsV, token: Seq<char>, amount: int, add: bool)
    requires
        wf_tokens(tm),
        amount >= 0,
    ensures
        match apply_tokens(tm, token, amount, add) {
            Some(p) => wf_tokens(p.0) && 0 <= p.1 <= amount,
            None => true,
        },
{
    lemma_find_key(tm, token);
    let prev = amount_for(tm, token);
    match apply_tokens(tm, token, amount, add) {
        Some(p) => {
            let val = if add {
                prev + amount
            } else {
                prev - (if prev <= amount {
                    prev
                } else {
                    amount
                })
            };
            lemma_with_key_distinct(tm, token, val, val > 0);
            crate::keyval::lemma_with_key_values(tm, token, val, val > 0);
        },
        None => {},
    }
}

/// The same facts one level up, for a category map.
pub proof fn lemma_apply_cats_props(
    cm: CatsV,
    cat: Seq<char>,
    token: Seq<char>,
    amount: int,
    add: bool,
)
    requires
        wf_cats(cm),
        amount >= 0,
    ensures
        match apply_cats(cm, cat, token, amount, add) {
            Some(p) => wf_cats(p.0) && 0 <= p.1 <= amount,
            None => true,
        },
{
    lemma_find_key(cm, cat);
    let sub = cats_sub(cm, cat);
    assert(wf_tokens(sub));
    lemma_apply_tokens_props(sub, token, amount, add);
    match apply_tokens(sub, token, amount, add) {
        Some(p) => {
            let tm2 = p.0;
            lemma_with_key_distinct(cm, cat, tm2, tm2.len() > 0);
            crate::keyval::lemma_with_key_values(cm, cat, tm2, tm2.len() > 0);
        },
        None => {},
    }
}

/// The same facts at the ledger level.
pub proof fn lemma_apply_ledger_one_props(
    l: LedgerV,
    account: Seq<char>,
    cat: Seq<char>,
    token: Seq<char>,
    amount: int,
    add: bool,
)
    requires
        wf_ledger(l),
        amount >= 0,
    ensures
        match apply_ledger_one(l, account, cat, token, amount, add) {
            Some(p) => wf_ledger(p.0) && 0 <= p.1 <= amount,
            None => true,
        },
{
    lemma_find_key(l, account);
    match find_key(l, account) {
        Some(i) => {
            lemma_apply_cats_props(l[i].1, cat, token, amount, add);
            match apply_cats(l[i].1, cat, token, amount, add) {
                Some(p) => {
                    let l2 = l.update(i, (l[i].0, p.0));
                    assert(forall|j: int| 0 <= j < l2.len() && j != i ==> l2[j] == l[j]);
                    assert(forall|j: int| 0 <= j < l2.len() ==> l2[j].0 == l[j].0);
                },
                None => {},
            }
        },
        None => {
            assert(wf_cats(Seq::empty()));
            lemma_apply_cats_props(Seq::empty(), cat, token, amount, add);
            if add {
                match apply_cats(Seq::empty(), cat, token, amount, add) {
                    Some(p) => {
                        let l2 = l.push((account, p.0));
                        assert(forall|j: int| 0 <= j < l.len() ==> l2[j] == l[j]);
                        assert(l2[l.len() as int].0 == account);
                    },
                    None => {},
                }
            }
        },
    }
}

/// One merge or unmerge step on an owned category map.
pub fn apply_cats_exec(
    cm: CategoryMap,
    cat: &String,
    token: &String,
    amount: Decimal,
    add: bool,
) -> (r: Result<(CategoryMap, Decimal), ClaimError>)
    requires
        amount@ >= 0,
        wf_cats(cats_view(cm@)),
    ensures
        match r {
            Ok(p) => apply_cats(cats_view(cm@), cat@, token@, amount@, add) == Some(
                (cats_view(p.0@), p.1@),
            ),
            Err(e) => e == ClaimError::LedgerOverflow && apply_cats(
                cats_view(cm@),
                cat@,
                token@,
                amount@,
                add,
            ) is None,
        },
{
    let ghost v0 = cats_view(cm@);
    let mut cm = cm;
    let idx = key_index(&cm, cat);
    proof {
        assert(forall|j: int| 0 <= j < cm@.len() ==> #[trigger] v0[j].0 == cm@[j].0@ && v0[j].1
            == amounts_view(cm@[j].1@));
        match idx {
            Some(i) => {
                lemma_find_key_unique(v0, cat@, i as int);
            },
            None => {
                lemma_find_key_none(v0, cat@);
            },
        }
    }
    match idx {
        Some(i) => {
            let (k, tm) = cm.remove(i);
            match apply_tokens_exec(tm, token, amount, add) {
                Err(e) => Err(e),
                Ok((tm2, applied)) => {
                    let ghost tm2v = amounts_view(tm2@);
                    if tm2.len() > 0 {
                        cm.insert(i, (k, tm2));
                        proof {
                            assert(cats_view(cm@) =~= cats_with(v0, cat@, tm2v));
                        }
                    } else {
                        proof {
                            assert(cats_view(cm@) =~= cats_with(v0, cat@, tm2v));
                        }
                    }
                    Ok((cm, applied))
                },
            }
        },
        None => {
            proof {
                assert(amounts_view(Seq::<(String, Decimal)>::empty()) =~= cats_sub(v0, cat@));
            }
            match apply_tokens_exec(Vec::new(), token, amount, add) {
                Err(e) => Err(e),
                Ok((tm2, applied)) => {
                    let ghost tm2v = amounts_view(tm2@);
                    if tm2.len() > 0 {
                        cm.push((cat.clone(), tm2));
                        proof {
                            assert(cats_view(cm@) =~= cats_with(v0, cat@, tm2v));
                        }
                    } else {
                        proof {
                            assert(cats_view(cm@) =~= cats_with(v0, cat@, tm2v));
                        }
                    }
                    Ok((cm, applied))
                },
            }
        },
    }
}

/// One merge or unmerge step on an owned ledger, for one account.
pub fn apply_ledger_one_exec(
    l: AccountLedger,
    account: &String,
    cat: &String,
    token: &String,
    amount: Decimal,
    add: bool,
) -> (r: Result<(AccountLedger, Decimal), ClaimError>)
    requires
        amount@ >= 0,
        wf_ledger(ledger_view(l@)),
    ensures
        match r {
            Ok(p) => apply_ledger_one(ledger_view(l@), account@, cat@, token@, amount@, add)
                == Some((ledger_view(p.0@), p.1@)),
            Err(e) => e == ClaimError::LedgerOverflow && apply_ledger_one(
                ledger_view(l@),
                account@,
                cat@,
                token@,
                amount@,
                add,
            ) is None,
        },
{
    let ghost v0 = ledger_view(l@);
    let mut l = l;
    let idx = key_index(&l, account);
    proof {
        assert(forall|j: int| 0 <= j < l@.len() ==> #[trigger] v0[j].0 == l@[j].0@ && v0[j].1
            == cats_view(l@[j].1@));
        match idx {
            Some(i) => {
                lemma_find_key_unique(v0, account@, i as int);
            },
            None => {
                lemma_find_key_none(v0, account@);
            },
        }
    }
    match idx {
        Some(i) => {
            let (k, cm) = l.remove(i);
            match apply_cats_exec(cm, cat, token, amount, add) {
                Err(e) => Err(e),
                Ok((cm2, applied)) => {
                    let ghost cm2v = cats_view(cm2@);
                    l.insert(i, (k, cm2));
                    proof {
                        assert(ledger_view(l@) =~= v0.update(i as int, (v0[i as int].0, cm2v)));
                    }
                    Ok((l, applied))
                },
            }
        },
        None => {
            if add {
                proof {
                    assert(cats_view(Seq::<(String, TokenMap)>::empty()) =~= Seq::<(
                        Seq<char>,
                        AmountsV,
                    )>::empty());
                }
                match apply_cats_exec(Vec::new(), cat, token, amount, add) {
                    Err(e) => Err(e),
                    Ok((cm2, applied)) => {
                        let ghost cm2v = cats_view(cm2@);
                        l.push((account.clone(), cm2));
                        proof {
                            assert(ledger_view(l@) =~= v0.push((account@, cm2v)));
                        }
                        Ok((l, applied))
                    },
                }
            } else {
                Ok((l, Decimal::zero()))
            }
        },
    }
}

/// A fresh copy of a token map, equal in view.
pub fn clone_amounts(v: &Vec<(String, Decimal)>) -> (r: Vec<(String, Decimal)>)
    ensures
        amounts_view(r@) == amounts_view(v@),
{
    let mut r: Vec<(String, Decimal)> = Vec::new();
    let mut i: usize = 0;
    while i < v.len()
        invariant
            i <= v@.len(),
            r@.len() == i,
            forall|j: int|
                0 <= j < i ==> #[trigger] r@[j].0@ == v@[j].0@ && r@[j].1 == v@[j].1,
        decreases v@.len() - i,
    {
        let key = v[i].0.clone();
        let amt = v[i].1;
        r.push((key, amt));
        i = i + 1;
    }
    proof {
        assert(amounts_view(r@) =~= amounts_view(v@));
    }
    r
}

/// A fresh copy of a category map, equal in view.
pub fn clone_cats(v: &CategoryMap) -> (r: CategoryMap)
    ensures
        cats_view(r@) == cats_view(v@),
{
    let mut r: CategoryMap = Vec::new();
    let mut i: usize = 0;
    while i < v.len()
        invariant
            i <= v@.len(),
            r@.len() == i,
            forall|j: int|
                0 <= j < i ==> #[trigger] r@[j].0@ == v@[j].0@ && amounts_view(r@[j].1@)
                    == amounts_view(v@[j].1@),
        decreases v@.len() - i,
    {
        let sub = clone_amounts(&v[i].1);
        let key = v[i].0.clone();
        r.push((key, sub));
        i = i + 1;
    }
    proof {
        assert(cats_view(r@) =~= cats_view(v@));
    }
    r
}

/// A fresh copy of the account ledger, equal in view.
pub fn clone_ledger(v: &AccountLedger) -> (r: AccountLedger)
    ensures
        ledger_view(r@) == ledger_view(v@),
{
    let mut r: AccountLedger = Vec::new();
    let mut i: usize = 0;
    while i < v.len()
        invariant
            i <= v@.len(),
            r@.len() == i,
            forall|j: int|
                0 <= j < i ==> #[trigger] r@[j].0@ == v@[j].0@ && cats_view(r@[j].1@) == cats_view(
                    v@[j].1@,
                ),
        decreases v@.len() - i,
    {
        let cm = clone_cats(&v[i].1);
        let key = v[i].0.clone();
        r.push((key, cm));
        i = i + 1;
    }
    proof {
        assert(ledger_view(r@) =~= ledger_view(v@));
    }
    r
}

} // verus!
