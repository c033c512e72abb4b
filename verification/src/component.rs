//! The claim component: the account ledger, the order ledger, and the
//! per-token custody vaults, kept in lockstep.
//!
//! Every public operation is atomic: it either commits all of its ledger
//! changes together with the matching custody movement, or it returns an
//! error and changes nothing. Solvency — for every token, the outstanding
//! liability equals the custody balance — is preserved by every operation.

use vstd::prelude::*;

use vstd::string::StrSliceExecFns;

use crate::decimal::Decimal;
use crate::errors::{ClaimError, ParseError};
use crate::keyval::{
    distinct_keys, key_index, AmountsV, amount_for, with_key, total_all, total_for, find_key,
    lemma_find_key, lemma_find_key_unique, lemma_find_key_none, lemma_with_key_distinct,
    lemma_with_key_values, lemma_with_key_value_for, lemma_total_for_is_amount,
};
use crate::ledger::{
    AccountLedger, CategoryMap, CatsV, LedgerV, amounts_view, cats_view, ledger_view, wf_ledger,
    wf_cats, ledger_total_for, apply_ledger_batch, apply_ledger_batch_exec,
    lemma_apply_ledger_batch_props, lemma_apply_ledger_batch_total, clone_ledger, clone_amounts,
};
use crate::orders::{
    OrderLedger, JsonPairOrderRewards, orders_batch_view, wf_orders, apply_orders_batch,
    apply_orders_batch_exec, lemma_apply_orders_batch_props, make_order_key, order_key,
};
use crate::claim::{
    claim_rewards_spec, acct_creds_view, order_creds_view, payouts_view, all_issuers_match,
    add_row_to_totals, claim_accounts, claim_order_ids, claim_order_creds, settle_claims,
    lemma_claim_accounts_none_extends, lemma_claim_order_ids_none_extends,
    lemma_claim_order_creds_none_extends, lemma_settle_err_extends, lemma_claim_accounts_props,
    lemma_claim_order_creds_props, lemma_settle_claims_props, wf_totals,
};

verus! {

broadcast use crate::decimal::lemma_decimal_range;

/// Data bound to an administrator badge.
#[derive(Clone, Debug)]
pub struct AdminData {
    pub name: String,
}

/// One account's reward in a typed batch.
#[derive(Clone, Debug)]
pub struct JsonAccountRewards {
    pub account_address: String,
    pub account_reward: Decimal,
}

/// A combined reward batch: one category name, one token, per-account
/// rewards and per-order rewards.
#[derive(Clone, Debug)]
pub struct JsonRewardsData {
    pub reward_name: String,
    pub token_address: String,
    pub accounts: Vec<JsonAccountRewards>,
    pub orders: Vec<JsonPairOrderRewards>,
}

/// One account's ledger row, as handed out to callers: the account's
/// address and its category-to-token balances.
#[derive(Clone, Debug)]
pub struct AccountRewardsData {
    pub account_address: String,
    pub rewards: CategoryMap,
}

/// A container of funds: an amount of one token, in custody transit.
#[derive(Clone, Debug)]
pub struct FundsContainer {
    pub token: String,
    pub amount: Decimal,
}

/// A credential presented to claim one account's rewards; the host has
/// already verified it, and it names its issuer.
#[derive(Clone, Debug)]
pub struct AccountCredential {
    pub issuer: String,
    pub account_id: String,
}

/// A credential presented to claim order rewards: a receipt series and the
/// order numbers it grants.
#[derive(Clone, Debug)]
pub struct OrderCredential {
    pub receipt_address: String,
    pub order_ids: Vec<u64>,
}

/// The custody vaults are well-formed: distinct tokens, every balance
/// nonnegative and representable.
pub open spec fn wf_vaults(v: AmountsV) -> bool {
    &&& distinct_keys(v)
    &&& forall|i: int| 0 <= i < v.len() ==> 0 <= #[trigger] v[i].1 <= i128::MAX
}

/// Sets the entry of `token` in a keyed amount list to `value`, creating
/// the entry when it does not exist yet, and never deleting one.
pub(crate) fn set_amount(vaults: &mut Vec<(String, Decimal)>, token: String, value: Decimal)
    requires
        distinct_keys(amounts_view(old(vaults)@)),
    ensures
        amounts_view(final(vaults)@) == with_key(amounts_view(old(vaults)@), token@, value@, true),
{
    let ghost v0 = amounts_view(vaults@);
    let idx = key_index(vaults, &token);
    proof {
        assert(forall|j: int| 0 <= j < vaults@.len() ==> #[trigger] v0[j].0 == vaults@[j].0@
            && v0[j].1 == vaults@[j].1@);
        match idx {
            Some(i) => {
                lemma_find_key_unique(v0, token@, i as int);
            },
            None => {
                lemma_find_key_none(v0, token@);
            },
        }
    }
    match idx {
        Some(i) => {
            let (k, _) = vaults.remove(i);
            vaults.insert(i, (k, value));
            proof {
                assert(amounts_view(vaults@) =~= with_key(v0, token@, value@, true));
            }
        },
        None => {
            vaults.push((token, value));
            proof {
                assert(amounts_view(vaults@) =~= with_key(v0, token@, value@, true));
            }
        },
    }
}

/// Whether some entry of a typed reward list carries a negative amount.
fn has_negative_amount(v: &Vec<(String, Decimal)>) -> (r: bool)
    ensures
        r == exists|j: int| 0 <= j < v@.len() && #[trigger] v@[j].1@ < 0,
{
    let mut i: usize = 0;
    while i < v.len()
        invariant
            i <= v@.len(),
            forall|j: int| 0 <= j < i ==> #[trigger] v@[j].1@ >= 0,
        decreases v@.len() - i,
    {
        if v[i].1.is_negative() {
            return true;
        }
        i = i + 1;
    }
    false
}

/// The balance of `token`'s entry in a keyed amount list, zero when absent.
pub(crate) fn vault_balance(vaults: &Vec<(String, Decimal)>, token: &String) -> (r: (
    Decimal,
    bool,
))
    requires
        distinct_keys(amounts_view(vaults@)),
    ensures
        r.0@ == amount_for(amounts_view(vaults@), token@),
        r.1 == (find_key(amounts_view(vaults@), token@) is Some),
{
    let ghost v0 = amounts_view(vaults@);
    let idx = key_index(vaults, token);
    proof {
        assert(forall|j: int| 0 <= j < vaults@.len() ==> #[trigger] v0[j].0 == vaults@[j].0@
            && v0[j].1 == vaults@[j].1@);
        match idx {
            Some(i) => {
                lemma_find_key_unique(v0, token@, i as int);
            },
            None => {
                lemma_find_key_none(v0, token@);
            },
        }
    }
    match idx {
        Some(i) => (vaults[i].1, true),
        None => (Decimal::zero(), false),
    }
}

/// What a grant does, stated over the views: validation, the two ledger
/// batches, the funds check, and the custody movement, in that order. The
/// result carries the new account ledger, order ledger and vaults, and the
/// amount handed back to the caller (the unspent remainder, plus any excess
/// released when a re-grant lowered order entries).
pub open spec fn add_rewards_spec(
    ledger: LedgerV,
    orders: AmountsV,
    vaults: AmountsV,
    dextr: Seq<char>,
    reward_name: Seq<char>,
    reward_token: Seq<char>,
    rewards: AmountsV,
    batch: Seq<(Seq<char>, Seq<(u64, int)>)>,
    bucket_token: Seq<char>,
    bucket_amount: int,
) -> Result<(LedgerV, AmountsV, AmountsV, int), ClaimError> {
    if reward_token != bucket_token {
        Err(ClaimError::TokenMismatch)
    } else if exists|j: int| 0 <= j < rewards.len() && #[trigger] rewards[j].1 < 0 {
        Err(ClaimError::NegativeAmount)
    } else if batch.len() > 0 && reward_token != dextr {
        Err(ClaimError::TokenMismatch)
    } else {
        match apply_ledger_batch(ledger, rewards, reward_name, reward_token, true) {
            None => Err(ClaimError::LedgerOverflow),
            Some(lp) => match apply_orders_batch(orders, batch, 0, true) {
                None => Err(ClaimError::LedgerOverflow),
                Some(op) => {
                    let net = lp.1 + op.1;
                    if net > i128::MAX || net < i128::MIN {
                        Err(ClaimError::LedgerOverflow)
                    } else if net > bucket_amount {
                        Err(ClaimError::InsufficientFunds)
                    } else if bucket_amount - net > i128::MAX {
                        Err(ClaimError::LedgerOverflow)
                    } else {
                        let vnew = amount_for(vaults, reward_token) + net;
                        if vnew > i128::MAX {
                            Err(ClaimError::LedgerOverflow)
                        } else if vnew < 0 {
                            Err(ClaimError::CustodyShortfall)
                        } else {
                            Ok(
                                (
                                    lp.0,
                                    op.0,
                                    with_key(vaults, reward_token, vnew, true),
                                    bucket_amount - net,
                                ),
                            )
                        }
                    }
                },
            },
        }
    }
}

/// What a removal does, stated over the views: validation, the two ledger
/// batches (clamped at the present balances), then the matching custody
/// release. The result carries the new stores and the amount released to
/// the caller.
pub open spec fn remove_rewards_spec(
    ledger: LedgerV,
    orders: AmountsV,
    vaults: AmountsV,
    dextr: Seq<char>,
    reward_name: Seq<char>,
    reward_token: Seq<char>,
    rewards: AmountsV,
    batch: Seq<(Seq<char>, Seq<(u64, int)>)>,
) -> Result<(LedgerV, AmountsV, AmountsV, int), ClaimError> {
    if exists|j: int| 0 <= j < rewards.len() && #[trigger] rewards[j].1 < 0 {
        Err(ClaimError::NegativeAmount)
    } else if batch.len() > 0 && reward_token != dextr {
        Err(ClaimError::TokenMismatch)
    } else {
        match apply_ledger_batch(ledger, rewards, reward_name, reward_token, false) {
            None => Err(ClaimError::LedgerOverflow),
            Some(lp) => match apply_orders_batch(orders, batch, 0, false) {
                None => Err(ClaimError::LedgerOverflow),
                Some(op) => {
                    let net = lp.1 + op.1;
                    if net > i128::MAX {
                        Err(ClaimError::LedgerOverflow)
                    } else if net == 0 {
                        Ok((lp.0, op.0, vaults, 0))
                    } else if find_key(vaults, reward_token) is None {
                        Err(ClaimError::MissingVault)
                    } else if amount_for(vaults, reward_token) < net {
                        Err(ClaimError::CustodyShortfall)
                    } else {
                        Ok(
                            (
                                lp.0,
                                op.0,
                                with_key(
                                    vaults,
                                    reward_token,
                                    amount_for(vaults, reward_token) - net,
                                    true,
                                ),
                                net,
                            ),
                        )
                    }
                },
            },
        }
    }
}

/// The reward-claim component.
pub struct DexterClaimComponent {
    pub(crate) dextr_token: String,
    pub(crate) credential_issuer: String,
    pub(crate) account_ledger: AccountLedger,
    pub(crate) claim_orders: OrderLedger,
    pub(crate) claim_vaults: Vec<(String, Decimal)>,
}

impl DexterClaimComponent {
    /// The account ledger, as specifications read it.
    pub closed spec fn ledger_v(&self) -> LedgerV {
        ledger_view(self.account_ledger@)
    }

    /// The order ledger, as specifications read it.
    pub closed spec fn orders_v(&self) -> AmountsV {
        amounts_view(self.claim_orders@)
    }

    /// The custody vaults, as specifications read them.
    pub closed spec fn vaults_v(&self) -> AmountsV {
        amounts_view(self.claim_vaults@)
    }

    /// The designated order-reward token.
    pub closed spec fn dextr(&self) -> Seq<char> {
        self.dextr_token@
    }

    /// The expected issuer of account credentials.
    pub closed spec fn issuer(&self) -> Seq<char> {
        self.credential_issuer@
    }

    /// All three stores are well-formed.
    pub open spec fn wf(&self) -> bool {
        &&& wf_ledger(self.ledger_v())
        &&& wf_orders(self.orders_v())
        &&& wf_vaults(self.vaults_v())
    }

    /// The outstanding liability in token `t`: every account balance in
    /// `t`, plus — for the designated order-reward token — every order
    /// entry.
    pub open spec fn liability_for(&self, t: Seq<char>) -> int {
        ledger_total_for(self.ledger_v(), t) + if t == self.dextr() {
            total_all(self.orders_v())
        } else {
            0
        }
    }

    /// Conservation: for every token, the outstanding liability equals the
    /// custody balance, so the sum of all positive ledger entries never
    /// exceeds what custody holds.
    pub open spec fn solvent(&self) -> bool {
        forall|t: Seq<char>| #[trigger] self.liability_for(t) == amount_for(self.vaults_v(), t)
    }

    /// A fresh component: empty ledgers, empty custody, the given
    /// order-reward token and credential issuer.
    pub fn new(dextr_token: String, credential_issuer: String) -> (r: DexterClaimComponent)
        ensures
            r.wf(),
            r.solvent(),
            r.ledger_v() == Seq::<(Seq<char>, crate::ledger::CatsV)>::empty(),
            r.orders_v() == Seq::<(Seq<char>, int)>::empty(),
            r.vaults_v() == Seq::<(Seq<char>, int)>::empty(),
            r.dextr() == dextr_token@,
            r.issuer() == credential_issuer@,
    {
        let r = DexterClaimComponent {
            dextr_token,
            credential_issuer,
            account_ledger: Vec::new(),
            claim_orders: Vec::new(),
            claim_vaults: Vec::new(),
        };
        proof {
            assert(r.ledger_v() =~= Seq::<(Seq<char>, crate::ledger::CatsV)>::empty());
            assert(r.orders_v() =~= Seq::<(Seq<char>, int)>::empty());
            assert(r.vaults_v() =~= Seq::<(Seq<char>, int)>::empty());
        }
        r
    }

    /// Grants rewards from an already-decoded batch: merges the per-account
    /// rewards under `reward_name`, sets the per-order rewards, takes the
    /// net requirement out of `rewards_bucket` into custody, and returns
    /// the remainder. On any error, nothing changes.
    pub fn add_parsed_rewards(
        &mut self,
        reward_name: String,
        reward_token: String,
        account_rewards: Vec<(String, Decimal)>,
        orders_batch: Vec<JsonPairOrderRewards>,
        rewards_bucket: FundsContainer,
    ) -> (r: Result<FundsContainer, ClaimError>)
        requires
            old(self).wf(),
            rewards_bucket.amount@ >= 0,
            forall|i: int, j: int|
                0 <= i < orders_batch@.len() && 0 <= j < orders_batch@[i].pair_rewards@.len()
                    ==> #[trigger] orders_batch@[i].pair_rewards@[j].1@ >= 0,
        ensures
            final(self).wf(),
            final(self).dextr() == old(self).dextr(),
            final(self).issuer() == old(self).issuer(),
            match r {
                Ok(out) => {
                    &&& add_rewards_spec(
                        old(self).ledger_v(),
                        old(self).orders_v(),
                        old(self).vaults_v(),
                        old(self).dextr(),
                        reward_name@,
                        reward_token@,
                        amounts_view(account_rewards@),
                        orders_batch_view(orders_batch@),
                        rewards_bucket.token@,
                        rewards_bucket.amount@,
                    ) == Ok::<_, ClaimError>(
                        (
                            final(self).ledger_v(),
                            final(self).orders_v(),
                            final(self).vaults_v(),
                            out.amount@,
                        ),
                    )
                    &&& out.token@ == reward_token@
                    &&& out.amount@ >= 0
                },
                Err(e) => {
                    &&& add_rewards_spec(
                        old(self).ledger_v(),
                        old(self).orders_v(),
                        old(self).vaults_v(),
                        old(self).dextr(),
                        reward_name@,
                        reward_token@,
                        amounts_view(account_rewards@),
                        orders_batch_view(orders_batch@),
                        rewards_bucket.token@,
                        rewards_bucket.amount@,
                    ) == Err::<(LedgerV, AmountsV, AmountsV, int), _>(e)
                    &&& final(self).ledger_v() == old(self).ledger_v()
                    &&& final(self).orders_v() == old(self).orders_v()
                    &&& final(self).vaults_v() == old(self).vaults_v()
                },
            },
            old(self).solvent() && r is Ok ==> final(self).solvent(),
    {
        let ghost l0 = self.ledger_v();
        let ghost o0 = self.orders_v();
        let ghost v0 = self.vaults_v();
        let ghost dx = self.dextr();
        let ghost rv = amounts_view(account_rewards@);
        let ghost bv = orders_batch_view(orders_batch@);
        proof {
            assert(forall|j: int| 0 <= j < rv.len() ==> #[trigger] rv[j].1
                == account_rewards@[j].1@);
        }
        if !(reward_token == rewards_bucket.token) {
            return Err(ClaimError::TokenMismatch);
        }
        if has_negative_amount(&account_rewards) {
            proof {
                let j = choose|j: int|
                    0 <= j < account_rewards@.len() && #[trigger] account_rewards@[j].1@ < 0;
                assert(rv[j].1 < 0);
            }
            return Err(ClaimError::NegativeAmount);
        }
        if orders_batch.len() > 0 && !(reward_token == self.dextr_token) {
            return Err(ClaimError::TokenMismatch);
        }
        let lc = clone_ledger(&self.account_ledger);
        let (l2, at) = match apply_ledger_batch_exec(
            lc,
            &account_rewards,
            &reward_name,
            &reward_token,
            true,
        ) {
            Ok(p) => p,
            Err(e) => {
                return Err(e);
            },
        };
        let oc = clone_amounts(&self.claim_orders);
        let (o2, on) = match apply_orders_batch_exec(oc, &orders_batch, true) {
            Ok(p) => p,
            Err(e) => {
                return Err(e);
            },
        };
        let ghost lv2 = ledger_view(l2@);
        let ghost ov2 = amounts_view(o2@);
        proof {
            assert(apply_ledger_batch(l0, rv, reward_name@, reward_token@, true) == Some(
                (lv2, at@),
            ));
            assert(apply_orders_batch(o0, bv, 0, true) == Some((ov2, on@)));
        }
        let net = match at.checked_add(on) {
            Some(n) => n,
            None => {
                return Err(ClaimError::LedgerOverflow);
            },
        };
        if rewards_bucket.amount.lt(&net) {
            return Err(ClaimError::InsufficientFunds);
        }
        let ret_amt = match rewards_bucket.amount.checked_sub(net) {
            Some(a) => a,
            None => {
                return Err(ClaimError::LedgerOverflow);
            },
        };
        let (vprev, _) = vault_balance(&self.claim_vaults, &reward_token);
        proof {
            crate::keyval::lemma_find_key(v0, reward_token@);
            assert(amount_for(v0, reward_token@) >= 0);
        }
        let vnew = match vprev.checked_add(net) {
            Some(v) => v,
            None => {
                return Err(ClaimError::LedgerOverflow);
            },
        };
        if vnew.is_negative() {
            return Err(ClaimError::CustodyShortfall);
        }
        // all checks passed: commit every change together
        proof {
            lemma_apply_ledger_batch_props(l0, rv, reward_name@, reward_token@, true);
            lemma_apply_orders_batch_props(o0, bv, 0, true);
            lemma_with_key_distinct(v0, reward_token@, vnew@, true);
            lemma_with_key_values(v0, reward_token@, vnew@, true);
        }
        self.account_ledger = l2;
        self.claim_orders = o2;
        set_amount(&mut self.claim_vaults, reward_token, vnew);
        proof {
            if old(self).solvent() {
                assert forall|t: Seq<char>| #[trigger] self.liability_for(t) == amount_for(
                    self.vaults_v(),
                    t,
                ) by {
                    lemma_apply_ledger_batch_total(
                        l0,
                        rv,
                        reward_name@,
                        rewards_bucket.token@,
                        true,
                        t,
                    );
                    lemma_with_key_value_for(v0, rewards_bucket.token@, vnew@, true, t);
                    assert(old(self).liability_for(t) == amount_for(v0, t));
                    if bv.len() == 0 {
                        assert(apply_orders_batch(o0, bv, 0, true) == Some((o0, 0int)));
                    }
                }
            }
        }
        Ok(FundsContainer { token: rewards_bucket.token, amount: ret_amt })
    }

    /// Removes rewards from an already-decoded batch: unmerges the
    /// per-account rewards under `reward_name` (clamping at the present
    /// balances), deletes the named order entries, and releases exactly the
    /// removed total from custody back to the caller. On any error, nothing
    /// changes.
    pub fn remove_parsed_rewards(
        &mut self,
        reward_name: String,
        reward_token: String,
        account_rewards: Vec<(String, Decimal)>,
        orders_batch: Vec<JsonPairOrderRewards>,
    ) -> (r: Result<FundsContainer, ClaimError>)
        requires
            old(self).wf(),
            forall|i: int, j: int|
                0 <= i < orders_batch@.len() && 0 <= j < orders_batch@[i].pair_rewards@.len()
                    ==> #[trigger] orders_batch@[i].pair_rewards@[j].1@ >= 0,
        ensures
            final(self).wf(),
            final(self).dextr() == old(self).dextr(),
            final(self).issuer() == old(self).issuer(),
            match r {
                Ok(out) => {
                    &&& remove_rewards_spec(
                        old(self).ledger_v(),
                        old(self).orders_v(),
                        old(self).vaults_v(),
                        old(self).dextr(),
                        reward_name@,
                        reward_token@,
                        amounts_view(account_rewards@),
                        orders_batch_view(orders_batch@),
                    ) == Ok::<_, ClaimError>(
                        (
                            final(self).ledger_v(),
                            final(self).orders_v(),
                            final(self).vaults_v(),
                            out.amount@,
                        ),
                    )
                    &&& out.token@ == reward_token@
                    &&& out.amount@ >= 0
                },
                Err(e) => {
                    &&& remove_rewards_spec(
                        old(self).ledger_v(),
                        old(self).orders_v(),
                        old(self).vaults_v(),
                        old(self).dextr(),
                        reward_name@,
                        reward_token@,
                        amounts_view(account_rewards@),
                        orders_batch_view(orders_batch@),
                    ) == Err::<(LedgerV, AmountsV, AmountsV, int), _>(e)
                    &&& final(self).ledger_v() == old(self).ledger_v()
                    &&& final(self).orders_v() == old(self).orders_v()
                    &&& final(self).vaults_v() == old(self).vaults_v()
                },
            },
            old(self).solvent() && r is Ok ==> final(self).solvent(),
    {
        let ghost l0 = self.ledger_v();
        let ghost o0 = self.orders_v();
        let ghost v0 = self.vaults_v();
        let ghost rv = amounts_view(account_rewards@);
        let ghost bv = orders_batch_view(orders_batch@);
        proof {
            assert(forall|j: int| 0 <= j < rv.len() ==> #[trigger] rv[j].1
                == account_rewards@[j].1@);
        }
        if has_negative_amount(&account_rewards) {
            proof {
                let j = choose|j: int|
                    0 <= j < account_rewards@.len() && #[trigger] account_rewards@[j].1@ < 0;
                assert(rv[j].1 < 0);
            }
            return Err(ClaimError::NegativeAmount);
        }
        if orders_batch.len() > 0 && !(reward_token == self.dextr_token) {
            return Err(ClaimError::TokenMismatch);
        }
        let lc = clone_ledger(&self.account_ledger);
        let (l2, at) = match apply_ledger_batch_exec(
            lc,
            &account_rewards,
            &reward_name,
            &reward_token,
            false,
        ) {
            Ok(p) => p,
            Err(e) => {
                return Err(e);
            },
        };
        let oc = clone_amounts(&self.claim_orders);
        let (o2, on) = match apply_orders_batch_exec(oc, &orders_batch, false) {
            Ok(p) => p,
            Err(e) => {
                return Err(e);
            },
        };
        let ghost lv2 = ledger_view(l2@);
        let ghost ov2 = amounts_view(o2@);
        proof {
            assert(apply_ledger_batch(l0, rv, reward_name@, reward_token@, false) == Some(
                (lv2, at@),
            ));
            assert(apply_orders_batch(o0, bv, 0, false) == Some((ov2, on@)));
            lemma_apply_ledger_batch_props(l0, rv, reward_name@, reward_token@, false);
            lemma_apply_orders_batch_props(o0, bv, 0, false);
        }
        let net = match at.checked_add(on) {
            Some(n) => n,
            None => {
                return Err(ClaimError::LedgerOverflow);
            },
        };
        if net.is_zero() {
            self.account_ledger = l2;
            self.claim_orders = o2;
            proof {
                if old(self).solvent() {
                    assert forall|t: Seq<char>| #[trigger] self.liability_for(t) == amount_for(
                        self.vaults_v(),
                        t,
                    ) by {
                        lemma_apply_ledger_batch_total(l0, rv, reward_name@, reward_token@, false, t);
                        assert(old(self).liability_for(t) == amount_for(v0, t));
                        if bv.len() == 0 {
                            assert(apply_orders_batch(o0, bv, 0, false) == Some((o0, 0int)));
                        }
                    }
                }
            }
            return Ok(FundsContainer { token: reward_token, amount: Decimal::zero() });
        }
        let (vprev, vault_exists) = vault_balance(&self.claim_vaults, &reward_token);
        if !vault_exists {
            return Err(ClaimError::MissingVault);
        }
        if vprev.lt(&net) {
            return Err(ClaimError::CustodyShortfall);
        }
        proof {
            crate::keyval::lemma_find_key(v0, reward_token@);
            assert(amount_for(v0, reward_token@) <= i128::MAX);
        }
        let vnew = Decimal::from_atto(vprev.atto() - net.atto());
        proof {
            lemma_with_key_distinct(v0, reward_token@, vnew@, true);
            lemma_with_key_values(v0, reward_token@, vnew@, true);
        }
        self.account_ledger = l2;
        self.claim_orders = o2;
        let ghost tokv = reward_token@;
        let token_out = reward_token.clone();
        set_amount(&mut self.claim_vaults, reward_token, vnew);
        proof {
            if old(self).solvent() {
                assert forall|t: Seq<char>| #[trigger] self.liability_for(t) == amount_for(
                    self.vaults_v(),
                    t,
                ) by {
                    lemma_apply_ledger_batch_total(l0, rv, reward_name@, tokv, false, t);
                    lemma_with_key_value_for(v0, tokv, vnew@, true, t);
                    assert(old(self).liability_for(t) == amount_for(v0, t));
                    if bv.len() == 0 {
                        assert(apply_orders_batch(o0, bv, 0, false) == Some((o0, 0int)));
                    }
                }
            }
        }
        Ok(FundsContainer { token: token_out, amount: net })
    }
}

impl DexterClaimComponent {
    /// Claims rewards: for each verified account credential, sums and
    /// zeroes that account's row; for each order credential, sums and
    /// deletes the named order entries; then releases every non-zero total
    /// from custody into one payout container per token. On any error,
    /// nothing changes.
    pub fn claim_rewards(
        &mut self,
        reward_credentials: Vec<AccountCredential>,
        orders_credentials: Vec<OrderCredential>,
    ) -> (r: Result<Vec<FundsContainer>, ClaimError>)
        requires
            old(self).wf(),
        ensures
            final(self).wf(),
            final(self).dextr() == old(self).dextr(),
            final(self).issuer() == old(self).issuer(),
            match r {
                Ok(payouts) => claim_rewards_spec(
                    old(self).ledger_v(),
                    old(self).orders_v(),
                    old(self).vaults_v(),
                    old(self).dextr(),
                    old(self).issuer(),
                    acct_creds_view(reward_credentials@),
                    order_creds_view(orders_credentials@),
                ) == Ok::<_, ClaimError>(
                    (
                        final(self).ledger_v(),
                        final(self).orders_v(),
                        final(self).vaults_v(),
                        payouts_view(payouts@),
                    ),
                ),
                Err(e) => {
                    &&& claim_rewards_spec(
                        old(self).ledger_v(),
                        old(self).orders_v(),
                        old(self).vaults_v(),
                        old(self).dextr(),
                        old(self).issuer(),
                        acct_creds_view(reward_credentials@),
                        order_creds_view(orders_credentials@),
                    ) == Err::<(LedgerV, AmountsV, AmountsV, Seq<(Seq<char>, int)>), _>(e)
                    &&& final(self).ledger_v() == old(self).ledger_v()
                    &&& final(self).orders_v() == old(self).orders_v()
                    &&& final(self).vaults_v() == old(self).vaults_v()
                },
            },
            old(self).solvent() && r is Ok ==> final(self).solvent(),
    {
        let ghost l0 = self.ledger_v();
        let ghost o0 = self.orders_v();
        let ghost v0 = self.vaults_v();
        let ghost dx = self.dextr();
        let ghost av = acct_creds_view(reward_credentials@);
        let ghost ocv = order_creds_view(orders_credentials@);
        let ghost accounts_v = av.map_values(|c: (Seq<char>, Seq<char>)| c.1);
        proof {
            assert(forall|j: int| 0 <= j < reward_credentials@.len() ==> #[trigger] av[j] == (
                reward_credentials@[j].issuer@,
                reward_credentials@[j].account_id@,
            ));
            assert(forall|j: int| 0 <= j < reward_credentials@.len()
                ==> #[trigger] accounts_v[j] == reward_credentials@[j].account_id@);
            assert(forall|j: int| 0 <= j < orders_credentials@.len() ==> #[trigger] ocv[j] == (
                orders_credentials@[j].receipt_address@,
                orders_credentials@[j].order_ids@,
            ));
            assert(wf_totals(Seq::<(Seq<char>, int)>::empty()));
        }
        if !all_issuers_match(&reward_credentials, &self.credential_issuer) {
            return Err(ClaimError::WrongCredential);
        }
        // account phase, on a fresh copy of the ledger
        let mut ledger = clone_ledger(&self.account_ledger);
        let mut totals: Vec<(String, Decimal)> = Vec::new();
        proof {
            assert(amounts_view(totals@) =~= Seq::<(Seq<char>, int)>::empty());
        }
        let mut i: usize = 0;
        while i < reward_credentials.len()
            invariant
                i <= reward_credentials@.len(),
                self == old(self),
                old(self).wf(),
                l0 == ledger_view(old(self).account_ledger@),
                av == acct_creds_view(reward_credentials@),
                accounts_v == av.map_values(|c: (Seq<char>, Seq<char>)| c.1),
                ocv == order_creds_view(orders_credentials@),
                !(exists|ii: int|
                    0 <= ii < av.len() && #[trigger] av[ii].0 != old(self).issuer()),
                accounts_v.len() == reward_credentials@.len(),
                forall|j: int| 0 <= j < reward_credentials@.len() ==> #[trigger] accounts_v[j]
                    == reward_credentials@[j].account_id@,
                wf_ledger(ledger_view(ledger@)),
                wf_totals(amounts_view(totals@)),
                claim_accounts(l0, Seq::<(Seq<char>, int)>::empty(), accounts_v.take(i as int))
                    == Some((ledger_view(ledger@), amounts_view(totals@))),
            decreases reward_credentials@.len() - i,
        {
            let ghost lv = ledger_view(ledger@);
            let ghost tsv = amounts_view(totals@);
            proof {
                assert(forall|j: int| 0 <= j < ledger@.len() ==> #[trigger] lv[j] == (
                    ledger@[j].0@,
                    cats_view(ledger@[j].1@),
                ));
                assert(accounts_v.take(i + 1).drop_last() =~= accounts_v.take(i as int));
                assert(accounts_v.take(i + 1).last() == accounts_v[i as int]);
            }
            let account = &reward_credentials[i].account_id;
            let idx = key_index(&ledger, account);
            proof {
                match idx {
                    Some(rix) => {
                        lemma_find_key_unique(lv, account@, rix as int);
                    },
                    None => {
                        lemma_find_key_none(lv, account@);
                    },
                }
            }
            match idx {
                Some(rix) => {
                    let (k, cm) = ledger.remove(rix);
                    proof {
                        assert(wf_cats(cats_view(cm@)));
                    }
                    totals = match add_row_to_totals(totals, &cm) {
                        Ok(ts) => ts,
                        Err(e) => {
                            proof {
                                assert(claim_accounts(
                                    l0,
                                    Seq::<(Seq<char>, int)>::empty(),
                                    accounts_v.take(i + 1),
                                ) is None);
                                lemma_claim_accounts_none_extends(
                                    l0,
                                    Seq::<(Seq<char>, int)>::empty(),
                                    accounts_v,
                                    i + 1,
                                    accounts_v.len() as int,
                                );
                                assert(accounts_v.take(accounts_v.len() as int) =~= accounts_v);
                            }
                            return Err(e);
                        },
                    };
                    let empty_cm: CategoryMap = Vec::new();
                    proof {
                        assert(cats_view(empty_cm@) =~= Seq::<(Seq<char>, AmountsV)>::empty());
                    }
                    ledger.insert(rix, (k, empty_cm));
                    proof {
                        assert(ledger_view(ledger@) =~= lv.update(
                            rix as int,
                            (lv[rix as int].0, Seq::<(Seq<char>, AmountsV)>::empty()),
                        ));
                        assert(claim_accounts(
                            l0,
                            Seq::<(Seq<char>, int)>::empty(),
                            accounts_v.take(i + 1),
                        ) == Some((ledger_view(ledger@), amounts_view(totals@))));
                        lemma_claim_accounts_props(
                            l0,
                            Seq::<(Seq<char>, int)>::empty(),
                            accounts_v.take(i + 1),
                        );
                    }
                },
                None => {
                    proof {
                        assert(claim_accounts(
                            l0,
                            Seq::<(Seq<char>, int)>::empty(),
                            accounts_v.take(i + 1),
                        ) == Some((ledger_view(ledger@), amounts_view(totals@))));
                    }
                },
            }
            i = i + 1;
        }
        proof {
            assert(accounts_v.take(reward_credentials@.len() as int) =~= accounts_v);
        }
        let ghost ts1 = amounts_view(totals@);
        let ghost lv2 = ledger_view(ledger@);
        // order phase, on a fresh copy of the order ledger
        let mut orders = clone_amounts(&self.claim_orders);
        let mut i: usize = 0;
        while i < orders_credentials.len()
            invariant
                i <= orders_credentials@.len(),
                old(self).wf(),
                o0 == amounts_view(old(self).claim_orders@),
                l0 == ledger_view(old(self).account_ledger@),
                dx == old(self).dextr(),
                self == old(self),
                av == acct_creds_view(reward_credentials@),
                accounts_v == av.map_values(|c: (Seq<char>, Seq<char>)| c.1),
                ocv == order_creds_view(orders_credentials@),
                !(exists|ii: int|
                    0 <= ii < av.len() && #[trigger] av[ii].0 != old(self).issuer()),
                claim_accounts(l0, Seq::<(Seq<char>, int)>::empty(), accounts_v)
                    == Some((lv2, ts1)),
                ledger_view(ledger@) == lv2,
                ocv.len() == orders_credentials@.len(),
                forall|j: int| 0 <= j < orders_credentials@.len() ==> #[trigger] ocv[j] == (
                    orders_credentials@[j].receipt_address@,
                    orders_credentials@[j].order_ids@,
                ),
                wf_orders(amounts_view(orders@)),
                wf_totals(amounts_view(totals@)),
                claim_order_creds(o0, ts1, dx, ocv.take(i as int)) == Some(
                    (amounts_view(orders@), amounts_view(totals@)),
                ),
            decreases orders_credentials@.len() - i,
        {
            let cred = &orders_credentials[i];
            let ghost om_i = amounts_view(orders@);
            let ghost ts_i = amounts_view(totals@);
            let ghost idsv = cred.order_ids@;
            proof {
                assert(ocv.take(i + 1).drop_last() =~= ocv.take(i as int));
                assert(ocv.take(i + 1).last() == ocv[i as int]);
            }
            let mut j: usize = 0;
            while j < cred.order_ids.len()
                invariant
                    j <= cred.order_ids@.len(),
                    i < orders_credentials@.len(),
                    old(self).wf(),
                    o0 == amounts_view(old(self).claim_orders@),
                    l0 == ledger_view(old(self).account_ledger@),
                    dx == old(self).dextr(),
                    self == old(self),
                    av == acct_creds_view(reward_credentials@),
                    accounts_v == av.map_values(|c: (Seq<char>, Seq<char>)| c.1),
                    ocv == order_creds_view(orders_credentials@),
                    !(exists|ii: int|
                        0 <= ii < av.len() && #[trigger] av[ii].0 != old(self).issuer()),
                    claim_accounts(l0, Seq::<(Seq<char>, int)>::empty(), accounts_v)
                        == Some((lv2, ts1)),
                    ledger_view(ledger@) == lv2,
                    cred == orders_credentials@[i as int],
                    idsv == cred.order_ids@,
                    ocv.len() == orders_credentials@.len(),
                    ocv[i as int] == (cred.receipt_address@, idsv),
                    claim_order_creds(o0, ts1, dx, ocv.take(i as int)) == Some((om_i, ts_i)),
                    wf_orders(amounts_view(orders@)),
                    wf_totals(amounts_view(totals@)),
                    claim_order_ids(om_i, ts_i, dx, cred.receipt_address@, idsv.take(j as int))
                        == Some((amounts_view(orders@), amounts_view(totals@))),
                decreases cred.order_ids@.len() - j,
            {
                let ghost ov = amounts_view(orders@);
                let ghost tsv = amounts_view(totals@);
                proof {
                    assert(forall|a: int| 0 <= a < orders@.len() ==> #[trigger] ov[a] == (
                        orders@[a].0@,
                        orders@[a].1@,
                    ));
                    assert(idsv.take(j + 1).drop_last() =~= idsv.take(j as int));
                    assert(idsv.take(j + 1).last() == idsv[j as int]);
                }
                let id = cred.order_ids[j];
                let key = make_order_key(cred.receipt_address.as_str(), id);
                let idx = key_index(&orders, &key);
                proof {
                    match idx {
                        Some(oix) => {
                            lemma_find_key_unique(ov, key@, oix as int);
                        },
                        None => {
                            lemma_find_key_none(ov, key@);
                        },
                    }
                }
                match idx {
                    Some(oix) => {
                        let (_, amt) = orders.remove(oix);
                        proof {
                            assert(amounts_view(orders@) =~= ov.remove(oix as int));
                            assert(0 < ov[oix as int].1 <= i128::MAX);
                        }
                        let (prev, _) = crate::component::vault_balance(&totals, &self.dextr_token);
                        proof {
                            lemma_find_key(tsv, dx);
                            lemma_total_for_is_amount(tsv, dx);
                        }
                        let v = match prev.checked_add(amt) {
                            Some(v) => v,
                            None => {
                                proof {
                                    assert(claim_order_ids(
                                        om_i,
                                        ts_i,
                                        dx,
                                        cred.receipt_address@,
                                        idsv.take(j + 1),
                                    ) is None);
                                    lemma_claim_order_ids_none_extends(
                                        om_i,
                                        ts_i,
                                        dx,
                                        cred.receipt_address@,
                                        idsv,
                                        j + 1,
                                        idsv.len() as int,
                                    );
                                    assert(idsv.take(idsv.len() as int) =~= idsv);
                                    assert(ocv.take(i + 1).drop_last() =~= ocv.take(i as int));
                                    assert(ocv.take(i + 1).last() == ocv[i as int]);
                                    assert(claim_order_creds(o0, ts1, dx, ocv.take(i + 1))
                                        is None);
                                    lemma_claim_order_creds_none_extends(
                                        o0,
                                        ts1,
                                        dx,
                                        ocv,
                                        i + 1,
                                        ocv.len() as int,
                                    );
                                    assert(ocv.take(ocv.len() as int) =~= ocv);
                                }
                                return Err(ClaimError::LedgerOverflow);
                            },
                        };
                        proof {
                            lemma_with_key_distinct(tsv, dx, v@, true);
                            lemma_with_key_values(tsv, dx, v@, true);
                        }
                        let dkey = self.dextr_token.clone();
                        set_amount(&mut totals, dkey, v);
                        proof {
                            assert(with_key(tsv, dx, v@, v@ > 0) == with_key(tsv, dx, v@, true));
                            assert(claim_order_ids(
                                om_i,
                                ts_i,
                                dx,
                                cred.receipt_address@,
                                idsv.take(j + 1),
                            ) == Some((amounts_view(orders@), amounts_view(totals@))));
                        }
                    },
                    None => {
                        proof {
                            assert(claim_order_ids(
                                om_i,
                                ts_i,
                                dx,
                                cred.receipt_address@,
                                idsv.take(j + 1),
                            ) == Some((amounts_view(orders@), amounts_view(totals@))));
                        }
                    },
                }
                j = j + 1;
            }
            proof {
                assert(idsv.take(cred.order_ids@.len() as int) =~= idsv);
                assert(claim_order_creds(o0, ts1, dx, ocv.take(i + 1)) == Some(
                    (amounts_view(orders@), amounts_view(totals@)),
                ));
            }
            i = i + 1;
        }
        proof {
            assert(ocv.take(orders_credentials@.len() as int) =~= ocv);
        }
        let ghost ts2 = amounts_view(totals@);
        let ghost ov2 = amounts_view(orders@);
        // settlement, on a fresh copy of the vaults
        let mut vaults = clone_amounts(&self.claim_vaults);
        let mut payouts: Vec<FundsContainer> = Vec::new();
        proof {
            assert(payouts_view(payouts@) =~= Seq::<(Seq<char>, int)>::empty());
        }
        let mut k: usize = 0;
        while k < totals.len()
            invariant
                k <= totals@.len(),
                old(self).wf(),
                v0 == amounts_view(old(self).claim_vaults@),
                o0 == amounts_view(old(self).claim_orders@),
                l0 == ledger_view(old(self).account_ledger@),
                dx == old(self).dextr(),
                self == old(self),
                av == acct_creds_view(reward_credentials@),
                accounts_v == av.map_values(|c: (Seq<char>, Seq<char>)| c.1),
                ocv == order_creds_view(orders_credentials@),
                !(exists|ii: int|
                    0 <= ii < av.len() && #[trigger] av[ii].0 != old(self).issuer()),
                claim_accounts(l0, Seq::<(Seq<char>, int)>::empty(), accounts_v)
                    == Some((lv2, ts1)),
                ledger_view(ledger@) == lv2,
                claim_order_creds(o0, ts1, dx, ocv) == Some((ov2, ts2)),
                amounts_view(orders@) == ov2,
                ts2 == amounts_view(totals@),
                wf_totals(ts2),
                wf_vaults(amounts_view(vaults@)),
                settle_claims(v0, ts2.take(k as int)) == Ok::<_, ()>(
                    (amounts_view(vaults@), payouts_view(payouts@)),
                ),
            decreases totals@.len() - k,
        {
            let ghost vv = amounts_view(vaults@);
            proof {
                assert(forall|a: int| 0 <= a < totals@.len() ==> #[trigger] ts2[a] == (
                    totals@[a].0@,
                    totals@[a].1@,
                ));
                assert(ts2.take(k + 1).drop_last() =~= ts2.take(k as int));
                assert(ts2.take(k + 1).last() == ts2[k as int]);
            }
            let ghost pv0 = payouts_view(payouts@);
            let amt = totals[k].1;
            if amt.is_positive() {
                let (have, _) = crate::component::vault_balance(&vaults, &totals[k].0);
                if have.lt(&amt) {
                    proof {
                        assert(settle_claims(v0, ts2.take(k + 1)) is Err);
                        lemma_settle_err_extends(v0, ts2, k + 1, ts2.len() as int);
                        assert(ts2.take(ts2.len() as int) =~= ts2);
                    }
                    return Err(ClaimError::CustodyShortfall);
                }
                proof {
                    lemma_find_key(vv, totals@[k as int].0@);
                }
                let vnew = Decimal::from_atto(have.atto() - amt.atto());
                proof {
                    lemma_with_key_distinct(vv, totals@[k as int].0@, vnew@, true);
                    lemma_with_key_values(vv, totals@[k as int].0@, vnew@, true);
                }
                let tkey = totals[k].0.clone();
                let pkey = totals[k].0.clone();
                set_amount(&mut vaults, tkey, vnew);
                payouts.push(FundsContainer { token: pkey, amount: amt });
                proof {
                    assert(payouts_view(payouts@) =~= pv0.push(
                        (ts2[k as int].0, ts2[k as int].1),
                    ));
                    assert(amount_for(vv, ts2[k as int].0) <= i128::MAX);
                    assert(settle_claims(v0, ts2.take(k + 1)) == Ok::<_, ()>(
                        (amounts_view(vaults@), payouts_view(payouts@)),
                    ));
                }
            } else {
                proof {
                    assert(settle_claims(v0, ts2.take(k + 1)) == Ok::<_, ()>(
                        (amounts_view(vaults@), payouts_view(payouts@)),
                    ));
                }
            }
            k = k + 1;
        }
        proof {
            assert(ts2.take(totals@.len() as int) =~= ts2);
        }
        // all checks passed: commit every change together
        self.account_ledger = ledger;
        self.claim_orders = orders;
        self.claim_vaults = vaults;
        proof {
            lemma_claim_accounts_props(l0, Seq::<(Seq<char>, int)>::empty(), accounts_v);
            lemma_claim_order_creds_props(o0, ts1, dx, ocv);
            lemma_settle_claims_props(v0, ts2);
            if old(self).solvent() {
                assert forall|t: Seq<char>| #[trigger] self.liability_for(t) == amount_for(
                    self.vaults_v(),
                    t,
                ) by {
                    assert(old(self).liability_for(t) == amount_for(v0, t));
                    assert(ledger_total_for(lv2, t) + total_for(ts1, t) == ledger_total_for(l0, t)
                        + total_for(Seq::<(Seq<char>, int)>::empty(), t));
                    assert(total_for(Seq::<(Seq<char>, int)>::empty(), t) == 0);
                    if t != dx {
                        assert(total_for(ts2, t) == total_for(ts1, t));
                    }
                    assert(amount_for(self.vaults_v(), t) == amount_for(v0, t) - total_for(
                        ts2,
                        t,
                    ));
                }
            }
        }
        Ok(payouts)
    }

    /// Grants rewards, decoding the orders batch from its text first: an
    /// empty text means no order rewards. On any error, nothing changes.
    pub fn add_rewards(
        &mut self,
        reward_name: String,
        reward_token: String,
        account_rewards: Vec<(String, Decimal)>,
        orders_rewards_string: String,
        rewards_bucket: FundsContainer,
    ) -> (r: Result<FundsContainer, ClaimError>)
        requires
            old(self).wf(),
            rewards_bucket.amount@ >= 0,
        ensures
            final(self).wf(),
            final(self).dextr() == old(self).dextr(),
            final(self).issuer() == old(self).issuer(),
            match r {
                Ok(out) => (exists|bv: Seq<(Seq<char>, Seq<(u64, int)>)>|
                    parsed_orders_batch(orders_rewards_string@) == Ok::<_, ParseError>(bv)
                        && add_rewards_spec(
                        old(self).ledger_v(),
                        old(self).orders_v(),
                        old(self).vaults_v(),
                        old(self).dextr(),
                        reward_name@,
                        reward_token@,
                        amounts_view(account_rewards@),
                        bv,
                        rewards_bucket.token@,
                        rewards_bucket.amount@,
                    ) == Ok::<_, ClaimError>(
                        (
                            final(self).ledger_v(),
                            final(self).orders_v(),
                            final(self).vaults_v(),
                            out.amount@,
                        ),
                    )) && out.token@ == reward_token@ && out.amount@ >= 0,
                Err(e) => {
                    &&& match parsed_orders_batch(orders_rewards_string@) {
                        Err(pe) => e == ClaimError::Malformed(pe),
                        Ok(bv) => add_rewards_spec(
                            old(self).ledger_v(),
                            old(self).orders_v(),
                            old(self).vaults_v(),
                            old(self).dextr(),
                            reward_name@,
                            reward_token@,
                            amounts_view(account_rewards@),
                            bv,
                            rewards_bucket.token@,
                            rewards_bucket.amount@,
                        ) == Err::<(LedgerV, AmountsV, AmountsV, int), _>(e),
                    }
                    &&& final(self).ledger_v() == old(self).ledger_v()
                    &&& final(self).orders_v() == old(self).orders_v()
                    &&& final(self).vaults_v() == old(self).vaults_v()
                },
            },
            old(self).solvent() && r is Ok ==> final(self).solvent(),
    {
        let batch: Vec<JsonPairOrderRewards> = if orders_rewards_string.as_str().unicode_len()
            == 0 {
            Vec::new()
        } else {
            match crate::parser::parse_orders_rewards_data(orders_rewards_string.as_str()) {
                Ok(b) => b,
                Err(pe) => {
                    return Err(ClaimError::Malformed(pe));
                },
            }
        };
        proof {
            lemma_orders_batch_views_agree(batch@);
            if orders_rewards_string@.len() == 0 {
                assert(orders_batch_view(batch@) =~= Seq::<(Seq<char>, Seq<(u64, int)>)>::empty());
            }
        }
        self.add_parsed_rewards(reward_name, reward_token, account_rewards, batch, rewards_bucket)
    }

    /// Grants per-account rewards only.
    pub fn add_account_rewards(
        &mut self,
        reward_name: String,
        reward_token: String,
        account_rewards: Vec<(String, Decimal)>,
        rewards_bucket: FundsContainer,
    ) -> (r: Result<FundsContainer, ClaimError>)
        requires
            old(self).wf(),
            rewards_bucket.amount@ >= 0,
        ensures
            final(self).wf(),
            final(self).dextr() == old(self).dextr(),
            final(self).issuer() == old(self).issuer(),
            match r {
                Ok(out) => add_rewards_spec(
                    old(self).ledger_v(),
                    old(self).orders_v(),
                    old(self).vaults_v(),
                    old(self).dextr(),
                    reward_name@,
                    reward_token@,
                    amounts_view(account_rewards@),
                    Seq::<(Seq<char>, Seq<(u64, int)>)>::empty(),
                    rewards_bucket.token@,
                    rewards_bucket.amount@,
                ) == Ok::<_, ClaimError>(
                    (
                        final(self).ledger_v(),
                        final(self).orders_v(),
                        final(self).vaults_v(),
                        out.amount@,
                    ),
                ) && out.token@ == reward_token@ && out.amount@ >= 0,
                Err(e) => add_rewards_spec(
                    old(self).ledger_v(),
                    old(self).orders_v(),
                    old(self).vaults_v(),
                    old(self).dextr(),
                    reward_name@,
                    reward_token@,
                    amounts_view(account_rewards@),
                    Seq::<(Seq<char>, Seq<(u64, int)>)>::empty(),
                    rewards_bucket.token@,
                    rewards_bucket.amount@,
                ) == Err::<(LedgerV, AmountsV, AmountsV, int), _>(e) && final(self).ledger_v()
                    == old(self).ledger_v() && final(self).orders_v() == old(self).orders_v()
                    && final(self).vaults_v() == old(self).vaults_v(),
            },
            old(self).solvent() && r is Ok ==> final(self).solvent(),
    {
        let empty: Vec<JsonPairOrderRewards> = Vec::new();
        proof {
            assert(orders_batch_view(empty@) =~= Seq::<(Seq<char>, Seq<(u64, int)>)>::empty());
        }
        self.add_parsed_rewards(reward_name, reward_token, account_rewards, empty, rewards_bucket)
    }

    /// Grants per-order rewards only, from a batch text.
    pub fn add_orders_rewards(
        &mut self,
        reward_token: String,
        orders_rewards_string: String,
        rewards_bucket: FundsContainer,
    ) -> (r: Result<FundsContainer, ClaimError>)
        requires
            old(self).wf(),
            rewards_bucket.amount@ >= 0,
        ensures
            final(self).wf(),
            final(self).dextr() == old(self).dextr(),
            final(self).issuer() == old(self).issuer(),
            match r {
                Ok(out) => (exists|bv: Seq<(Seq<char>, Seq<(u64, int)>)>|
                    parsed_orders_batch(orders_rewards_string@) == Ok::<_, ParseError>(bv)
                        && add_rewards_spec(
                        old(self).ledger_v(),
                        old(self).orders_v(),
                        old(self).vaults_v(),
                        old(self).dextr(),
                        Seq::<char>::empty(),
                        reward_token@,
                        Seq::<(Seq<char>, int)>::empty(),
                        bv,
                        rewards_bucket.token@,
                        rewards_bucket.amount@,
                    ) == Ok::<_, ClaimError>(
                        (
                            final(self).ledger_v(),
                            final(self).orders_v(),
                            final(self).vaults_v(),
                            out.amount@,
                        ),
                    )) && out.token@ == reward_token@ && out.amount@ >= 0,
                Err(e) => {
                    &&& match parsed_orders_batch(orders_rewards_string@) {
                        Err(pe) => e == ClaimError::Malformed(pe),
                        Ok(bv) => add_rewards_spec(
                            old(self).ledger_v(),
                            old(self).orders_v(),
                            old(self).vaults_v(),
                            old(self).dextr(),
                            Seq::<char>::empty(),
                            reward_token@,
                            Seq::<(Seq<char>, int)>::empty(),
                            bv,
                            rewards_bucket.token@,
                            rewards_bucket.amount@,
                        ) == Err::<(LedgerV, AmountsV, AmountsV, int), _>(e),
                    }
                    &&& final(self).ledger_v() == old(self).ledger_v()
                    &&& final(self).orders_v() == old(self).orders_v()
                    &&& final(self).vaults_v() == old(self).vaults_v()
                },
            },
            old(self).solvent() && r is Ok ==> final(self).solvent(),
    {
        let empty: Vec<(String, Decimal)> = Vec::new();
        proof {
            assert(amounts_view(empty@) =~= Seq::<(Seq<char>, int)>::empty());
        }
        self.add_rewards(
            String::new(),
            reward_token,
            empty,
            orders_rewards_string,
            rewards_bucket,
        )
    }

    /// Removes rewards, decoding the orders batch from its text first: an
    /// empty text means no order removals. On any error, nothing changes.
    pub fn remove_rewards(
        &mut self,
        reward_name: String,
        reward_token: String,
        account_rewards: Vec<(String, Decimal)>,
        orders_rewards_string: String,
    ) -> (r: Result<FundsContainer, ClaimError>)
        requires
            old(self).wf(),
        ensures
            final(self).wf(),
            final(self).dextr() == old(self).dextr(),
            final(self).issuer() == old(self).issuer(),
            match r {
                Ok(out) => (exists|bv: Seq<(Seq<char>, Seq<(u64, int)>)>|
                    parsed_orders_batch(orders_rewards_string@) == Ok::<_, ParseError>(bv)
                        && remove_rewards_spec(
                        old(self).ledger_v(),
                        old(self).orders_v(),
                        old(self).vaults_v(),
                        old(self).dextr(),
                        reward_name@,
                        reward_token@,
                        amounts_view(account_rewards@),
                        bv,
                    ) == Ok::<_, ClaimError>(
                        (
                            final(self).ledger_v(),
                            final(self).orders_v(),
                            final(self).vaults_v(),
                            out.amount@,
                        ),
                    )) && out.token@ == reward_token@ && out.amount@ >= 0,
                Err(e) => {
                    &&& match parsed_orders_batch(orders_rewards_string@) {
                        Err(pe) => e == ClaimError::Malformed(pe),
                        Ok(bv) => remove_rewards_spec(
                            old(self).ledger_v(),
                            old(self).orders_v(),
                            old(self).vaults_v(),
                            old(self).dextr(),
                            reward_name@,
                            reward_token@,
                            amounts_view(account_rewards@),
                            bv,
                        ) == Err::<(LedgerV, AmountsV, AmountsV, int), _>(e),
                    }
                    &&& final(self).ledger_v() == old(self).ledger_v()
                    &&& final(self).orders_v() == old(self).orders_v()
                    &&& final(self).vaults_v() == old(self).vaults_v()
                },
            },
            old(self).solvent() && r is Ok ==> final(self).solvent(),
    {
        let batch: Vec<JsonPairOrderRewards> = if orders_rewards_string.as_str().unicode_len()
            == 0 {
            Vec::new()
        } else {
            match crate::parser::parse_orders_rewards_data(orders_rewards_string.as_str()) {
                Ok(b) => b,
                Err(pe) => {
                    return Err(ClaimError::Malformed(pe));
                },
            }
        };
        proof {
            lemma_orders_batch_views_agree(batch@);
            if orders_rewards_string@.len() == 0 {
                assert(orders_batch_view(batch@) =~= Seq::<(Seq<char>, Seq<(u64, int)>)>::empty());
            }
        }
        self.remove_parsed_rewards(reward_name, reward_token, account_rewards, batch)
    }

    /// Removes per-account rewards only.
    pub fn remove_account_rewards(
        &mut self,
        reward_name: String,
        reward_token: String,
        account_rewards: Vec<(String, Decimal)>,
    ) -> (r: Result<FundsContainer, ClaimError>)
        requires
            old(self).wf(),
        ensures
            final(self).wf(),
            final(self).dextr() == old(self).dextr(),
            final(self).issuer() == old(self).issuer(),
            match r {
                Ok(out) => remove_rewards_spec(
                    old(self).ledger_v(),
                    old(self).orders_v(),
                    old(self).vaults_v(),
                    old(self).dextr(),
                    reward_name@,
                    reward_token@,
                    amounts_view(account_rewards@),
                    Seq::<(Seq<char>, Seq<(u64, int)>)>::empty(),
                ) == Ok::<_, ClaimError>(
                    (
                        final(self).ledger_v(),
                        final(self).orders_v(),
                        final(self).vaults_v(),
                        out.amount@,
                    ),
                ) && out.token@ == reward_token@ && out.amount@ >= 0,
                Err(e) => remove_rewards_spec(
                    old(self).ledger_v(),
                    old(self).orders_v(),
                    old(self).vaults_v(),
                    old(self).dextr(),
                    reward_name@,
                    reward_token@,
                    amounts_view(account_rewards@),
                    Seq::<(Seq<char>, Seq<(u64, int)>)>::empty(),
                ) == Err::<(LedgerV, AmountsV, AmountsV, int), _>(e) && final(self).ledger_v()
                    == old(self).ledger_v() && final(self).orders_v() == old(self).orders_v()
                    && final(self).vaults_v() == old(self).vaults_v(),
            },
            old(self).solvent() && r is Ok ==> final(self).solvent(),
    {
        let empty: Vec<JsonPairOrderRewards> = Vec::new();
        proof {
            assert(orders_batch_view(empty@) =~= Seq::<(Seq<char>, Seq<(u64, int)>)>::empty());
        }
        self.remove_parsed_rewards(reward_name, reward_token, account_rewards, empty)
    }

    /// Removes per-order rewards only, from a batch text.
    pub fn remove_orders_rewards(
        &mut self,
        reward_token: String,
        orders_rewards_string: String,
    ) -> (r: Result<FundsContainer, ClaimError>)
        requires
            old(self).wf(),
        ensures
            final(self).wf(),
            final(self).dextr() == old(self).dextr(),
            final(self).issuer() == old(self).issuer(),
            match r {
                Ok(out) => (exists|bv: Seq<(Seq<char>, Seq<(u64, int)>)>|
                    parsed_orders_batch(orders_rewards_string@) == Ok::<_, ParseError>(bv)
                        && remove_rewards_spec(
                        old(self).ledger_v(),
                        old(self).orders_v(),
                        old(self).vaults_v(),
                        old(self).dextr(),
                        Seq::<char>::empty(),
                        reward_token@,
                        Seq::<(Seq<char>, int)>::empty(),
                        bv,
                    ) == Ok::<_, ClaimError>(
                        (
                            final(self).ledger_v(),
                            final(self).orders_v(),
                            final(self).vaults_v(),
                            out.amount@,
                        ),
                    )) && out.token@ == reward_token@ && out.amount@ >= 0,
                Err(e) => {
                    &&& match parsed_orders_batch(orders_rewards_string@) {
                        Err(pe) => e == ClaimError::Malformed(pe),
                        Ok(bv) => remove_rewards_spec(
                            old(self).ledger_v(),
                            old(self).orders_v(),
                            old(self).vaults_v(),
                            old(self).dextr(),
                            Seq::<char>::empty(),
                            reward_token@,
                            Seq::<(Seq<char>, int)>::empty(),
                            bv,
                        ) == Err::<(LedgerV, AmountsV, AmountsV, int), _>(e),
                    }
                    &&& final(self).ledger_v() == old(self).ledger_v()
                    &&& final(self).orders_v() == old(self).orders_v()
                    &&& final(self).vaults_v() == old(self).vaults_v()
                },
            },
            old(self).solvent() && r is Ok ==> final(self).solvent(),
    {
        let empty: Vec<(String, Decimal)> = Vec::new();
        proof {
            assert(amounts_view(empty@) =~= Seq::<(Seq<char>, int)>::empty());
        }
        self.remove_rewards(String::new(), reward_token, empty, orders_rewards_string)
    }

    /// One account's last-known row, under the original record shape.
    pub fn get_account_rewards(&self, account_id: &String) -> (r: Option<AccountRewardsData>)
        requires
            self.wf(),
        ensures
            match find_key(self.ledger_v(), account_id@) {
                Some(i) => (r matches Some(d) && d.account_address@ == account_id@ && cats_view(
                    d.rewards@,
                ) == self.ledger_v()[i].1),
                None => r is None,
            },
    {
        let ghost lv = self.ledger_v();
        let idx = key_index(&self.account_ledger, account_id);
        proof {
            assert(forall|j: int| 0 <= j < self.account_ledger@.len() ==> #[trigger] lv[j] == (
                self.account_ledger@[j].0@,
                cats_view(self.account_ledger@[j].1@),
            ));
            match idx {
                Some(i) => {
                    lemma_find_key_unique(lv, account_id@, i as int);
                },
                None => {
                    lemma_find_key_none(lv, account_id@);
                },
            }
        }
        match idx {
            Some(i) => {
                let rewards = crate::ledger::clone_cats(&self.account_ledger[i].1);
                Some(AccountRewardsData { account_address: account_id.clone(), rewards })
            },
            None => None,
        }
    }

    /// One order entry's unclaimed amount, zero when absent.
    pub fn get_order_reward(&self, receipt: &str, order_id: u64) -> (r: Decimal)
        requires
            self.wf(),
        ensures
            r@ == amount_for(self.orders_v(), order_key(receipt@, order_id)),
    {
        let key = make_order_key(receipt, order_id);
        let (amt, _) = vault_balance(&self.claim_orders, &key);
        amt
    }

    /// One token's custody balance, zero when no vault exists.
    pub fn vault_amount(&self, token: &String) -> (r: Decimal)
        requires
            self.wf(),
        ensures
            r@ == amount_for(self.vaults_v(), token@),
    {
        let (amt, _) = vault_balance(&self.claim_vaults, token);
        amt
    }
}

/// A batch text, decoded: the empty text is the empty batch; any other text
/// must decode whole.
pub open spec fn parsed_orders_batch(s: Seq<char>) -> Result<
    Seq<(Seq<char>, Seq<(u64, int)>)>,
    ParseError,
> {
    if s.len() == 0 {
        Ok(Seq::<(Seq<char>, Seq<(u64, int)>)>::empty())
    } else {
        match crate::parser::parse_orders_batch_text(s) {
            Ok(b) => Ok(to_batch_u64(b)),
            Err(e) => Err(e),
        }
    }
}

/// Order numbers, narrowed back to their machine type.
pub open spec fn to_batch_u64(b: Seq<(Seq<char>, Seq<(int, int)>)>) -> Seq<
    (Seq<char>, Seq<(u64, int)>),
> {
    b.map_values(
        |p: (Seq<char>, Seq<(int, int)>)|
            (p.0, p.1.map_values(|e: (int, int)| (e.0 as u64, e.1))),
    )
}

/// The two readings of a decoded batch agree.
pub proof fn lemma_orders_batch_views_agree(b: Seq<JsonPairOrderRewards>)
    ensures
        orders_batch_view(b) == to_batch_u64(crate::parser::batch_text_view(b)),
{
    let lhs = orders_batch_view(b);
    let rhs = to_batch_u64(crate::parser::batch_text_view(b));
    assert forall|i: int| 0 <= i < b.len() implies lhs[i] == rhs[i] by {
        assert(lhs[i].1 =~= rhs[i].1);
        assert(lhs[i].0 == rhs[i].0);
    }
    assert(lhs =~= rhs);
}

} // verus!
