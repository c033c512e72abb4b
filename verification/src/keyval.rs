//! Keyed entry lists.
//!
//! Every mapping the ledger keeps (account rows, category sub-maps, token
//! balances, order entries, custody vaults) is a vector of `(String, value)`
//! pairs with pairwise-distinct keys, read in specifications as a sequence of
//! `(Seq<char>, value)` pairs.

use vstd::prelude::*;

verus! {

/// Index of the first entry whose key is `k`, if any.
pub open spec fn find_key<V>(s: Seq<(Seq<char>, V)>, k: Seq<char>) -> Option<int>
    decreases s.len(),
{
    if s.len() == 0 {
        None::<int>
    } else if s[0].0 == k {
        Some(0int)
    } else {
        match find_key(s.drop_first(), k) {
            Some(i) => Some(i + 1),
            None => None,
        }
    }
}

/// All keys in the list are pairwise distinct.
pub open spec fn distinct_keys<V>(s: Seq<(Seq<char>, V)>) -> bool {
    forall|i: int, j: int| 0 <= i < j < s.len() ==> s[i].0 != s[j].0
}

/// What `find_key` returns: the first index holding `k`, or `None` when no
/// entry holds `k`.
pub proof fn lemma_find_key<V>(s: Seq<(Seq<char>, V)>, k: Seq<char>)
    ensures
        match find_key(s, k) {
            Some(i) => 0 <= i < s.len() && s[i].0 == k && (forall|j: int|
                0 <= j < i ==> s[j].0 != k),
            None => forall|j: int| 0 <= j < s.len() ==> s[j].0 != k,
        },
    decreases s.len(),
{
    if s.len() > 0 && s[0].0 != k {
        let rest = s.drop_first();
        lemma_find_key(rest, k);
        match find_key(rest, k) {
            Some(i) => {
                assert(s[i + 1] == rest[i]);
                assert forall|j: int| 0 <= j < i + 1 implies s[j].0 != k by {
                    if j > 0 {
                        assert(rest[j - 1] == s[j]);
                    }
                }
            },
            None => {
                assert forall|j: int| 0 <= j < s.len() implies s[j].0 != k by {
                    if j > 0 {
                        assert(rest[j - 1] == s[j]);
                    }
                }
            },
        }
    }
}

/// Under distinct keys, an entry holding `k` is the one `find_key` returns.
pub proof fn lemma_find_key_unique<V>(s: Seq<(Seq<char>, V)>, k: Seq<char>, i: int)
    requires
        distinct_keys(s),
        0 <= i < s.len(),
        s[i].0 == k,
    ensures
        find_key(s, k) == Some(i),
{
    lemma_find_key(s, k);
    match find_key(s, k) {
        Some(f) => {
            if f != i {
                assert(s[f].0 == s[i].0);
            }
        },
        None => {},
    }
}

/// The list with the entry for `k` set to `val` when `keep` holds, and
/// absent when it does not. An updated entry stays in place; a fresh one is
/// appended.
pub open spec fn with_key<V>(s: Seq<(Seq<char>, V)>, k: Seq<char>, val: V, keep: bool) -> Seq<
    (Seq<char>, V),
> {
    match find_key(s, k) {
        Some(i) => if keep {
            s.update(i, (s[i].0, val))
        } else {
            s.remove(i)
        },
        None => if keep {
            s.push((k, val))
        } else {
            s
        },
    }
}

/// `with_key` keeps keys pairwise distinct.
pub proof fn lemma_with_key_distinct<V>(s: Seq<(Seq<char>, V)>, k: Seq<char>, val: V, keep: bool)
    requires
        distinct_keys(s),
    ensures
        distinct_keys(with_key(s, k, val, keep)),
{
    lemma_find_key(s, k);
    let s2 = with_key(s, k, val, keep);
    match find_key(s, k) {
        Some(i) => {
            if keep {
                assert(forall|j: int| 0 <= j < s2.len() ==> s2[j].0 == s[j].0);
            } else {
                assert forall|a: int, b: int| 0 <= a < b < s2.len() implies s2[a].0 != s2[b].0 by {
                    let a0 = if a < i {
                        a
                    } else {
                        a + 1
                    };
                    let b0 = if b < i {
                        b
                    } else {
                        b + 1
                    };
                    assert(s2[a] == s[a0]);
                    assert(s2[b] == s[b0]);
                }
            }
        },
        None => {
            if keep {
                assert forall|a: int, b: int| 0 <= a < b < s2.len() implies s2[a].0 != s2[b].0 by {
                    if b == s.len() {
                        assert(s2[a] == s[a]);
                        assert(s2[b].0 == k);
                    } else {
                        assert(s2[a] == s[a]);
                        assert(s2[b] == s[b]);
                    }
                }
            }
        },
    }
}

/// How `with_key` moves the per-key sums: the sum for `k` becomes `val` (or
/// zero when pruned), every other key's sum is unchanged.
pub proof fn lemma_with_key_total_for(
    s: AmountsV,
    k: Seq<char>,
    val: int,
    keep: bool,
    t: Seq<char>,
)
    requires
        distinct_keys(s),
    ensures
        total_for(with_key(s, k, val, keep), t) == if t == k {
            if keep {
                val
            } else {
                0
            }
        } else {
            total_for(s, t)
        },
{
    lemma_find_key(s, k);
    lemma_total_for_is_amount(s, t);
    let s2 = with_key(s, k, val, keep);
    match find_key(s, k) {
        Some(i) => {
            if keep {
                lemma_total_for_update(s, i, val, t);
            } else {
                lemma_total_for_remove(s, i, t);
            }
        },
        None => {
            if keep {
                lemma_total_for_push(s, (k, val), t);
            }
        },
    }
    if t == k {
        lemma_total_for_is_amount_helper(s, k, val, keep, t);
    }
}

proof fn lemma_total_for_is_amount_helper(
    s: AmountsV,
    k: Seq<char>,
    val: int,
    keep: bool,
    t: Seq<char>,
)
    requires
        distinct_keys(s),
        t == k,
    ensures
        total_for(with_key(s, k, val, keep), t) == if keep {
            val
        } else {
            0
        },
{
    lemma_find_key(s, k);
    lemma_total_for_is_amount(s, t);
    let s2 = with_key(s, k, val, keep);
    lemma_with_key_distinct(s, k, val, keep);
    lemma_total_for_is_amount(s2, t);
    match find_key(s, k) {
        Some(i) => {
            if keep {
                lemma_find_key_unique(s2, k, i);
            } else {
                assert forall|j: int| 0 <= j < s2.len() implies s2[j].0 != k by {
                    let j0 = if j < i {
                        j
                    } else {
                        j + 1
                    };
                    assert(s2[j] == s[j0]);
                    if j0 != i && s[j0].0 == k {
                        assert(s[i].0 == k);
                    }
                }
                lemma_find_key_none(s2, k);
            }
        },
        None => {
            lemma_find_key(s2, k);
            if keep {
                lemma_find_key_unique(s2, k, s.len() as int);
            }
        },
    }
}

/// Every entry of a `with_key` result is an entry of the input, or else the
/// kept entry, which carries `val`.
pub proof fn lemma_with_key_values<V>(s: Seq<(Seq<char>, V)>, k: Seq<char>, val: V, keep: bool)
    ensures
        forall|j: int|
            0 <= j < with_key(s, k, val, keep).len() ==> ((exists|j0: int|
                0 <= j0 < s.len() && #[trigger] with_key(s, k, val, keep)[j] == s[j0]) || (keep
                && with_key(s, k, val, keep)[j].1 == val)),
{
    lemma_find_key(s, k);
    let s2 = with_key(s, k, val, keep);
    match find_key(s, k) {
        Some(i) => {
            if keep {
                assert forall|j: int| 0 <= j < s2.len() implies ((exists|j0: int|
                    0 <= j0 < s.len() && #[trigger] s2[j] == s[j0]) || (keep && s2[j].1
                    == val)) by {
                    if j != i {
                        assert(s2[j] == s[j]);
                    }
                }
            } else {
                assert forall|j: int| 0 <= j < s2.len() implies ((exists|j0: int|
                    0 <= j0 < s.len() && #[trigger] s2[j] == s[j0]) || (keep && s2[j].1
                    == val)) by {
                    let j0 = if j < i {
                        j
                    } else {
                        j + 1
                    };
                    assert(s2[j] == s[j0]);
                }
            }
        },
        None => {
            if keep {
                assert forall|j: int| 0 <= j < s2.len() implies ((exists|j0: int|
                    0 <= j0 < s.len() && #[trigger] s2[j] == s[j0]) || (keep && s2[j].1
                    == val)) by {
                    if j < s.len() {
                        assert(s2[j] == s[j]);
                    }
                }
            }
        },
    }
}

/// The value stored under `k`, if any.
pub open spec fn value_for<V>(s: Seq<(Seq<char>, V)>, k: Seq<char>) -> Option<V> {
    match find_key(s, k) {
        Some(i) => Some(s[i].1),
        None => None,
    }
}

/// How `with_key` answers lookups: `k` now holds `val` (or nothing when
/// pruned); every other key answers as before.
pub proof fn lemma_with_key_value_for<V>(
    s: Seq<(Seq<char>, V)>,
    k: Seq<char>,
    val: V,
    keep: bool,
    t: Seq<char>,
)
    requires
        distinct_keys(s),
    ensures
        value_for(with_key(s, k, val, keep), t) == (if t == k {
            if keep {
                Some(val)
            } else {
                None::<V>
            }
        } else {
            value_for(s, t)
        }),
{
    lemma_find_key(s, k);
    lemma_find_key(s, t);
    lemma_with_key_distinct(s, k, val, keep);
    let s2 = with_key(s, k, val, keep);
    match find_key(s, k) {
        Some(i) => {
            if keep {
                assert(forall|j: int| 0 <= j < s2.len() ==> #[trigger] s2[j].0 == s[j].0);
                if t == k {
                    lemma_find_key_unique(s2, k, i);
                } else {
                    match find_key(s, t) {
                        Some(it) => {
                            assert(s2[it].0 == t);
                            lemma_find_key_unique(s2, t, it);
                            assert(s2[it].1 == s[it].1);
                        },
                        None => {
                            lemma_find_key_none(s2, t);
                        },
                    }
                }
            } else {
                assert(forall|j: int|
                    0 <= j < s2.len() ==> #[trigger] s2[j] == (if j < i {
                        s[j]
                    } else {
                        s[j + 1]
                    }));
                if t == k {
                    assert forall|j: int| 0 <= j < s2.len() implies s2[j].0 != k by {
                        let j0 = if j < i {
                            j
                        } else {
                            j + 1
                        };
                        if j0 != i && s[j0].0 == k {
                            assert(s[i].0 == k);
                        }
                    }
                    lemma_find_key_none(s2, t);
                } else {
                    match find_key(s, t) {
                        Some(it) => {
                            let it2 = if it < i {
                                it
                            } else {
                                it - 1
                            };
                            assert(s2[it2] == s[it]);
                            lemma_find_key_unique(s2, t, it2);
                        },
                        None => {
                            assert forall|j: int| 0 <= j < s2.len() implies s2[j].0 != t by {
                                let j0 = if j < i {
                                    j
                                } else {
                                    j + 1
                                };
                                assert(s2[j] == s[j0]);
                            }
                            lemma_find_key_none(s2, t);
                        },
                    }
                }
            }
        },
        None => {
            if keep {
                assert(forall|j: int| 0 <= j < s.len() ==> #[trigger] s2[j] == s[j]);
                assert(s2[s.len() as int] == (k, val));
                if t == k {
                    lemma_find_key_unique(s2, k, s.len() as int);
                } else {
                    match find_key(s, t) {
                        Some(it) => {
                            lemma_find_key_unique(s2, t, it);
                        },
                        None => {
                            lemma_find_key_none(s2, t);
                        },
                    }
                }
            }
        },
    }
}

/// Sum of `f` over all stored values.
pub open spec fn sum_values<V>(s: Seq<(Seq<char>, V)>, f: spec_fn(V) -> int) -> int
    decreases s.len(),
{
    if s.len() == 0 {
        0
    } else {
        f(s[0].1) + sum_values(s.drop_first(), f)
    }
}

pub proof fn lemma_sum_values_update<V>(
    s: Seq<(Seq<char>, V)>,
    i: int,
    e: (Seq<char>, V),
    f: spec_fn(V) -> int,
)
    requires
        0 <= i < s.len(),
    ensures
        sum_values(s.update(i, e), f) == sum_values(s, f) + f(e.1) - f(s[i].1),
    decreases s.len(),
{
    let s2 = s.update(i, e);
    if i == 0 {
        assert(s2.drop_first() =~= s.drop_first());
    } else {
        assert(s2.drop_first() =~= s.drop_first().update(i - 1, e));
        lemma_sum_values_update(s.drop_first(), i - 1, e, f);
    }
}

pub proof fn lemma_sum_values_remove<V>(s: Seq<(Seq<char>, V)>, i: int, f: spec_fn(V) -> int)
    requires
        0 <= i < s.len(),
    ensures
        sum_values(s.remove(i), f) == sum_values(s, f) - f(s[i].1),
    decreases s.len(),
{
    let s2 = s.remove(i);
    if i == 0 {
        assert(s2 =~= s.drop_first());
    } else {
        assert(s2.drop_first() =~= s.drop_first().remove(i - 1));
        lemma_sum_values_remove(s.drop_first(), i - 1, f);
    }
}

pub proof fn lemma_sum_values_push<V>(s: Seq<(Seq<char>, V)>, e: (Seq<char>, V), f: spec_fn(
    V,
) -> int)
    ensures
        sum_values(s.push(e), f) == sum_values(s, f) + f(e.1),
    decreases s.len(),
{
    if s.len() == 0 {
        assert(s.push(e).drop_first() =~= s);
    } else {
        assert(s.push(e).drop_first() =~= s.drop_first().push(e));
        lemma_sum_values_push(s.drop_first(), e, f);
    }
}

/// How `with_key` moves a sum over values: the old value of `k` (if any)
/// leaves the sum, the kept value (if any) enters it.
pub proof fn lemma_with_key_sum<V>(
    s: Seq<(Seq<char>, V)>,
    k: Seq<char>,
    val: V,
    keep: bool,
    f: spec_fn(V) -> int,
)
    requires
        distinct_keys(s),
    ensures
        sum_values(with_key(s, k, val, keep), f) == sum_values(s, f) + (if keep {
            f(val)
        } else {
            0
        }) - (match find_key(s, k) {
            Some(i) => f(s[i].1),
            None => 0,
        }),
{
    lemma_find_key(s, k);
    match find_key(s, k) {
        Some(i) => {
            if keep {
                lemma_sum_values_update(s, i, (s[i].0, val), f);
            } else {
                lemma_sum_values_remove(s, i, f);
            }
        },
        None => {
            if keep {
                lemma_sum_values_push(s, (k, val), f);
            }
        },
    }
}

/// When no entry holds `k`, `find_key` returns `None`.
pub proof fn lemma_find_key_none<V>(s: Seq<(Seq<char>, V)>, k: Seq<char>)
    requires
        forall|j: int| 0 <= j < s.len() ==> s[j].0 != k,
    ensures
        find_key(s, k) is None,
{
    lemma_find_key(s, k);
    match find_key(s, k) {
        Some(i) => {
            assert(s[i].0 == k);
        },
        None => {},
    }
}

/// A keyed list of amounts, as specifications read it.
pub type AmountsV = Seq<(Seq<char>, int)>;

/// Sum of the amounts of all entries whose key is `k`.
pub open spec fn total_for(s: AmountsV, k: Seq<char>) -> int
    decreases s.len(),
{
    if s.len() == 0 {
        0
    } else {
        (if s[0].0 == k {
            s[0].1
        } else {
            0
        }) + total_for(s.drop_first(), k)
    }
}

/// Sum of the amounts of all entries.
pub open spec fn total_all(s: AmountsV) -> int
    decreases s.len(),
{
    if s.len() == 0 {
        0
    } else {
        s[0].1 + total_all(s.drop_first())
    }
}

/// The amount of the entry holding `k`, or zero when none does.
pub open spec fn amount_for(s: AmountsV, k: Seq<char>) -> int {
    match find_key(s, k) {
        Some(i) => s[i].1,
        None => 0,
    }
}

/// Under distinct keys, the sum for `k` is the one entry's amount.
pub proof fn lemma_total_for_is_amount(s: AmountsV, k: Seq<char>)
    requires
        distinct_keys(s),
    ensures
        total_for(s, k) == amount_for(s, k),
    decreases s.len(),
{
    lemma_find_key(s, k);
    if s.len() > 0 {
        let rest = s.drop_first();
        assert(forall|j: int| 0 <= j < rest.len() ==> rest[j] == s[j + 1]);
        lemma_total_for_is_amount(rest, k);
        lemma_find_key(rest, k);
        if s[0].0 == k {
            // no other entry holds k, so the tail contributes nothing
            match find_key(rest, k) {
                Some(i) => {
                    assert(s[i + 1].0 == s[0].0);
                    assert(false);
                },
                None => {},
            }
        }
    }
}

/// Updating the amount at index `i` moves the sum for that entry's key by
/// the difference, and no other key's sum.
pub proof fn lemma_total_for_update(s: AmountsV, i: int, val: int, k: Seq<char>)
    requires
        0 <= i < s.len(),
    ensures
        total_for(s.update(i, (s[i].0, val)), k) == total_for(s, k) + (if s[i].0 == k {
            val - s[i].1
        } else {
            0
        }),
    decreases s.len(),
{
    let s2 = s.update(i, (s[i].0, val));
    if i == 0 {
        assert(s2.drop_first() =~= s.drop_first());
    } else {
        assert(s2.drop_first() =~= s.drop_first().update(i - 1, (s.drop_first()[i - 1].0, val)));
        lemma_total_for_update(s.drop_first(), i - 1, val, k);
    }
}

/// Removing the entry at index `i` lowers the sum for its key by its amount.
pub proof fn lemma_total_for_remove(s: AmountsV, i: int, k: Seq<char>)
    requires
        0 <= i < s.len(),
    ensures
        total_for(s.remove(i), k) == total_for(s, k) - (if s[i].0 == k {
            s[i].1
        } else {
            0
        }),
    decreases s.len(),
{
    let s2 = s.remove(i);
    if i == 0 {
        assert(s2 =~= s.drop_first());
    } else {
        assert(s2.drop_first() =~= s.drop_first().remove(i - 1));
        lemma_total_for_remove(s.drop_first(), i - 1, k);
    }
}

/// Appending an entry raises the sum for its key by its amount.
pub proof fn lemma_total_for_push(s: AmountsV, e: (Seq<char>, int), k: Seq<char>)
    ensures
        total_for(s.push(e), k) == total_for(s, k) + (if e.0 == k {
            e.1
        } else {
            0
        }),
    decreases s.len(),
{
    if s.len() == 0 {
        assert(s.push(e).drop_first() =~= s);
    } else {
        assert(s.push(e).drop_first() =~= s.drop_first().push(e));
        lemma_total_for_push(s.drop_first(), e, k);
    }
}

/// The same three facts for the sum over all entries.
pub proof fn lemma_total_all_update(s: AmountsV, i: int, val: int)
    requires
        0 <= i < s.len(),
    ensures
        total_all(s.update(i, (s[i].0, val))) == total_all(s) + val - s[i].1,
    decreases s.len(),
{
    let s2 = s.update(i, (s[i].0, val));
    if i == 0 {
        assert(s2.drop_first() =~= s.drop_first());
    } else {
        assert(s2.drop_first() =~= s.drop_first().update(i - 1, (s.drop_first()[i - 1].0, val)));
        lemma_total_all_update(s.drop_first(), i - 1, val);
    }
}

pub proof fn lemma_total_all_remove(s: AmountsV, i: int)
    requires
        0 <= i < s.len(),
    ensures
        total_all(s.remove(i)) == total_all(s) - s[i].1,
    decreases s.len(),
{
    let s2 = s.remove(i);
    if i == 0 {
        assert(s2 =~= s.drop_first());
    } else {
        assert(s2.drop_first() =~= s.drop_first().remove(i - 1));
        lemma_total_all_remove(s.drop_first(), i - 1);
    }
}

pub proof fn lemma_total_all_push(s: AmountsV, e: (Seq<char>, int))
    ensures
        total_all(s.push(e)) == total_all(s) + e.1,
    decreases s.len(),
{
    if s.len() == 0 {
        assert(s.push(e).drop_first() =~= s);
    } else {
        assert(s.push(e).drop_first() =~= s.drop_first().push(e));
        lemma_total_all_push(s.drop_first(), e);
    }
}

/// Two lists with the same keys answer `find_key` alike.
pub proof fn lemma_find_key_same_keys<V, W>(s: Seq<(Seq<char>, V)>, s2: Seq<(Seq<char>, W)>, k: Seq<char>)
    requires
        s.len() == s2.len(),
        forall|j: int| 0 <= j < s.len() ==> #[trigger] s[j].0 == s2[j].0,
    ensures
        find_key(s, k) == find_key(s2, k),
    decreases s.len(),
{
    if s.len() > 0 && s[0].0 != k {
        let r1 = s.drop_first();
        let r2 = s2.drop_first();
        assert(forall|j: int| 0 <= j < r1.len() ==> #[trigger] r1[j] == s[j + 1] && r2[j] == s2[j
            + 1]);
        lemma_find_key_same_keys(r1, r2, k);
    }
}

/// Removing an entry cannot make an absent key present.
pub proof fn lemma_find_key_remove_none<V>(s: Seq<(Seq<char>, V)>, i: int, k: Seq<char>)
    requires
        0 <= i < s.len(),
        find_key(s, k) is None,
    ensures
        find_key(s.remove(i), k) is None,
{
    lemma_find_key(s, k);
    let s2 = s.remove(i);
    assert forall|j: int| 0 <= j < s2.len() implies s2[j].0 != k by {
        let j0 = if j < i {
            j
        } else {
            j + 1
        };
        assert(s2[j] == s[j0]);
    }
    lemma_find_key_none(s2, k);
}

/// Index of the first entry of `entries` whose key equals `key`, if any.
pub fn key_index<V>(entries: &Vec<(String, V)>, key: &String) -> (r: Option<usize>)
    ensures
        match r {
            Some(i) => i < entries@.len() && entries@[i as int].0@ == key@ && (forall|j: int|
                0 <= j < i ==> entries@[j].0@ != key@),
            None => forall|j: int| 0 <= j < entries@.len() ==> entries@[j].0@ != key@,
        },
{
    let mut i: usize = 0;
    while i < entries.len()
        invariant
            i <= entries@.len(),
            forall|j: int| 0 <= j < i ==> entries@[j].0@ != key@,
        decreases entries@.len() - i,
    {
        if entries[i].0 == *key {
            return Some(i);
        }
        i = i + 1;
    }
    None
}

} // verus!
