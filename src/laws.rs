use crate::contract::CrossContract;
use crate::ledger::{
    claimable, has_match, is_latest_record, last_match, latest_record, lemma_last_match,
    lemma_latest_record, matches_at, matches_record, remove_credit_at, remove_record, StakeView,
};
use vstd::seq_lib::to_multiset_remove;
use vstd::prelude::*;

verus! {

/// The asset and time that name a record in the continuations.
pub open spec fn record_keys(s: Seq<StakeView>) -> Seq<(Seq<char>, u64)> {
    s.map_values(|r: StakeView| (r.staked_id, r.timestamp))
}

/// `s` after the record named by each key of `keys` was removed, in order:
/// the records left once the return transfers for those keys succeeded.
pub open spec fn remove_each(s: Seq<StakeView>, keys: Seq<(Seq<char>, u64)>) -> Seq<StakeView>
    decreases keys.len(),
{
    if keys.len() == 0 {
        s
    } else {
        remove_each(remove_record(s, keys[0].0, keys[0].1), keys.drop_first())
    }
}

proof fn lemma_latest_exists(s: Seq<StakeView>, a: Seq<char>, t: u64, i: int)
    requires
        matches_record(s, a, t, i),
    ensures
        is_latest_record(s, a, t, latest_record(s, a, t)),
    decreases s.len() - i,
{
    if forall|j: int| i < j < s.len() ==> !matches_record(s, a, t, j) {
        lemma_latest_record(s, a, t, i);
    } else {
        let j = choose|j: int| i < j < s.len() && matches_record(s, a, t, j);
        lemma_latest_exists(s, a, t, j);
    }
}

/// An owner who holds no stake record can claim nothing for any asset at any
/// time, is handed nothing back by `unstake`, and a confirmed return transfer
/// changes nothing of theirs.
pub proof fn lemma_owner_without_stakes(c: &CrossContract, o: Seq<char>, a: Seq<char>, now: u64)
    requires
        c.wf(),
        c.stakes(o).len() == 0,
    ensures
        claimable(c.stakes(o), c.credits(o), a, now) == 0,
        forall|t: u64| remove_record(c.stakes(o), a, t) == c.stakes(o),
{
    assert(!has_match(c.stakes(o), a));
    assert forall|t: u64| remove_record(c.stakes(o), a, t) == c.stakes(o) by {
        assert(!(exists|i: int| matches_record(c.stakes(o), a, t, i)));
    }
}

/// Nothing can be claimed for an asset of which the owner holds no record, so
/// a claim of it pays nothing and changes nothing.
pub proof fn lemma_nothing_claimable_without_record(
    s: Seq<StakeView>,
    credits: Seq<u128>,
    a: Seq<char>,
    now: u64,
)
    requires
        !has_match(s, a),
    ensures
        claimable(s, credits, a, now) == 0,
{
}

/// Staking an asset of which the owner held no record leaves exactly one
/// record of it, the new one, with the time of the stake.
pub proof fn lemma_stake_recorded(s: Seq<StakeView>, rec: StakeView)
    requires
        !has_match(s, rec.staked_id),
    ensures
        has_match(s.push(rec), rec.staked_id),
        forall|i: int| #[trigger] matches_at(s.push(rec), rec.staked_id, i) ==> i == s.len(),
        s.push(rec)[s.len() as int] == rec,
{
    let t = s.push(rec);
    assert(matches_at(t, rec.staked_id, s.len() as int));
    assert forall|i: int| #[trigger] matches_at(t, rec.staked_id, i) implies i == s.len() by {
        if i < s.len() {
            assert(t[i] == s[i]);
            assert(matches_at(s, rec.staked_id, i));
        }
    }
}

/// Right after a stake made at time `T`, the claimable amount of its asset at
/// any time `T2 >= T` is `T2 - T`, so 0 at `T2 == T`.
pub proof fn lemma_claimable_after_stake(s: Seq<StakeView>, credits: Seq<u128>, rec: StakeView, now: u64)
    requires
        s.len() == credits.len(),
        now >= rec.timestamp,
    ensures
        claimable(s.push(rec), credits.push(0u128), rec.staked_id, now) == now - rec.timestamp,
        claimable(s.push(rec), credits.push(0u128), rec.staked_id, rec.timestamp) == 0,
{
    let t = s.push(rec);
    lemma_last_match(t, rec.staked_id, s.len() as int);
    assert(last_match(t, rec.staked_id) == s.len());
    assert(credits.push(0u128)[s.len() as int] == 0);
}

/// A stake whose custody transfer failed is rolled back by its continuation:
/// the records and the credit log are again what they were before the stake.
pub proof fn lemma_failed_stake_rolls_back(s: Seq<StakeView>, credits: Seq<u128>, rec: StakeView)
    requires
        s.len() == credits.len(),
    ensures
        remove_record(s.push(rec), rec.staked_id, rec.timestamp) == s,
        remove_credit_at(credits.push(0u128), latest_record(s.push(rec), rec.staked_id, rec.timestamp))
            == credits,
{
    let t = s.push(rec);
    lemma_latest_record(t, rec.staked_id, rec.timestamp, s.len() as int);
    assert(t.remove(s.len() as int) =~= s);
    assert(credits.push(0u128).remove(s.len() as int) =~= credits);
}

/// The outcome of a return transfer touches its own record only: where no
/// later record has the same asset and time, confirming the transfer for
/// record `k` removes record `k` and nothing else.
pub proof fn lemma_return_settles_own_record(s: Seq<StakeView>, k: int)
    requires
        0 <= k < s.len(),
        forall|j: int|
            k < j < s.len() ==> !(#[trigger] s[j].staked_id == s[k].staked_id && s[j].timestamp
                == s[k].timestamp),
    ensures
        latest_record(s, s[k].staked_id, s[k].timestamp) == k,
        remove_record(s, s[k].staked_id, s[k].timestamp) == s.remove(k),
{
    lemma_latest_record(s, s[k].staked_id, s[k].timestamp, k);
}

/// Once every return transfer that `unstake` issued for an owner has been
/// confirmed, in any order, none of the owner's records is left.
pub proof fn lemma_unstake_clears(s: Seq<StakeView>, keys: Seq<(Seq<char>, u64)>)
    requires
        keys.to_multiset() == record_keys(s).to_multiset(),
    ensures
        remove_each(s, keys) == Seq::<StakeView>::empty(),
    decreases keys.len(),
{
    keys.to_multiset_ensures();
    record_keys(s).to_multiset_ensures();
    if keys.len() == 0 {
        assert(s =~= Seq::<StakeView>::empty());
    } else {
        let k = keys[0];
        assert(keys.contains(k));
        assert(keys.to_multiset().count(k) > 0);
        assert(record_keys(s).to_multiset().count(k) > 0);
        assert(record_keys(s).contains(k));
        let i = choose|i: int| 0 <= i < record_keys(s).len() && record_keys(s)[i] == k;
        assert(matches_record(s, k.0, k.1, i));
        lemma_latest_exists(s, k.0, k.1, i);
        let m = latest_record(s, k.0, k.1);
        let rest = s.remove(m);
        assert(record_keys(rest) =~= record_keys(s).remove(m));
        assert(record_keys(s)[m] == k);
        to_multiset_remove(record_keys(s), m);
        to_multiset_remove(keys, 0);
        assert(keys.remove(0) =~= keys.drop_first());
        lemma_unstake_clears(rest, keys.drop_first());
    }
}

} // verus!
