use staking::{AccountId, CrossContract, NotFound, StakeLedger, APPROVAL_ID, ONE_YOCTO, STAKE_GAS};

fn acct(s: &str) -> AccountId {
    AccountId::from_cross_str(s)
}

fn pool() -> CrossContract {
    CrossContract::new(acct("ft_contract"), acct("nft_contract"))
}

fn id(s: &str) -> String {
    s.to_string()
}

#[test]
fn scenario_stake_claimable_unstake() {
    let mut c = pool();
    let alice = acct("alice");
    let me = acct("staking");
    c.stake(&alice, &me, 100, id("7"));
    assert_eq!(c.get_claimable(&alice, &id("7"), 150), 50);
    let transfers = c.unstake(&alice, &me);
    assert_eq!(transfers.len(), 1);
    for t in &transfers {
        c.on_unstake_transfer(&t.receiver_id, &t.token_id, t.staked_at, true);
    }
    assert!(c.stakes_of(&alice).is_empty());
    assert_eq!(c.get_claimable(&alice, &id("7"), 200), 0);
}

#[test]
fn scenario_partial_unstake_failure() {
    let mut c = pool();
    let alice = acct("alice");
    let me = acct("staking");
    c.stake(&alice, &me, 100, id("1"));
    c.stake(&alice, &me, 110, id("2"));
    let transfers = c.unstake(&alice, &me);
    assert_eq!(transfers.len(), 2);
    assert_eq!(transfers[0].token_id, "1");
    assert_eq!(transfers[1].token_id, "2");
    let removed = c.on_unstake_transfer(&alice, &id("2"), 110, false);
    assert!(removed.is_none());
    let removed = c.on_unstake_transfer(&alice, &id("1"), 100, true);
    assert_eq!(removed.unwrap().staked_id, "1");
    let left = c.stakes_of(&alice);
    assert_eq!(left.len(), 1);
    assert_eq!(left[0].staked_id, "2");
    assert_eq!(left[0].timestamp, 110);
}

#[test]
fn owner_without_stakes_is_inert() {
    let mut c = pool();
    let bob = acct("bob");
    let me = acct("staking");
    assert_eq!(c.get_claimable(&bob, &id("7"), 1000), 0);
    assert!(c.unstake(&bob, &me).is_empty());
    assert!(c.claim(&bob, &id("7"), 1000).is_none());
    assert!(c.on_unstake_transfer(&bob, &id("7"), 0, true).is_none());
    assert!(c.stakes_of(&bob).is_empty());
}

#[test]
fn stake_records_one_entry_and_issues_custody_transfer() {
    let mut c = pool();
    let alice = acct("alice");
    let me = acct("staking");
    let t = c.stake(&alice, &me, 42, id("9"));
    assert_eq!(t.contract.as_str(), "nft_contract");
    assert_eq!(t.sender_id.as_str(), "alice");
    assert_eq!(t.receiver_id.as_str(), "staking");
    assert_eq!(t.token_id, "9");
    assert_eq!(t.approval_id, Some(APPROVAL_ID));
    assert_eq!(t.memo.as_deref(), Some("memo"));
    assert_eq!(t.deposit, ONE_YOCTO);
    assert_eq!(t.gas, Some(STAKE_GAS));
    assert_eq!(t.staked_at, 42);
    let s = c.stakes_of(&alice);
    assert_eq!(s.len(), 1);
    assert_eq!(s[0].staked_id, "9");
    assert_eq!(s[0].timestamp, 42);
    assert_eq!(s[0].owner_id.as_str(), "alice");
}

#[test]
fn claimable_is_elapsed_time() {
    let mut c = pool();
    let alice = acct("alice");
    let me = acct("staking");
    c.stake(&alice, &me, 100, id("3"));
    assert_eq!(c.get_claimable(&alice, &id("3"), 100), 0);
    assert_eq!(c.get_claimable(&alice, &id("3"), 175), 75);
    assert_eq!(c.get_claimable(&alice, &id("3"), 99), 0);
    assert_eq!(c.get_claimable(&alice, &id("4"), 175), 0);
}

#[test]
fn claimable_uses_latest_record_of_asset() {
    let mut c = pool();
    let alice = acct("alice");
    let me = acct("staking");
    c.stake(&alice, &me, 100, id("5"));
    c.stake(&alice, &me, 130, id("5"));
    assert_eq!(c.get_claimable(&alice, &id("5"), 150), 20);
}

#[test]
fn claim_pays_claimable_once() {
    let mut c = pool();
    let alice = acct("alice");
    let me = acct("staking");
    c.stake(&alice, &me, 100, id("7"));
    let pay = c.claim(&alice, &id("7"), 160).unwrap();
    assert_eq!(pay.amount, 60);
    assert_eq!(pay.receiver_id.as_str(), "alice");
    assert_eq!(pay.contract.as_str(), "ft_contract");
    assert_eq!(pay.memo.as_deref(), Some("claim"));
    assert_eq!(pay.deposit, ONE_YOCTO);
    assert_eq!(pay.token_id, "7");
    assert_eq!(pay.staked_at, 100);
    let again = c.claim(&alice, &id("7"), 160).unwrap();
    assert_eq!(again.amount, 0);
    assert_eq!(again.staked_at, 100);
    assert_eq!(c.get_claimable(&alice, &id("7"), 160), 0);
    assert_eq!(c.get_claimable(&alice, &id("7"), 170), 10);
    let pay = c.claim(&alice, &id("7"), 170).unwrap();
    assert_eq!(pay.amount, 10);
}

#[test]
fn claim_for_unstaked_asset_pays_nothing() {
    let mut c = pool();
    let alice = acct("alice");
    let me = acct("staking");
    c.stake(&alice, &me, 100, id("1"));
    assert!(c.claim(&alice, &id("2"), 500).is_none());
    assert_eq!(c.get_claimable(&alice, &id("1"), 500), 400);
    let bob = acct("bob");
    assert!(c.claim(&bob, &id("1"), 500).is_none());
}

#[test]
fn failed_payout_restores_credit() {
    let mut c = pool();
    let alice = acct("alice");
    let me = acct("staking");
    c.stake(&alice, &me, 100, id("7"));
    let pay = c.claim(&alice, &id("7"), 140).unwrap();
    assert_eq!(pay.amount, 40);
    c.on_claim_transfer(&alice, &id("7"), pay.staked_at, pay.amount, false);
    assert_eq!(c.get_claimable(&alice, &id("7"), 140), 40);
    let pay = c.claim(&alice, &id("7"), 140).unwrap();
    c.on_claim_transfer(&alice, &id("7"), pay.staked_at, pay.amount, true);
    assert_eq!(c.get_claimable(&alice, &id("7"), 140), 0);
}

#[test]
fn failed_custody_transfer_withdraws_stake() {
    let mut c = pool();
    let alice = acct("alice");
    let me = acct("staking");
    c.stake(&alice, &me, 100, id("1"));
    c.stake(&alice, &me, 110, id("2"));
    c.on_stake_transfer(&alice, &id("2"), 110, false);
    let s = c.stakes_of(&alice);
    assert_eq!(s.len(), 1);
    assert_eq!(s[0].staked_id, "1");
    c.on_stake_transfer(&alice, &id("1"), 100, true);
    assert_eq!(c.stakes_of(&alice).len(), 1);
}

#[test]
fn unstake_issues_return_transfers_in_order() {
    let mut c = pool();
    let alice = acct("alice");
    let bob = acct("bob");
    let me = acct("staking");
    c.stake(&alice, &me, 1, id("a"));
    c.stake(&bob, &me, 2, id("b"));
    c.stake(&alice, &me, 3, id("c"));
    let t = c.unstake(&alice, &me);
    assert_eq!(t.len(), 2);
    assert_eq!(t[0].token_id, "a");
    assert_eq!(t[1].token_id, "c");
    assert_eq!(t[0].staked_at, 1);
    assert_eq!(t[1].staked_at, 3);
    for x in &t {
        assert_eq!(x.sender_id.as_str(), "staking");
        assert_eq!(x.receiver_id.as_str(), "alice");
        assert_eq!(x.contract.as_str(), "nft_contract");
        assert_eq!(x.approval_id, Some(APPROVAL_ID));
        assert_eq!(x.memo.as_deref(), Some("memo"));
        assert_eq!(x.deposit, 0);
        assert_eq!(x.gas, None);
    }
    assert_eq!(c.stakes_of(&alice).len(), 2);
    for x in &t {
        c.on_unstake_transfer(&alice, &x.token_id, x.staked_at, true);
    }
    assert!(c.stakes_of(&alice).is_empty());
    assert_eq!(c.stakes_of(&bob).len(), 1);
}

#[test]
fn unstake_of_absent_asset_changes_nothing() {
    let mut c = pool();
    let alice = acct("alice");
    let me = acct("staking");
    c.stake(&alice, &me, 1, id("a"));
    assert!(c.on_unstake_transfer(&alice, &id("z"), 1, true).is_none());
    assert_eq!(c.stakes_of(&alice).len(), 1);
}

#[test]
fn ledger_remove_stake_not_found() {
    let mut l = StakeLedger::new();
    let alice = acct("alice");
    assert_eq!(l.remove_stake(&alice, &id("1")).err(), Some(NotFound));
    l.record_stake(&alice, id("1"), 10);
    assert_eq!(l.remove_stake(&alice, &id("2")).err(), Some(NotFound));
    let r = l.remove_stake(&alice, &id("1")).unwrap();
    assert_eq!(r.staked_id, "1");
    assert_eq!(r.timestamp, 10);
    assert!(l.stakes_of(&alice).is_empty());
}

#[test]
fn ledger_remove_takes_earliest_record() {
    let mut l = StakeLedger::new();
    let alice = acct("alice");
    l.record_stake(&alice, id("1"), 10);
    l.record_stake(&alice, id("1"), 20);
    let r = l.remove_stake(&alice, &id("1")).unwrap();
    assert_eq!(r.timestamp, 10);
    assert_eq!(l.stakes_of(&alice)[0].timestamp, 20);
}

#[test]
fn ledger_consume_and_restore_credit() {
    let mut l = StakeLedger::new();
    let alice = acct("alice");
    l.record_stake(&alice, id("1"), 10);
    assert_eq!(l.consume_claimable(&alice, &id("1"), 30), 20);
    assert_eq!(l.claimable_amount(&alice, &id("1"), 30), 0);
    l.restore_credit(&alice, &id("1"), 10, 5);
    assert_eq!(l.claimable_amount(&alice, &id("1"), 30), 5);
    l.restore_credit(&alice, &id("1"), 10, 1000);
    assert_eq!(l.claimable_amount(&alice, &id("1"), 30), 20);
}

#[test]
fn claimable_at_largest_time() {
    let mut c = pool();
    let alice = acct("alice");
    let me = acct("staking");
    c.stake(&alice, &me, 0, id("1"));
    assert_eq!(c.get_claimable(&alice, &id("1"), u64::MAX), u64::MAX as u128);
}

#[test]
fn transfer_money_builds_native_transfer() {
    let c = pool();
    let t = c.transfer_money(acct("bob"), 12345);
    assert_eq!(t.receiver_id.as_str(), "bob");
    assert_eq!(t.amount, 12345);
}

#[test]
fn account_ids_are_validated() {
    let a = AccountId::try_from_cross_str("alice.near").unwrap();
    assert_eq!(a.as_str(), "alice.near");
    assert!(AccountId::try_from_cross_str("invalid.").is_none());
    assert!(AccountId::try_from_cross_str("Alice").is_none());
    assert!(AccountId::try_from_cross_str("a").is_none());
    assert!(AccountId::try_from_cross_str("").is_none());
    assert!(AccountId::try_from_cross_str("a..b").is_none());
    assert!(AccountId::try_from_cross_str("-ab").is_none());
    assert!(AccountId::try_from_cross_str("b-o_w_e-n").is_some());
    assert!(AccountId::try_from_cross_str(&"a".repeat(64)).is_some());
    assert!(AccountId::try_from_cross_str(&"a".repeat(65)).is_none());
    assert!(acct("bob").same(&acct("bob")));
    assert!(!acct("bob").same(&acct("alice")));
}

#[test]
fn failed_restake_rolls_back_only_the_new_record() {
    let mut c = pool();
    let alice = acct("alice");
    let me = acct("staking");
    c.stake(&alice, &me, 100, id("A"));
    let t = c.stake(&alice, &me, 200, id("A"));
    c.on_stake_transfer(&alice, &t.token_id, t.staked_at, false);
    let s = c.stakes_of(&alice);
    assert_eq!(s.len(), 1);
    assert_eq!(s[0].staked_id, "A");
    assert_eq!(s[0].timestamp, 100);
    assert_eq!(c.get_claimable(&alice, &id("A"), 150), 50);
}

#[test]
fn unstake_outcomes_settle_their_own_records() {
    let mut c = pool();
    let alice = acct("alice");
    let me = acct("staking");
    c.stake(&alice, &me, 100, id("A"));
    c.stake(&alice, &me, 200, id("A"));
    let t = c.unstake(&alice, &me);
    assert_eq!(t.len(), 2);
    assert!(c.on_unstake_transfer(&alice, &t[0].token_id, t[0].staked_at, false).is_none());
    let removed = c.on_unstake_transfer(&alice, &t[1].token_id, t[1].staked_at, true).unwrap();
    assert_eq!(removed.timestamp, 200);
    let s = c.stakes_of(&alice);
    assert_eq!(s.len(), 1);
    assert_eq!(s[0].timestamp, 100);
}

#[test]
fn failed_payout_restores_credit_of_its_own_record() {
    let mut c = pool();
    let alice = acct("alice");
    let me = acct("staking");
    c.stake(&alice, &me, 100, id("A"));
    let pay = c.claim(&alice, &id("A"), 150).unwrap();
    assert_eq!(pay.amount, 50);
    c.stake(&alice, &me, 160, id("A"));
    c.on_claim_transfer(&alice, &pay.token_id, pay.staked_at, pay.amount, false);
    assert_eq!(c.get_claimable(&alice, &id("A"), 170), 10);
    let t = c.unstake(&alice, &me);
    c.on_unstake_transfer(&alice, &t[1].token_id, t[1].staked_at, true);
    assert_eq!(c.get_claimable(&alice, &id("A"), 170), 70);
}

#[test]
fn ledger_remove_record_by_asset_and_time() {
    let mut l = StakeLedger::new();
    let alice = acct("alice");
    l.record_stake(&alice, id("1"), 10);
    l.record_stake(&alice, id("1"), 20);
    assert_eq!(l.remove_record(&alice, &id("1"), 30).err(), Some(NotFound));
    let r = l.remove_record(&alice, &id("1"), 20).unwrap();
    assert_eq!(r.timestamp, 20);
    let left = l.stakes_of(&alice);
    assert_eq!(left.len(), 1);
    assert_eq!(left[0].timestamp, 10);
}

#[test]
fn claim_at_stake_time_pays_zero() {
    let mut c = pool();
    let alice = acct("alice");
    let me = acct("staking");
    c.stake(&alice, &me, 100, id("7"));
    let pay = c.claim(&alice, &id("7"), 100).unwrap();
    assert_eq!(pay.amount, 0);
    assert_eq!(pay.receiver_id.as_str(), "alice");
    assert_eq!(pay.token_id, "7");
    assert_eq!(pay.staked_at, 100);
    assert_eq!(c.get_claimable(&alice, &id("7"), 130), 30);
}
