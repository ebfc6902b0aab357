use crate::account::AccountId;
use crate::ledger::{
    claimable, last_match, latest_record, lemma_match_found, remove_credit_at, remove_record, stake_views,
    Stake, StakeLedger, StakeView,
};
use vstd::prelude::*;

verus! {

/// Approval under which the pool moves a staked asset.
pub const APPROVAL_ID: u64 = 1;

/// Gas attached to the custody transfer of a new stake.
pub const STAKE_GAS: u64 = 20000;

/// Deposit attached to a transfer that asks for one.
pub const ONE_YOCTO: u128 = 1;

/// A request to the asset-custody service to move one asset.
pub struct NftTransfer {
    /// The custody service's account.
    pub contract: AccountId,
    pub sender_id: AccountId,
    pub receiver_id: AccountId,
    pub token_id: String,
    pub approval_id: Option<u64>,
    pub memo: Option<String>,
    /// Deposit attached to the call.
    pub deposit: u128,
    /// Gas attached to the call; `None` forwards what the caller prepaid.
    pub gas: Option<u64>,
    /// Time of the stake record this transfer settles; its continuation
    /// names the record by `token_id` and this time.
    pub staked_at: u64,
}

/// A request to the reward-token service to pay a reward.
pub struct FtTransfer {
    /// The reward-token service's account.
    pub contract: AccountId,
    pub receiver_id: AccountId,
    pub amount: u128,
    pub memo: Option<String>,
    /// Deposit attached to the call.
    pub deposit: u128,
    /// Asset whose stake record this reward is paid for.
    pub token_id: String,
    /// Time of that stake record; the continuation names the record by
    /// `token_id` and this time.
    pub staked_at: u64,
}

/// A transfer of the host chain's native balance.
pub struct NativeTransfer {
    pub receiver_id: AccountId,
    pub amount: u128,
}

/// `t` moves asset `token_id` from `sender` to `receiver` through the custody
/// service `nft`, under the pool's approval.
pub open spec fn is_nft_transfer(
    t: NftTransfer,
    nft: Seq<char>,
    sender: Seq<char>,
    receiver: Seq<char>,
    token_id: Seq<char>,
) -> bool {
    &&& t.contract@ == nft
    &&& t.sender_id@ == sender
    &&& t.receiver_id@ == receiver
    &&& t.token_id@ == token_id
    &&& t.approval_id == Some(APPROVAL_ID)
    &&& t.memo.is_some() && t.memo.unwrap()@ == "memo"@
}

/// `t` hands the staked record `s` back from the pool to its owner.
pub open spec fn is_return_transfer(t: NftTransfer, nft: Seq<char>, pool: Seq<char>, s: StakeView) -> bool {
    &&& is_nft_transfer(t, nft, pool, s.owner_id, s.staked_id)
    &&& t.deposit == 0
    &&& t.gas.is_none()
    &&& t.staked_at == s.timestamp
}

/// The staking pool: the ledger and the decisions around its transfers.
///
/// Every operation takes the caller's identity, the time and the pool's own
/// account as plain values from the host, and returns the transfers it wants
/// made. Their outcomes come back through the `on_*_transfer` methods, which
/// confirm or undo what the operation recorded.
pub struct CrossContract {
    nft_account: AccountId,
    ft_account: AccountId,
    ledger: StakeLedger,
}

impl CrossContract {
    pub closed spec fn wf(&self) -> bool {
        self.ledger.wf()
    }

    /// Account of the asset-custody service.
    pub closed spec fn nft_account_view(&self) -> Seq<char> {
        self.nft_account@
    }

    /// Account of the reward-token service.
    pub closed spec fn ft_account_view(&self) -> Seq<char> {
        self.ft_account@
    }

    /// The stake records of owner `o`, oldest first.
    pub closed spec fn stakes(&self, o: Seq<char>) -> Seq<StakeView> {
        self.ledger.stakes(o)
    }

    /// The credit log of owner `o`, aligned with `stakes(o)`.
    pub closed spec fn credits(&self, o: Seq<char>) -> Seq<u128> {
        self.ledger.credits(o)
    }

    /// What a well-formed pool holds of every owner.
    pub proof fn lemma_owner_records(&self, o: Seq<char>)
        requires
            self.wf(),
        ensures
            self.stakes(o).len() == self.credits(o).len(),
            forall|k: int| 0 <= k < self.stakes(o).len() ==> #[trigger] self.stakes(o)[k].owner_id == o,
    {
        self.ledger.lemma_owner_records(o);
    }

    /// A pool paying rewards through `ft_account` for assets of `nft_account`,
    /// with no stakes.
    pub fn new(ft_account: AccountId, nft_account: AccountId) -> (r: CrossContract)
        ensures
            r.wf(),
            r.ft_account_view() == ft_account@,
            r.nft_account_view() == nft_account@,
            forall|o: Seq<char>| r.stakes(o) == Seq::<StakeView>::empty(),
            forall|o: Seq<char>| r.credits(o) == Seq::<u128>::empty(),
    {
        CrossContract { nft_account, ft_account, ledger: StakeLedger::new() }
    }
}

impl CrossContract {
    /// Records that `caller` staked `token_id` at `now`, and returns the
    /// transfer that moves the asset from `caller` into the custody of `pool`.
    /// The record stands at once; `on_stake_transfer` undoes it when that
    /// transfer fails.
    pub fn stake(&mut self, caller: &AccountId, pool: &AccountId, now: u64, token_id: String) -> (r: NftTransfer)
        requires
            old(self).wf(),
        ensures
            final(self).wf(),
            final(self).nft_account_view() == old(self).nft_account_view(),
            final(self).ft_account_view() == old(self).ft_account_view(),
            final(self).stakes(caller@) == old(self).stakes(caller@).push(
                StakeView { timestamp: now, staked_id: token_id@, owner_id: caller@ },
            ),
            final(self).credits(caller@) == old(self).credits(caller@).push(0u128),
            forall|o: Seq<char>|
                o != caller@ ==> final(self).stakes(o) == old(self).stakes(o) && final(self).credits(o)
                    == old(self).credits(o),
            is_nft_transfer(r, old(self).nft_account_view(), caller@, pool@, token_id@),
            r.deposit == ONE_YOCTO,
            r.gas == Some(STAKE_GAS),
            r.staked_at == now,
    {
        let transfer = NftTransfer {
            contract: self.nft_account.duplicate(),
            sender_id: caller.duplicate(),
            receiver_id: pool.duplicate(),
            token_id: token_id.clone(),
            approval_id: Some(APPROVAL_ID),
            memo: Some(String::from_str("memo")),
            deposit: ONE_YOCTO,
            gas: Some(STAKE_GAS),
            staked_at: now,
        };
        self.ledger.record_stake(caller, token_id, now);
        transfer
    }

    /// Outcome of the custody transfer of the stake of `token_id` that
    /// `caller` made at `staked_at`: on failure that stake's record (the
    /// latest of that asset and time) is withdrawn with its credit entry.
    pub fn on_stake_transfer(&mut self, caller: &AccountId, token_id: &String, staked_at: u64, success: bool)
        requires
            old(self).wf(),
        ensures
            final(self).wf(),
            final(self).nft_account_view() == old(self).nft_account_view(),
            final(self).ft_account_view() == old(self).ft_account_view(),
            final(self).stakes(caller@) == if success {
                old(self).stakes(caller@)
            } else {
                remove_record(old(self).stakes(caller@), token_id@, staked_at)
            },
            final(self).credits(caller@) == if success {
                old(self).credits(caller@)
            } else {
                remove_credit_at(
                    old(self).credits(caller@),
                    latest_record(old(self).stakes(caller@), token_id@, staked_at),
                )
            },
            forall|o: Seq<char>|
                o != caller@ ==> final(self).stakes(o) == old(self).stakes(o) && final(self).credits(o)
                    == old(self).credits(o),
    {
        if !success {
            let _ = self.ledger.remove_record(caller, token_id, staked_at);
        }
    }

    /// The transfers that hand every asset `caller` has staked back from
    /// `pool`, one per record and in the order of the records. Nothing is
    /// removed here: `on_unstake_transfer` removes each record once its
    /// transfer has succeeded.
    pub fn unstake(&self, caller: &AccountId, pool: &AccountId) -> (r: Vec<NftTransfer>)
        requires
            self.wf(),
        ensures
            r@.len() == self.stakes(caller@).len(),
            forall|k: int|
                0 <= k < r@.len() ==> is_return_transfer(
                    #[trigger] r@[k],
                    self.nft_account_view(),
                    pool@,
                    self.stakes(caller@)[k],
                ),
            forall|k: int| 0 <= k < r@.len() ==> (#[trigger] r@[k]).receiver_id@ == caller@,
    {
        let records = self.ledger.stakes_of(caller);
        proof {
            self.ledger.lemma_owner_records(caller@);
        }
        let ghost s = self.stakes(caller@);
        let mut r: Vec<NftTransfer> = Vec::new();
        let mut k: usize = 0;
        while k < records.len()
            invariant
                k <= records@.len(),
                stake_views(records@) == s,
                s == self.stakes(caller@),
                forall|j: int| 0 <= j < s.len() ==> #[trigger] s[j].owner_id == caller@,
                r@.len() == k,
                forall|j: int|
                    0 <= j < k ==> is_return_transfer(
                        #[trigger] r@[j],
                        self.nft_account_view(),
                        pool@,
                        s[j],
                    ),
            decreases records@.len() - k,
        {
            let ele = &records[k];
            assert(s[k as int] == ele@);
            assert(s[k as int].owner_id == caller@);
            if ele.owner_id.same(caller) {
                r.push(
                    NftTransfer {
                        contract: self.nft_account.duplicate(),
                        sender_id: pool.duplicate(),
                        receiver_id: ele.owner_id.duplicate(),
                        token_id: ele.staked_id.clone(),
                        approval_id: Some(APPROVAL_ID),
                        memo: Some(String::from_str("memo")),
                        deposit: 0,
                        gas: None,
                        staked_at: ele.timestamp,
                    },
                );
            }
            k = k + 1;
        }
        r
    }

    /// Outcome of the transfer that hands back to `caller` the record of
    /// `token_id` staked at `staked_at`: on success that record (the latest of
    /// that asset and time) is removed with its credit entry and returned; on
    /// failure the ledger keeps it.
    pub fn on_unstake_transfer(
        &mut self,
        caller: &AccountId,
        token_id: &String,
        staked_at: u64,
        success: bool,
    ) -> (r: Option<Stake>)
        requires
            old(self).wf(),
        ensures
            final(self).wf(),
            final(self).nft_account_view() == old(self).nft_account_view(),
            final(self).ft_account_view() == old(self).ft_account_view(),
            ({
                let i = latest_record(old(self).stakes(caller@), token_id@, staked_at);
                &&& final(self).stakes(caller@) == if success {
                    remove_record(old(self).stakes(caller@), token_id@, staked_at)
                } else {
                    old(self).stakes(caller@)
                }
                &&& final(self).credits(caller@) == if success {
                    remove_credit_at(old(self).credits(caller@), i)
                } else {
                    old(self).credits(caller@)
                }
                &&& r.is_some() == (success && i >= 0)
                &&& r.is_some() ==> r.unwrap()@ == old(self).stakes(caller@)[i]
            }),
            forall|o: Seq<char>|
                o != caller@ ==> final(self).stakes(o) == old(self).stakes(o) && final(self).credits(o)
                    == old(self).credits(o),
    {
        if !success {
            return None;
        }
        match self.ledger.remove_record(caller, token_id, staked_at) {
            Ok(record) => Some(record),
            Err(_) => None,
        }
    }

    /// Reward `caller` can claim for `token_id` at `now`.
    pub fn get_claimable(&self, caller: &AccountId, token_id: &String, now: u64) -> (r: u128)
        requires
            self.wf(),
        ensures
            r == claimable(self.stakes(caller@), self.credits(caller@), token_id@, now),
    {
        self.ledger.claimable_amount(caller, token_id, now)
    }

    /// The stake records of `owner`, oldest first.
    pub fn stakes_of(&self, owner: &AccountId) -> (r: Vec<Stake>)
        requires
            self.wf(),
        ensures
            stake_views(r@) == self.stakes(owner@),
    {
        self.ledger.stakes_of(owner)
    }

    /// Pays `caller` what is claimable for `token_id` at `now`: when `caller`
    /// holds a record of that asset, the claimable amount (possibly 0) is
    /// marked consumed in the credit log of the latest such record, so the
    /// same accrual is never paid twice, and the payout of that amount is
    /// returned. Nothing is paid or changed when `caller` holds no record of
    /// `token_id`.
    pub fn claim(&mut self, caller: &AccountId, token_id: &String, now: u64) -> (r: Option<FtTransfer>)
        requires
            old(self).wf(),
        ensures
            final(self).wf(),
            final(self).nft_account_view() == old(self).nft_account_view(),
            final(self).ft_account_view() == old(self).ft_account_view(),
            forall|o: Seq<char>| final(self).stakes(o) == old(self).stakes(o),
            forall|o: Seq<char>| o != caller@ ==> final(self).credits(o) == old(self).credits(o),
            ({
                let c = claimable(old(self).stakes(caller@), old(self).credits(caller@), token_id@, now);
                let i = last_match(old(self).stakes(caller@), token_id@);
                &&& r.is_some() == (i >= 0)
                &&& r.is_none() ==> final(self).credits(caller@) == old(self).credits(caller@)
                &&& r.is_some() ==> final(self).credits(caller@) == old(self).credits(caller@).update(
                    i,
                    (old(self).credits(caller@)[i] + c) as u128,
                )
                &&& r.is_some() ==> {
                    let t = r.unwrap();
                    &&& t.contract@ == old(self).ft_account_view()
                    &&& t.receiver_id@ == caller@
                    &&& t.amount == c
                    &&& t.memo.is_some() && t.memo.unwrap()@ == "claim"@
                    &&& t.deposit == ONE_YOCTO
                    &&& t.token_id@ == token_id@
                    &&& t.staked_at == old(self).stakes(caller@)[i].timestamp
                }
            }),
    {
        let ghost before = *self;
        proof {
            self.ledger.lemma_owner_records(caller@);
        }
        let staked_at = match self.ledger.latest_stake_time(caller, token_id) {
            Some(t) => t,
            None => {
                proof {
                    lemma_match_found(before.stakes(caller@), token_id@);
                }
                return None;
            },
        };
        let amount = self.ledger.consume_claimable(caller, token_id, now);
        proof {
            lemma_match_found(before.stakes(caller@), token_id@);
        }
        Some(
            FtTransfer {
                contract: self.ft_account.duplicate(),
                receiver_id: caller.duplicate(),
                amount,
                memo: Some(String::from_str("claim")),
                deposit: ONE_YOCTO,
                token_id: token_id.clone(),
                staked_at,
            },
        )
    }

    /// Outcome of a reward payout of `amount` to `caller` for the record of
    /// `token_id` staked at `staked_at`: on failure the consumed credit of
    /// that record (the latest of that asset and time) is given back, so it
    /// can be claimed again.
    pub fn on_claim_transfer(
        &mut self,
        caller: &AccountId,
        token_id: &String,
        staked_at: u64,
        amount: u128,
        success: bool,
    )
        requires
            old(self).wf(),
        ensures
            final(self).wf(),
            final(self).nft_account_view() == old(self).nft_account_view(),
            final(self).ft_account_view() == old(self).ft_account_view(),
            forall|o: Seq<char>| final(self).stakes(o) == old(self).stakes(o),
            forall|o: Seq<char>| o != caller@ ==> final(self).credits(o) == old(self).credits(o),
            ({
                let i = latest_record(old(self).stakes(caller@), token_id@, staked_at);
                let c = old(self).credits(caller@);
                final(self).credits(caller@) == if success || i < 0 {
                    c
                } else if c[i] >= amount {
                    c.update(i, (c[i] - amount) as u128)
                } else {
                    c.update(i, 0u128)
                }
            }),
    {
        if !success {
            self.ledger.restore_credit(caller, token_id, staked_at, amount);
        }
    }

    /// A transfer of `amount` of the native balance to `account_id`.
    pub fn transfer_money(&self, account_id: AccountId, amount: u64) -> (r: NativeTransfer)
        ensures
            r.receiver_id@ == account_id@,
            r.amount == amount as u128,
    {
        NativeTransfer { receiver_id: account_id, amount: amount as u128 }
    }
}

} // verus!
