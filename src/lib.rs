//! A staking ledger that keeps non-fungible assets in custody for their
//! owners and pays a fungible reward for the time they were held.
//!
//! The ledger itself is pure state. Transfers of assets and of rewards are
//! returned as actions for the host to perform; their outcomes come back
//! through the `on_*_transfer` continuations of [`CrossContract`].
mod account;
mod contract;
mod laws;
mod ledger;

pub use account::{account_id_valid, is_account_char, is_separator, AccountId};
pub use contract::{
    is_nft_transfer, is_return_transfer, CrossContract, FtTransfer, NativeTransfer, NftTransfer,
    APPROVAL_ID, ONE_YOCTO, STAKE_GAS,
};
pub use laws::{
    lemma_claimable_after_stake, lemma_failed_stake_rolls_back, lemma_nothing_claimable_without_record,
    lemma_owner_without_stakes, lemma_return_settles_own_record, lemma_stake_recorded,
    lemma_unstake_clears, record_keys, remove_each,
};
pub use ledger::{
    accrued, claimable, first_match, has_match, is_first_match, is_last_match, last_match,
    is_latest_record, latest_record, lemma_first_match, lemma_last_match, lemma_latest_record,
    lemma_match_found, matches_at, matches_record, remove_credit_at, remove_record,
    stake_views,
    NotFound, Stake, StakeLedger, StakeView,
};
