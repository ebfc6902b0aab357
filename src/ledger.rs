use crate::account::AccountId;
use vstd::prelude::*;

verus! {

/// One custody event: an asset placed in the pool by its owner at a time.
#[derive(Clone, Debug)]
pub struct Stake {
    pub timestamp: u64,
    pub staked_id: String,
    pub owner_id: AccountId,
}

/// The mathematical value of a [`Stake`].
pub struct StakeView {
    pub timestamp: u64,
    pub staked_id: Seq<char>,
    pub owner_id: Seq<char>,
}

impl View for Stake {
    type V = StakeView;

    open spec fn view(&self) -> StakeView {
        StakeView { timestamp: self.timestamp, staked_id: self.staked_id@, owner_id: self.owner_id@ }
    }
}

impl Stake {
    /// A copy of this record.
    pub fn duplicate(&self) -> (r: Stake)
        ensures
            r@ == self@,
    {
        Stake {
            timestamp: self.timestamp,
            staked_id: self.staked_id.clone(),
            owner_id: self.owner_id.duplicate(),
        }
    }
}

/// No stake record matched the request.
#[derive(Clone, Copy, Debug, PartialEq, Eq)]
pub struct NotFound;

pub open spec fn stake_views(v: Seq<Stake>) -> Seq<StakeView> {
    v.map_values(|s: Stake| s@)
}

/// Record `i` of `s` is a stake of asset `a`.
pub open spec fn matches_at(s: Seq<StakeView>, a: Seq<char>, i: int) -> bool {
    0 <= i < s.len() && s[i].staked_id == a
}

pub open spec fn has_match(s: Seq<StakeView>, a: Seq<char>) -> bool {
    exists|i: int| matches_at(s, a, i)
}

pub open spec fn is_first_match(s: Seq<StakeView>, a: Seq<char>, i: int) -> bool {
    matches_at(s, a, i) && forall|j: int| 0 <= j < i ==> !matches_at(s, a, j)
}

pub open spec fn is_last_match(s: Seq<StakeView>, a: Seq<char>, i: int) -> bool {
    matches_at(s, a, i) && forall|j: int| i < j < s.len() ==> !matches_at(s, a, j)
}

/// Index of the earliest record of asset `a`, or -1 when there is none.
pub open spec fn first_match(s: Seq<StakeView>, a: Seq<char>) -> int {
    if has_match(s, a) {
        choose|i: int| is_first_match(s, a, i)
    } else {
        -1
    }
}

/// Index of the latest record of asset `a`, or -1 when there is none.
pub open spec fn last_match(s: Seq<StakeView>, a: Seq<char>) -> int {
    if has_match(s, a) {
        choose|i: int| is_last_match(s, a, i)
    } else {
        -1
    }
}

/// Record `i` of `s` is the stake of asset `a` made at time `t`.
pub open spec fn matches_record(s: Seq<StakeView>, a: Seq<char>, t: u64, i: int) -> bool {
    matches_at(s, a, i) && s[i].timestamp == t
}

pub open spec fn is_latest_record(s: Seq<StakeView>, a: Seq<char>, t: u64, i: int) -> bool {
    matches_record(s, a, t, i) && forall|j: int| i < j < s.len() ==> !matches_record(s, a, t, j)
}

/// Index of the latest record of asset `a` made at time `t`, or -1 when there
/// is none: the record that a transfer naming `a` and `t` settles.
pub open spec fn latest_record(s: Seq<StakeView>, a: Seq<char>, t: u64) -> int {
    if exists|i: int| matches_record(s, a, t, i) {
        choose|i: int| is_latest_record(s, a, t, i)
    } else {
        -1
    }
}

/// `s` without the record that `latest_record` selects (unchanged when there
/// is none).
pub open spec fn remove_record(s: Seq<StakeView>, a: Seq<char>, t: u64) -> Seq<StakeView> {
    if latest_record(s, a, t) < 0 {
        s
    } else {
        s.remove(latest_record(s, a, t))
    }
}

/// The credit log `c` without entry `i`, which goes with a removed record
/// (unchanged when `i` is -1).
pub open spec fn remove_credit_at(c: Seq<u128>, i: int) -> Seq<u128> {
    if i < 0 {
        c
    } else {
        c.remove(i)
    }
}

/// Reward accrued by a stake made at `timestamp`, of which `paid` was already
/// consumed, at time `now`: one unit per unit of time held, never negative.
pub open spec fn accrued(timestamp: u64, paid: u128, now: u64) -> int {
    if now >= timestamp && now - timestamp >= paid {
        now - timestamp - paid
    } else {
        0
    }
}

/// Claimable reward for asset `a` among the records `s` with credit log
/// `credits`: what the latest record of `a` has accrued, or 0 without one.
pub open spec fn claimable(s: Seq<StakeView>, credits: Seq<u128>, a: Seq<char>, now: u64) -> int {
    let i = last_match(s, a);
    if i < 0 {
        0
    } else {
        accrued(s[i].timestamp, credits[i], now)
    }
}

pub proof fn lemma_first_match(s: Seq<StakeView>, a: Seq<char>, i: int)
    requires
        is_first_match(s, a, i),
    ensures
        first_match(s, a) == i,
{
    assert(matches_at(s, a, i));
    let k = choose|k: int| is_first_match(s, a, k);
    assert(is_first_match(s, a, k));
    if k < i {
        assert(!matches_at(s, a, k));
    } else if k > i {
        assert(!matches_at(s, a, i));
    }
}

pub proof fn lemma_last_match(s: Seq<StakeView>, a: Seq<char>, i: int)
    requires
        is_last_match(s, a, i),
    ensures
        last_match(s, a) == i,
{
    assert(matches_at(s, a, i));
    let k = choose|k: int| is_last_match(s, a, k);
    assert(is_last_match(s, a, k));
    if k < i {
        assert(!matches_at(s, a, i));
    } else if k > i {
        assert(!matches_at(s, a, k));
    }
}

proof fn lemma_last_exists(s: Seq<StakeView>, a: Seq<char>, i: int)
    requires
        matches_at(s, a, i),
    ensures
        exists|k: int| is_last_match(s, a, k),
    decreases s.len() - i,
{
    if forall|j: int| i < j < s.len() ==> !matches_at(s, a, j) {
        assert(is_last_match(s, a, i));
    } else {
        let j = choose|j: int| i < j < s.len() && matches_at(s, a, j);
        lemma_last_exists(s, a, j);
    }
}

proof fn lemma_first_exists(s: Seq<StakeView>, a: Seq<char>, i: int)
    requires
        matches_at(s, a, i),
    ensures
        exists|k: int| is_first_match(s, a, k),
    decreases i,
{
    if forall|j: int| 0 <= j < i ==> !matches_at(s, a, j) {
        assert(is_first_match(s, a, i));
    } else {
        let j = choose|j: int| 0 <= j < i && matches_at(s, a, j);
        lemma_first_exists(s, a, j);
    }
}

/// The index that `first_match` and `last_match` give is a record of the
/// asset whenever there is one.
pub proof fn lemma_match_found(s: Seq<StakeView>, a: Seq<char>)
    ensures
        has_match(s, a) ==> is_first_match(s, a, first_match(s, a)),
        has_match(s, a) ==> is_last_match(s, a, last_match(s, a)),
        !has_match(s, a) ==> first_match(s, a) == -1 && last_match(s, a) == -1,
{
    if has_match(s, a) {
        let i = choose|i: int| matches_at(s, a, i);
        lemma_first_exists(s, a, i);
        lemma_last_exists(s, a, i);
    }
}

pub proof fn lemma_latest_record(s: Seq<StakeView>, a: Seq<char>, t: u64, i: int)
    requires
        is_latest_record(s, a, t, i),
    ensures
        latest_record(s, a, t) == i,
{
    assert(matches_record(s, a, t, i));
    let k = choose|k: int| is_latest_record(s, a, t, k);
    assert(is_latest_record(s, a, t, k));
    if k < i {
        assert(!matches_record(s, a, t, i));
    } else if k > i {
        assert(!matches_record(s, a, t, k));
    }
}

/// Position of the latest record of `a` made at `t` in `v`.
fn latest_record_index(v: &Vec<Stake>, a: &String, t: u64) -> (r: Option<usize>)
    ensures
        r.is_none() ==> latest_record(stake_views(v@), a@, t) == -1,
        r.is_some() ==> r.unwrap() < v@.len() && r.unwrap() == latest_record(stake_views(v@), a@, t),
{
    let ghost s = stake_views(v@);
    let mut found: Option<usize> = None;
    let mut k: usize = 0;
    while k < v.len()
        invariant
            k <= v@.len(),
            s == stake_views(v@),
            found.is_none() ==> forall|j: int| 0 <= j < k ==> !matches_record(s, a@, t, j),
            found.is_some() ==> found.unwrap() < k && matches_record(s, a@, t, found.unwrap() as int)
                && forall|j: int| found.unwrap() < j < k ==> !matches_record(s, a@, t, j),
        decreases v@.len() - k,
    {
        if v[k].staked_id == *a && v[k].timestamp == t {
            found = Some(k);
        }
        k = k + 1;
    }
    match found {
        Some(f) => {
            proof {
                lemma_latest_record(s, a@, t, f as int);
            }
        },
        None => {},
    }
    found
}

/// Position of the earliest record of `a` in `v`.
fn first_index(v: &Vec<Stake>, a: &String) -> (r: Option<usize>)
    ensures
        r.is_none() ==> first_match(stake_views(v@), a@) == -1,
        r.is_some() ==> r.unwrap() < v@.len() && r.unwrap() == first_match(stake_views(v@), a@),
{
    let ghost s = stake_views(v@);
    let mut k: usize = 0;
    while k < v.len()
        invariant
            k <= v@.len(),
            s == stake_views(v@),
            forall|j: int| 0 <= j < k ==> !matches_at(s, a@, j),
        decreases v@.len() - k,
    {
        if v[k].staked_id == *a {
            proof {
                lemma_first_match(s, a@, k as int);
            }
            return Some(k);
        }
        k = k + 1;
    }
    None
}

/// Position of the latest record of `a` in `v`.
fn last_index(v: &Vec<Stake>, a: &String) -> (r: Option<usize>)
    ensures
        r.is_none() ==> last_match(stake_views(v@), a@) == -1,
        r.is_some() ==> r.unwrap() < v@.len() && r.unwrap() == last_match(stake_views(v@), a@),
{
    let ghost s = stake_views(v@);
    let mut found: Option<usize> = None;
    let mut k: usize = 0;
    while k < v.len()
        invariant
            k <= v@.len(),
            s == stake_views(v@),
            found.is_none() ==> forall|j: int| 0 <= j < k ==> !matches_at(s, a@, j),
            found.is_some() ==> found.unwrap() < k && matches_at(s, a@, found.unwrap() as int)
                && forall|j: int| found.unwrap() < j < k ==> !matches_at(s, a@, j),
        decreases v@.len() - k,
    {
        if v[k].staked_id == *a {
            found = Some(k);
        }
        k = k + 1;
    }
    match found {
        Some(f) => {
            proof {
                lemma_last_match(s, a@, f as int);
            }
        },
        None => {},
    }
    found
}


/// The records and credit log of one owner. Entry `k` of `credits` is the
/// reward already consumed from record `k` of `stakes`.
struct OwnerStakes {
    owner: AccountId,
    stakes: Vec<Stake>,
    credits: Vec<u128>,
}

/// The stake records and reward-credit logs of every owner.
pub struct StakeLedger {
    entries: Vec<OwnerStakes>,
}

impl StakeLedger {
    /// Owners are unique, the credit log is aligned with the records, and
    /// every record is filed under its own owner.
    pub closed spec fn wf(&self) -> bool {
        &&& forall|i: int, j: int|
            0 <= i < self.entries@.len() && 0 <= j < self.entries@.len()
                && #[trigger] self.entries@[i].owner@ == #[trigger] self.entries@[j].owner@ ==> i == j
        &&& forall|i: int|
            0 <= i < self.entries@.len() ==> #[trigger] self.entries@[i].stakes@.len()
                == self.entries@[i].credits@.len()
        &&& forall|i: int, k: int|
            0 <= i < self.entries@.len() && 0 <= k < self.entries@[i].stakes@.len()
                ==> #[trigger] self.entries@[i].stakes@[k].owner_id@ == self.entries@[i].owner@
    }

    closed spec fn holds(&self, o: Seq<char>) -> bool {
        exists|i: int| 0 <= i < self.entries@.len() && #[trigger] self.entries@[i].owner@ == o
    }

    closed spec fn entry_of(&self, o: Seq<char>) -> int {
        choose|i: int| 0 <= i < self.entries@.len() && #[trigger] self.entries@[i].owner@ == o
    }

    /// The records of owner `o`, oldest first.
    pub closed spec fn stakes(&self, o: Seq<char>) -> Seq<StakeView> {
        if self.holds(o) {
            stake_views(self.entries@[self.entry_of(o)].stakes@)
        } else {
            Seq::empty()
        }
    }

    /// The credit log of owner `o`, aligned with `stakes(o)`.
    pub closed spec fn credits(&self, o: Seq<char>) -> Seq<u128> {
        if self.holds(o) {
            self.entries@[self.entry_of(o)].credits@
        } else {
            Seq::empty()
        }
    }

    proof fn lemma_entry(&self, i: int)
        requires
            self.wf(),
            0 <= i < self.entries@.len(),
        ensures
            self.stakes(self.entries@[i].owner@) == stake_views(self.entries@[i].stakes@),
            self.credits(self.entries@[i].owner@) == self.entries@[i].credits@,
            self.entries@[i].stakes@.len() == self.entries@[i].credits@.len(),
    {
        let o = self.entries@[i].owner@;
        assert(self.holds(o));
        let k = self.entry_of(o);
        assert(self.entries@[k].owner@ == self.entries@[i].owner@);
    }

    /// What a well-formed ledger holds of every owner.
    pub proof fn lemma_owner_records(&self, o: Seq<char>)
        requires
            self.wf(),
        ensures
            self.stakes(o).len() == self.credits(o).len(),
            forall|k: int| 0 <= k < self.stakes(o).len() ==> #[trigger] self.stakes(o)[k].owner_id == o,
    {
        if self.holds(o) {
            let i = self.entry_of(o);
            self.lemma_entry(i);
        }
    }

    /// Owner `o` reads the same in `b` as in `a`.
    proof fn lemma_same_owner(a: &Self, b: &Self, o: Seq<char>)
        requires
            a.wf(),
            b.wf(),
            a.entries@.len() <= b.entries@.len(),
            forall|k: int|
                0 <= k < a.entries@.len() && #[trigger] a.entries@[k].owner@ == o ==> b.entries@[k]
                    == a.entries@[k],
            forall|k: int|
                0 <= k < b.entries@.len() && #[trigger] b.entries@[k].owner@ == o ==> k
                    < a.entries@.len() && a.entries@[k].owner@ == o,
        ensures
            b.stakes(o) == a.stakes(o),
            b.credits(o) == a.credits(o),
    {
        if a.holds(o) {
            let k = a.entry_of(o);
            a.lemma_entry(k);
            b.lemma_entry(k);
        } else if b.holds(o) {
            let k = b.entry_of(o);
            assert(a.entries@[k].owner@ == o);
        }
    }

    /// `b` is `a` with the entry at `i` replaced by one of the same owner.
    proof fn lemma_update_entry(a: &Self, b: &Self, i: int)
        requires
            a.wf(),
            0 <= i < a.entries@.len(),
            b.entries@.len() == a.entries@.len(),
            forall|j: int| 0 <= j < a.entries@.len() && j != i ==> b.entries@[j] == a.entries@[j],
            b.entries@[i].owner@ == a.entries@[i].owner@,
            b.entries@[i].stakes@.len() == b.entries@[i].credits@.len(),
            forall|k: int|
                0 <= k < b.entries@[i].stakes@.len() ==> #[trigger] b.entries@[i].stakes@[k].owner_id@
                    == b.entries@[i].owner@,
        ensures
            b.wf(),
            b.stakes(a.entries@[i].owner@) == stake_views(b.entries@[i].stakes@),
            b.credits(a.entries@[i].owner@) == b.entries@[i].credits@,
            forall|o: Seq<char>|
                o != a.entries@[i].owner@ ==> b.stakes(o) == a.stakes(o) && b.credits(o) == a.credits(
                    o,
                ),
    {
        assert(b.wf()) by {
            assert forall|j: int| 0 <= j < b.entries@.len()
                implies #[trigger] b.entries@[j].stakes@.len() == b.entries@[j].credits@.len() by {
                if j != i {
                    assert(b.entries@[j] == a.entries@[j]);
                    assert(a.entries@[j].stakes@.len() == a.entries@[j].credits@.len());
                }
            }
            assert forall|j: int, k: int|
                0 <= j < b.entries@.len() && 0 <= k < b.entries@[j].stakes@.len()
                implies #[trigger] b.entries@[j].stakes@[k].owner_id@ == b.entries@[j].owner@ by {
                if j != i {
                    assert(b.entries@[j] == a.entries@[j]);
                    assert(a.entries@[j].stakes@[k].owner_id@ == a.entries@[j].owner@);
                } else {
                    assert(b.entries@[i].stakes@[k].owner_id@ == b.entries@[i].owner@);
                }
            }
            assert forall|j: int, k: int|
                0 <= j < b.entries@.len() && 0 <= k < b.entries@.len() && #[trigger] b.entries@[j].owner@
                    == #[trigger] b.entries@[k].owner@ implies j == k by {
                assert(b.entries@[j].owner@ == a.entries@[j].owner@);
                assert(b.entries@[k].owner@ == a.entries@[k].owner@);
            }
        }
        b.lemma_entry(i);
        assert forall|o: Seq<char>| o != a.entries@[i].owner@ implies b.stakes(o) == a.stakes(o)
            && b.credits(o) == a.credits(o) by {
            Self::lemma_same_owner(a, b, o);
        }
    }

    /// An empty ledger.
    pub fn new() -> (r: StakeLedger)
        ensures
            r.wf(),
            forall|o: Seq<char>| r.stakes(o) == Seq::<StakeView>::empty(),
            forall|o: Seq<char>| r.credits(o) == Seq::<u128>::empty(),
    {
        StakeLedger { entries: Vec::new() }
    }

    /// Position of the entry of `owner`.
    fn find_owner(&self, owner: &AccountId) -> (r: Option<usize>)
        ensures
            r.is_none() ==> !self.holds(owner@),
            r.is_some() ==> r.unwrap() < self.entries@.len() && self.entries@[r.unwrap() as int].owner@
                == owner@,
    {
        let mut k: usize = 0;
        while k < self.entries.len()
            invariant
                k <= self.entries@.len(),
                forall|j: int| 0 <= j < k ==> #[trigger] self.entries@[j].owner@ != owner@,
            decreases self.entries@.len() - k,
        {
            if self.entries[k].owner.same(owner) {
                return Some(k);
            }
            k = k + 1;
        }
        None
    }

    /// Appends a record of `asset_id` staked by `owner` at `timestamp`, with a
    /// zero entry in the owner's credit log.
    pub fn record_stake(&mut self, owner: &AccountId, asset_id: String, timestamp: u64)
        requires
            old(self).wf(),
        ensures
            final(self).wf(),
            final(self).stakes(owner@) == old(self).stakes(owner@).push(
                StakeView { timestamp, staked_id: asset_id@, owner_id: owner@ },
            ),
            final(self).credits(owner@) == old(self).credits(owner@).push(0u128),
            forall|o: Seq<char>|
                o != owner@ ==> final(self).stakes(o) == old(self).stakes(o) && final(self).credits(o)
                    == old(self).credits(o),
    {
        let ghost before = *self;
        let rec = Stake { timestamp, staked_id: asset_id, owner_id: owner.duplicate() };
        let ghost rs = rec;
        let ghost rv = rec@;
        match self.find_owner(owner) {
            Some(i) => {
                proof {
                    before.lemma_entry(i as int);
                }
                self.entries[i].stakes.push(rec);
                self.entries[i].credits.push(0);
                proof {
                    let e = before.entries@[i as int];
                    assert(self.entries@[i as int].stakes@ == e.stakes@.push(rs));
                    assert forall|k: int| 0 <= k < self.entries@[i as int].stakes@.len()
                        implies #[trigger] self.entries@[i as int].stakes@[k].owner_id@
                        == self.entries@[i as int].owner@ by {
                        if k < e.stakes@.len() {
                            assert(self.entries@[i as int].stakes@[k] == e.stakes@[k]);
                            assert(e.stakes@[k].owner_id@ == e.owner@);
                        }
                    }
                    Self::lemma_update_entry(&before, self, i as int);
                    assert(stake_views(self.entries@[i as int].stakes@) =~= stake_views(e.stakes@).push(rv));
                }
            },
            None => {
                let mut stakes: Vec<Stake> = Vec::new();
                stakes.push(rec);
                let mut credits: Vec<u128> = Vec::new();
                credits.push(0);
                self.entries.push(OwnerStakes { owner: owner.duplicate(), stakes, credits });
                proof {
                    let n = before.entries@.len() as int;
                    assert forall|j: int, k: int|
                        0 <= j < self.entries@.len() && 0 <= k < self.entries@.len()
                            && #[trigger] self.entries@[j].owner@ == #[trigger] self.entries@[k].owner@
                        implies j == k by {
                        if j < n && k == n {
                            assert(before.entries@[j].owner@ == owner@);
                        }
                        if k < n && j == n {
                            assert(before.entries@[k].owner@ == owner@);
                        }
                        if j < n && k < n {
                            assert(before.entries@[j].owner@ == before.entries@[k].owner@);
                        }
                    }
                    assert forall|j: int| 0 <= j < self.entries@.len()
                        implies #[trigger] self.entries@[j].stakes@.len() == self.entries@[j].credits@.len() by {
                        if j < n {
                            assert(self.entries@[j] == before.entries@[j]);
                            assert(before.entries@[j].stakes@.len() == before.entries@[j].credits@.len());
                        }
                    }
                    assert forall|j: int, k: int|
                        0 <= j < self.entries@.len() && 0 <= k < self.entries@[j].stakes@.len()
                        implies #[trigger] self.entries@[j].stakes@[k].owner_id@
                        == self.entries@[j].owner@ by {
                        if j < n {
                            assert(self.entries@[j] == before.entries@[j]);
                            assert(before.entries@[j].stakes@[k].owner_id@ == before.entries@[j].owner@);
                        }
                    }
                    assert(self.wf());
                    self.lemma_entry(n);
                    assert(stake_views(self.entries@[n].stakes@) =~= seq![rv]);
                    assert(self.entries@[n].credits@ =~= seq![0u128]);
                    assert(before.stakes(owner@) =~= Seq::<StakeView>::empty());
                    assert(before.credits(owner@) =~= Seq::<u128>::empty());
                    assert forall|o: Seq<char>| o != owner@ implies self.stakes(o) == before.stakes(o)
                        && self.credits(o) == before.credits(o) by {
                        Self::lemma_same_owner(&before, self, o);
                    }
                }
            },
        }
    }

    /// The records of `owner`, oldest first; empty for an owner who never staked.
    pub fn stakes_of(&self, owner: &AccountId) -> (r: Vec<Stake>)
        requires
            self.wf(),
        ensures
            stake_views(r@) == self.stakes(owner@),
    {
        let mut r: Vec<Stake> = Vec::new();
        match self.find_owner(owner) {
            Some(i) => {
                proof {
                    self.lemma_entry(i as int);
                }
                let src = &self.entries[i].stakes;
                let mut k: usize = 0;
                while k < src.len()
                    invariant
                        k <= src@.len(),
                        r@.len() == k,
                        forall|j: int| 0 <= j < k ==> #[trigger] r@[j]@ == src@[j]@,
                    decreases src@.len() - k,
                {
                    r.push(src[k].duplicate());
                    k = k + 1;
                }
                proof {
                    assert(stake_views(r@) =~= stake_views(src@));
                }
            },
            None => {
                proof {
                    assert(stake_views(r@) =~= Seq::<StakeView>::empty());
                }
            },
        }
        r
    }
}

impl StakeLedger {
    /// Removes record `k` of entry `i`, with its credit-log entry.
    fn remove_at(&mut self, i: usize, k: usize) -> (r: Stake)
        requires
            old(self).wf(),
            i < old(self).entries@.len(),
            k < old(self).entries@[i as int].stakes@.len(),
        ensures
            final(self).wf(),
            ({
                let o = old(self).entries@[i as int].owner@;
                &&& r@ == old(self).stakes(o)[k as int]
                &&& final(self).stakes(o) == old(self).stakes(o).remove(k as int)
                &&& final(self).credits(o) == old(self).credits(o).remove(k as int)
                &&& forall|p: Seq<char>|
                    p != o ==> final(self).stakes(p) == old(self).stakes(p) && final(self).credits(p)
                        == old(self).credits(p)
            }),
    {
        let ghost before = *self;
        proof {
            before.lemma_entry(i as int);
        }
        let removed = self.entries[i].stakes.remove(k);
        self.entries[i].credits.remove(k);
        proof {
            let e = before.entries@[i as int];
            assert(self.entries@[i as int].stakes@ == e.stakes@.remove(k as int));
            assert forall|m: int| 0 <= m < self.entries@[i as int].stakes@.len()
                implies #[trigger] self.entries@[i as int].stakes@[m].owner_id@
                == self.entries@[i as int].owner@ by {
                if m < k {
                    assert(self.entries@[i as int].stakes@[m] == e.stakes@[m]);
                } else {
                    assert(self.entries@[i as int].stakes@[m] == e.stakes@[m + 1]);
                }
            }
            Self::lemma_update_entry(&before, self, i as int);
            assert(stake_views(self.entries@[i as int].stakes@) =~= stake_views(e.stakes@).remove(
                k as int,
            ));
        }
        removed
    }

    /// Removes the earliest record of `asset_id` held for `owner`, with its
    /// credit-log entry, and returns it; `NotFound` when there is none.
    pub fn remove_stake(&mut self, owner: &AccountId, asset_id: &String) -> (r: Result<Stake, NotFound>)
        requires
            old(self).wf(),
        ensures
            final(self).wf(),
            r.is_err() == (first_match(old(self).stakes(owner@), asset_id@) < 0),
            r.is_err() ==> final(self).stakes(owner@) == old(self).stakes(owner@) && final(self).credits(
                owner@,
            ) == old(self).credits(owner@),
            r.is_ok() ==> ({
                let i = first_match(old(self).stakes(owner@), asset_id@);
                &&& r.unwrap()@ == old(self).stakes(owner@)[i]
                &&& final(self).stakes(owner@) == old(self).stakes(owner@).remove(i)
                &&& final(self).credits(owner@) == old(self).credits(owner@).remove(i)
            }),
            forall|o: Seq<char>|
                o != owner@ ==> final(self).stakes(o) == old(self).stakes(o) && final(self).credits(o)
                    == old(self).credits(o),
    {
        let i = match self.find_owner(owner) {
            Some(i) => i,
            None => {
                return Err(NotFound);
            },
        };
        proof {
            self.lemma_entry(i as int);
        }
        let k = match first_index(&self.entries[i].stakes, asset_id) {
            Some(k) => k,
            None => {
                return Err(NotFound);
            },
        };
        Ok(self.remove_at(i, k))
    }

    /// Removes the latest record of `asset_id` staked at `timestamp` by
    /// `owner`, with its credit-log entry, and returns it; `NotFound` when
    /// there is none.
    pub fn remove_record(&mut self, owner: &AccountId, asset_id: &String, timestamp: u64) -> (r: Result<Stake, NotFound>)
        requires
            old(self).wf(),
        ensures
            final(self).wf(),
            ({
                let i = latest_record(old(self).stakes(owner@), asset_id@, timestamp);
                &&& r.is_err() == (i < 0)
                &&& r.is_ok() ==> r.unwrap()@ == old(self).stakes(owner@)[i]
                &&& final(self).stakes(owner@) == remove_record(old(self).stakes(owner@), asset_id@, timestamp)
                &&& final(self).credits(owner@) == remove_credit_at(old(self).credits(owner@), i)
            }),
            forall|o: Seq<char>|
                o != owner@ ==> final(self).stakes(o) == old(self).stakes(o) && final(self).credits(o)
                    == old(self).credits(o),
    {
        let i = match self.find_owner(owner) {
            Some(i) => i,
            None => {
                proof {
                    assert(!(exists|j: int| matches_record(self.stakes(owner@), asset_id@, timestamp, j)));
                }
                return Err(NotFound);
            },
        };
        proof {
            self.lemma_entry(i as int);
        }
        let k = match latest_record_index(&self.entries[i].stakes, asset_id, timestamp) {
            Some(k) => k,
            None => {
                return Err(NotFound);
            },
        };
        Ok(self.remove_at(i, k))
    }

    /// Time of the latest record of `asset_id` held for `owner`.
    pub fn latest_stake_time(&self, owner: &AccountId, asset_id: &String) -> (r: Option<u64>)
        requires
            self.wf(),
        ensures
            r.is_some() == (last_match(self.stakes(owner@), asset_id@) >= 0),
            r.is_some() ==> r.unwrap() == self.stakes(owner@)[last_match(self.stakes(owner@), asset_id@)].timestamp,
    {
        match self.find_owner(owner) {
            Some(i) => {
                proof {
                    self.lemma_entry(i as int);
                }
                match last_index(&self.entries[i].stakes, asset_id) {
                    Some(k) => Some(self.entries[i].stakes[k].timestamp),
                    None => None,
                }
            },
            None => None,
        }
    }

    /// Reward that `owner` can claim for `asset_id` at time `now`; 0 when the
    /// owner holds no record of it.
    pub fn claimable_amount(&self, owner: &AccountId, asset_id: &String, now: u64) -> (r: u128)
        requires
            self.wf(),
        ensures
            r == claimable(self.stakes(owner@), self.credits(owner@), asset_id@, now),
    {
        match self.find_owner(owner) {
            Some(i) => {
                proof {
                    self.lemma_entry(i as int);
                }
                match last_index(&self.entries[i].stakes, asset_id) {
                    Some(k) => {
                        let ts = self.entries[i].stakes[k].timestamp;
                        let paid = self.entries[i].credits[k];
                        if now >= ts && ((now - ts) as u128) >= paid {
                            (now - ts) as u128 - paid
                        } else {
                            0
                        }
                    },
                    None => 0,
                }
            },
            None => 0,
        }
    }

    /// Marks what `owner` can claim for `asset_id` at `now` as consumed in the
    /// credit log of the latest record of that asset, and returns it.
    pub fn consume_claimable(&mut self, owner: &AccountId, asset_id: &String, now: u64) -> (r: u128)
        requires
            old(self).wf(),
        ensures
            final(self).wf(),
            r == claimable(old(self).stakes(owner@), old(self).credits(owner@), asset_id@, now),
            final(self).stakes(owner@) == old(self).stakes(owner@),
            ({
                let i = last_match(old(self).stakes(owner@), asset_id@);
                final(self).credits(owner@) == if i < 0 {
                    old(self).credits(owner@)
                } else {
                    old(self).credits(owner@).update(i, (old(self).credits(owner@)[i] + r) as u128)
                }
            }),
            forall|o: Seq<char>|
                o != owner@ ==> final(self).stakes(o) == old(self).stakes(o) && final(self).credits(o)
                    == old(self).credits(o),
    {
        let amount = self.claimable_amount(owner, asset_id, now);
        let ghost before = *self;
        let i = match self.find_owner(owner) {
            Some(i) => i,
            None => {
                return amount;
            },
        };
        proof {
            before.lemma_entry(i as int);
        }
        let k = match last_index(&self.entries[i].stakes, asset_id) {
            Some(k) => k,
            None => {
                return amount;
            },
        };
        let paid = self.entries[i].credits[k];
        let ts = self.entries[i].stakes[k].timestamp;
        let total: u128 = if amount > 0 {
            (now - ts) as u128
        } else {
            paid
        };
        self.entries[i].credits.set(k, total);
        proof {
            Self::lemma_update_entry(&before, self, i as int);
        }
        amount
    }

    /// Gives back up to `amount` of the consumed credit of the latest record
    /// of `asset_id` staked at `timestamp` by `owner`, as when a payout of it
    /// failed.
    pub fn restore_credit(&mut self, owner: &AccountId, asset_id: &String, timestamp: u64, amount: u128)
        requires
            old(self).wf(),
        ensures
            final(self).wf(),
            final(self).stakes(owner@) == old(self).stakes(owner@),
            ({
                let i = latest_record(old(self).stakes(owner@), asset_id@, timestamp);
                let c = old(self).credits(owner@);
                final(self).credits(owner@) == if i < 0 {
                    c
                } else if c[i] >= amount {
                    c.update(i, (c[i] - amount) as u128)
                } else {
                    c.update(i, 0u128)
                }
            }),
            forall|o: Seq<char>|
                o != owner@ ==> final(self).stakes(o) == old(self).stakes(o) && final(self).credits(o)
                    == old(self).credits(o),
    {
        let ghost before = *self;
        let i = match self.find_owner(owner) {
            Some(i) => i,
            None => {
                return;
            },
        };
        proof {
            before.lemma_entry(i as int);
        }
        let k = match latest_record_index(&self.entries[i].stakes, asset_id, timestamp) {
            Some(k) => k,
            None => {
                return;
            },
        };
        let paid = self.entries[i].credits[k];
        let rest: u128 = if paid >= amount {
            paid - amount
        } else {
            0
        };
        self.entries[i].credits.set(k, rest);
        proof {
            Self::lemma_update_entry(&before, self, i as int);
        }
    }
}

} // verus!
