//! Data held by the lottery: configuration, aggregate state, per-account records,
//! the messages it accepts and the outcomes it reports.
use vstd::prelude::*;

verus! {

/// Holding period, in days, before a staked unit may be withdrawn.
pub const MIN_STAKING_DAYS: u64 = 7;

/// Seconds in one day.
pub const SECONDS_IN_DAY: u64 = 86400;

/// Nanoseconds in one second.
pub const NANOS_PER_SECOND: u64 = 1_000_000_000;

/// The holding period in nanoseconds (`MIN_STAKING_DAYS * SECONDS_IN_DAY * NANOS_PER_SECOND`).
pub const MIN_STAKING_NANOS: u64 = 604_800_000_000_000;

/// A point in block time, in nanoseconds since the epoch.
#[derive(Clone, Copy, Debug, PartialEq, Eq, Structural)]
pub struct Timestamp {
    pub nanos: u64,
}

impl Timestamp {
    pub fn from_nanos(nanos: u64) -> (r: Timestamp)
        ensures
            r.nanos == nanos,
    {
        Timestamp { nanos }
    }

    pub fn from_seconds(seconds: u64) -> (r: Timestamp)
        requires
            seconds * NANOS_PER_SECOND <= u64::MAX,
        ensures
            r.nanos == seconds * NANOS_PER_SECOND,
    {
        Timestamp { nanos: seconds * NANOS_PER_SECOND }
    }
}

/// One account's staking record.
#[derive(Clone, Copy, Debug, PartialEq, Eq, Structural)]
pub struct Staker {
    /// When the record was created; later stakes do not move it.
    pub staked_at: Timestamp,
    /// Number of units currently staked.
    pub nft_count: u64,
}

/// Aggregate state of the lottery.
#[derive(Clone, Debug)]
pub struct State {
    /// Sum of `nft_count` over all records.
    pub total_staked: u64,
    /// Reward balance available to the latest winner.
    pub current_pot: u128,
    /// Account chosen by the most recent draw.
    pub last_winner: Option<String>,
    /// Accounts holding a record, in ascending order.
    pub stakers: Vec<String>,
}

/// Parameters fixed at creation.
#[derive(Clone, Debug)]
pub struct Config {
    pub admin: String,
    pub nft_contract: String,
    pub reward_token: String,
}

/// Creation request; its identities are validated by the host beforehand.
#[derive(Clone, Debug)]
pub struct InstantiateMsg {
    pub admin: String,
    pub nft_contract: String,
    pub reward_token: String,
}

#[derive(Clone, Debug)]
pub enum ExecuteMsg {
    Stake {},
    Unstake {},
    DrawWinner {},
    ClaimReward {},
    FundPot {},
}

#[derive(Clone, Debug)]
pub enum QueryMsg {
    GetEligibleStakers {},
    GetState {},
    GetStaker { address: String },
}

/// Why an operation was rejected.
#[derive(Clone, Copy, Debug, PartialEq, Eq, Structural)]
pub enum ContractError {
    Unauthorized,
    NotStaked,
    MinimumPeriodNotMet,
    NoStakersToDraw,
    NoWinnerToClaim,
    NotWinner,
}

/// What a successful draw reports.
#[derive(Clone, Debug)]
pub struct DrawOutcome {
    pub winner: String,
    /// The pot as it stood just before the draw reset it.
    pub prize: u128,
}

/// Instruction to the reward token contract to pay `amount` to `recipient`.
#[derive(Clone, Debug)]
pub struct Payment {
    pub token_contract: String,
    pub recipient: String,
    pub amount: u128,
}

/// Answer to a `QueryMsg`.
#[derive(Clone, Debug)]
pub enum QueryResponse {
    EligibleStakers(Vec<(String, Staker)>),
    State(State),
    Staker(Option<Staker>),
}

/// Whether a record created at `staked_at` has been held for the full period at `now`.
pub open spec fn period_met(staked_at: Timestamp, now: Timestamp) -> bool {
    staked_at.nanos + MIN_STAKING_NANOS <= now.nanos
}

/// Total of the staked counts in `s`.
pub open spec fn sum_counts(s: Seq<Staker>) -> int
    decreases s.len(),
{
    if s.len() == 0 {
        0
    } else {
        sum_counts(s.drop_last()) + s.last().nft_count
    }
}

pub proof fn lemma_sum_nonneg(s: Seq<Staker>)
    ensures
        sum_counts(s) >= 0,
    decreases s.len(),
{
    if s.len() > 0 {
        lemma_sum_nonneg(s.drop_last());
    }
}

pub proof fn lemma_sum_concat(a: Seq<Staker>, b: Seq<Staker>)
    ensures
        sum_counts(a + b) == sum_counts(a) + sum_counts(b),
    decreases b.len(),
{
    if b.len() == 0 {
        assert(a + b =~= a);
    } else {
        lemma_sum_concat(a, b.drop_last());
        assert((a + b).drop_last() =~= a + b.drop_last());
    }
}

proof fn lemma_sum_single(x: Staker)
    ensures
        sum_counts(seq![x]) == x.nft_count,
{
    assert(seq![x].drop_last() =~= Seq::<Staker>::empty());
    reveal_with_fuel(sum_counts, 2);
}

pub proof fn lemma_sum_update(s: Seq<Staker>, i: int, x: Staker)
    requires
        0 <= i < s.len(),
    ensures
        sum_counts(s.update(i, x)) == sum_counts(s) - s[i].nft_count + x.nft_count,
{
    let pre = s.subrange(0, i);
    let post = s.subrange(i + 1, s.len() as int);
    assert(s.update(i, x) =~= pre + seq![x] + post);
    assert(s =~= pre + seq![s[i]] + post);
    lemma_sum_concat(pre + seq![x], post);
    lemma_sum_concat(pre, seq![x]);
    lemma_sum_concat(pre + seq![s[i]], post);
    lemma_sum_concat(pre, seq![s[i]]);
    lemma_sum_single(x);
    lemma_sum_single(s[i]);
}

pub proof fn lemma_sum_insert(s: Seq<Staker>, i: int, x: Staker)
    requires
        0 <= i <= s.len(),
    ensures
        sum_counts(s.insert(i, x)) == sum_counts(s) + x.nft_count,
{
    let pre = s.subrange(0, i);
    let post = s.subrange(i, s.len() as int);
    assert(s.insert(i, x) =~= pre + seq![x] + post);
    assert(s =~= pre + post);
    lemma_sum_concat(pre + seq![x], post);
    lemma_sum_concat(pre, seq![x]);
    lemma_sum_concat(pre, post);
    lemma_sum_single(x);
}

pub proof fn lemma_sum_remove(s: Seq<Staker>, i: int)
    requires
        0 <= i < s.len(),
    ensures
        sum_counts(s.remove(i)) == sum_counts(s) - s[i].nft_count,
{
    let pre = s.subrange(0, i);
    let post = s.subrange(i + 1, s.len() as int);
    assert(s.remove(i) =~= pre + post);
    assert(s =~= pre + seq![s[i]] + post);
    lemma_sum_concat(pre + seq![s[i]], post);
    lemma_sum_concat(pre, seq![s[i]]);
    lemma_sum_concat(pre, post);
    lemma_sum_single(s[i]);
}

pub proof fn lemma_count_le_sum(s: Seq<Staker>, i: int)
    requires
        0 <= i < s.len(),
    ensures
        s[i].nft_count <= sum_counts(s),
{
    let zero = Staker { staked_at: s[i].staked_at, nft_count: 0 };
    lemma_sum_update(s, i, zero);
    lemma_sum_nonneg(s.update(i, zero));
}

} // verus!
