//! The lottery's state and the operations that move it.
use vstd::prelude::*;
use crate::account::{
    find_account, lemma_lex_irreflexive, lemma_lex_transitive, lex_lt, sorted_accounts,
};
use crate::draw::{draw_index, draw_position};
use crate::state::{
    lemma_count_le_sum, lemma_sum_insert, lemma_sum_remove, lemma_sum_update, period_met,
    sum_counts, Config, ContractError, DrawOutcome, InstantiateMsg, Payment, QueryMsg, QueryResponse,
    Staker, State, Timestamp, MIN_STAKING_NANOS,
};

verus! {

/// Everything the lottery persists: its configuration, its aggregate state, and
/// one record per staking account, where `records[i]` belongs to `state.stakers[i]`.
pub struct Contract {
    pub config: Config,
    pub state: State,
    pub records: Vec<Staker>,
}

impl Contract {
    /// Accounts sorted and unique, one positive record each, and the total equal
    /// to the sum of the records' counts.
    pub open spec fn wf(&self) -> bool {
        &&& sorted_accounts(self.state.stakers@)
        &&& self.records@.len() == self.state.stakers@.len()
        &&& forall|i: int| 0 <= i < self.records@.len() ==> #[trigger] self.records@[i].nft_count > 0
        &&& self.state.total_staked == sum_counts(self.records@)
    }

    /// Whether `a` holds a record.
    pub open spec fn is_staked(&self, a: Seq<char>) -> bool {
        exists|i: int| 0 <= i < self.state.stakers@.len() && #[trigger] self.state.stakers@[i]@ == a
    }

    /// Where `a` stands among the staked accounts, if it is one of them.
    pub open spec fn position(&self, a: Seq<char>) -> int {
        choose|i: int| 0 <= i < self.state.stakers@.len() && #[trigger] self.state.stakers@[i]@ == a
    }

    /// The record of `a`, if it has one.
    pub open spec fn record(&self, a: Seq<char>) -> Option<Staker> {
        if self.is_staked(a) {
            Some(self.records@[self.position(a)])
        } else {
            None
        }
    }

    /// The set of staked accounts.
    pub open spec fn staker_set(&self) -> Set<Seq<char>> {
        Set::new(|a: Seq<char>| self.is_staked(a))
    }

    /// What `execute_stake` leaves as the record of the staking account.
    pub open spec fn staked_record(&self, a: Seq<char>, now: Timestamp) -> Staker {
        match self.record(a) {
            Some(r) => Staker { staked_at: r.staked_at, nft_count: (r.nft_count + 1) as u64 },
            None => Staker { staked_at: now, nft_count: 1 },
        }
    }

    /// What `execute_unstake` leaves as the record of an account whose record was `rec`.
    pub open spec fn unstaked_record(rec: Staker) -> Option<Staker> {
        if rec.nft_count > 1 {
            Some(Staker { staked_at: rec.staked_at, nft_count: (rec.nft_count - 1) as u64 })
        } else {
            None
        }
    }

    /// Everything but the records and the total is as in `other`.
    pub open spec fn same_lottery(&self, other: &Contract) -> bool {
        &&& self.config == other.config
        &&& self.state.current_pot == other.state.current_pot
        &&& self.state.last_winner == other.state.last_winner
    }
}

/// The account a draw with `seed` picks from the ordered account list `stakers`.
pub open spec fn drawn_account(stakers: Seq<String>, seed: Seq<u8>) -> String {
    stakers[draw_position(seed, stakers.len()) as int]
}

/// The (account, record) pairs among the first `n` entries whose holding period
/// has passed at `now`, in the order of the entries.
pub open spec fn eligible_upto(stakers: Seq<String>, records: Seq<Staker>, now: Timestamp, n: nat) -> Seq<(String, Staker)>
    decreases n,
{
    if n == 0 {
        Seq::empty()
    } else {
        let prev = eligible_upto(stakers, records, now, (n - 1) as nat);
        if period_met(records[n - 1].staked_at, now) {
            prev.push((stakers[n - 1], records[n - 1]))
        } else {
            prev
        }
    }
}

/// `s` is a copy of `t`.
pub open spec fn same_state(s: State, t: State) -> bool {
    &&& s.total_staked == t.total_staked
    &&& s.current_pot == t.current_pot
    &&& s.last_winner == t.last_winner
    &&& s.stakers@ == t.stakers@
}

pub proof fn lemma_record_at(c: &Contract, i: int)
    requires
        c.wf(),
        0 <= i < c.state.stakers@.len(),
    ensures
        c.is_staked(c.state.stakers@[i]@),
        c.record(c.state.stakers@[i]@) == Some(c.records@[i]),
{
    let a = c.state.stakers@[i]@;
    assert(c.is_staked(a));
    let j = c.position(a);
    if j != i {
        lemma_lex_irreflexive(a);
        if j < i {
            assert(lex_lt(c.state.stakers@[j]@, c.state.stakers@[i]@));
        } else {
            assert(lex_lt(c.state.stakers@[i]@, c.state.stakers@[j]@));
        }
    }
}

proof fn lemma_distinct(c: &Contract, i: int, j: int)
    requires
        c.wf(),
        0 <= i < c.state.stakers@.len(),
        0 <= j < c.state.stakers@.len(),
        i != j,
    ensures
        c.state.stakers@[i]@ != c.state.stakers@[j]@,
{
    lemma_lex_irreflexive(c.state.stakers@[i]@);
    if i < j {
        assert(lex_lt(c.state.stakers@[i]@, c.state.stakers@[j]@));
    } else {
        assert(lex_lt(c.state.stakers@[j]@, c.state.stakers@[i]@));
    }
}

proof fn lemma_sorted_insert(s: Seq<String>, i: int, x: String)
    requires
        sorted_accounts(s),
        0 <= i <= s.len(),
        forall|j: int| 0 <= j < i ==> lex_lt(#[trigger] s[j]@, x@),
        forall|j: int| i <= j < s.len() ==> lex_lt(x@, #[trigger] s[j]@),
    ensures
        sorted_accounts(s.insert(i, x)),
{
    let t = s.insert(i, x);
    assert forall|p: int, q: int| 0 <= p < q < t.len() implies lex_lt(#[trigger] t[p]@, #[trigger] t[q]@) by {
        if q < i {
            assert(lex_lt(s[p]@, s[q]@));
        } else if q == i {
            assert(lex_lt(s[p]@, x@));
        } else if p < i {
            lemma_lex_transitive(s[p]@, x@, s[q - 1]@);
        } else if p == i {
            assert(lex_lt(x@, s[q - 1]@));
        } else {
            assert(lex_lt(s[p - 1]@, s[q - 1]@));
        }
    }
}

proof fn lemma_sorted_remove(s: Seq<String>, i: int)
    requires
        sorted_accounts(s),
        0 <= i < s.len(),
    ensures
        sorted_accounts(s.remove(i)),
{
    let t = s.remove(i);
    assert forall|p: int, q: int| 0 <= p < q < t.len() implies lex_lt(#[trigger] t[p]@, #[trigger] t[q]@) by {
        let p0 = if p < i { p } else { p + 1 };
        let q0 = if q < i { q } else { q + 1 };
        assert(lex_lt(s[p0]@, s[q0]@));
    }
}

/// Creates the lottery with no stakers, an empty pot and no winner.
pub fn instantiate(msg: InstantiateMsg) -> (r: Contract)
    ensures
        r.wf(),
        r.config.admin == msg.admin,
        r.config.nft_contract == msg.nft_contract,
        r.config.reward_token == msg.reward_token,
        r.state.total_staked == 0,
        r.state.current_pot == 0,
        r.state.last_winner.is_none(),
        r.state.stakers@.len() == 0,
        r.staker_set() == Set::<Seq<char>>::empty(),
{
    let r = Contract {
        config: Config { admin: msg.admin, nft_contract: msg.nft_contract, reward_token: msg.reward_token },
        state: State { total_staked: 0, current_pot: 0, last_winner: None, stakers: Vec::new() },
        records: Vec::new(),
    };
    assert(r.records@ =~= Seq::<Staker>::empty());
    assert(r.staker_set() =~= Set::<Seq<char>>::empty());
    r
}

/// Stakes one unit for `sender` at time `now`.
pub fn execute_stake(contract: &mut Contract, sender: &String, now: Timestamp)
    requires
        old(contract).wf(),
        old(contract).state.total_staked < u64::MAX,
    ensures
        final(contract).wf(),
        final(contract).same_lottery(old(contract)),
        final(contract).state.total_staked == old(contract).state.total_staked + 1,
        final(contract).record(sender@) == Some(old(contract).staked_record(sender@, now)),
        forall|b: Seq<char>| b != sender@ ==> #[trigger] final(contract).record(b) == old(contract).record(b),
        final(contract).staker_set() == old(contract).staker_set().insert(sender@),
{
    let ghost pre = *contract;
    match find_account(&contract.state.stakers, sender) {
        Ok(i) => {
            let cur = contract.records[i];
            proof {
                lemma_record_at(&pre, i as int);
                lemma_count_le_sum(pre.records@, i as int);
                lemma_sum_update(pre.records@, i as int, Staker { staked_at: cur.staked_at, nft_count: (cur.nft_count + 1) as u64 });
            }
            contract.records.set(i, Staker { staked_at: cur.staked_at, nft_count: cur.nft_count + 1 });
            contract.state.total_staked = contract.state.total_staked + 1;
            proof {
                lemma_record_at(contract, i as int);
                assert forall|b: Seq<char>| b != sender@ implies #[trigger] contract.record(b) == pre.record(b) by {
                    if pre.is_staked(b) {
                        let j = choose|j: int| 0 <= j < pre.state.stakers@.len() && #[trigger] pre.state.stakers@[j]@ == b;
                        lemma_record_at(&pre, j);
                        lemma_record_at(contract, j);
                    }
                }
                assert(contract.staker_set() =~= pre.staker_set().insert(sender@));
            }
        },
        Err(i) => {
            let rec = Staker { staked_at: now, nft_count: 1 };
            proof {
                lemma_sorted_insert(pre.state.stakers@, i as int, *sender);
                lemma_sum_insert(pre.records@, i as int, rec);
                assert forall|j: int| 0 <= j < pre.state.stakers@.len() implies #[trigger] pre.state.stakers@[j]@ != sender@ by {
                    lemma_lex_irreflexive(sender@);
                }
            }
            contract.state.stakers.insert(i, sender.clone());
            contract.records.insert(i, rec);
            contract.state.total_staked = contract.state.total_staked + 1;
            proof {
                lemma_record_at(contract, i as int);
                assert forall|b: Seq<char>| b != sender@ implies #[trigger] contract.record(b) == pre.record(b) by {
                    if pre.is_staked(b) {
                        let j = choose|j: int| 0 <= j < pre.state.stakers@.len() && #[trigger] pre.state.stakers@[j]@ == b;
                        lemma_record_at(&pre, j);
                        let k = if j < i { j } else { j + 1 };
                        lemma_record_at(contract, k);
                    } else if contract.is_staked(b) {
                        let k = choose|k: int| 0 <= k < contract.state.stakers@.len() && #[trigger] contract.state.stakers@[k]@ == b;
                        let j = if k < i { k } else { k - 1 };
                        assert(pre.state.stakers@[j]@ == b);
                    }
                }
                assert forall|b: Seq<char>| #[trigger] contract.is_staked(b) == (pre.is_staked(b) || b == sender@) by {
                    if b != sender@ {
                        assert(contract.record(b) == pre.record(b));
                    }
                }
                assert(contract.staker_set() =~= pre.staker_set().insert(sender@));
            }
        },
    }
}

/// Withdraws one unit staked by `sender`, once the holding period has passed.
pub fn execute_unstake(contract: &mut Contract, sender: &String, now: Timestamp) -> (r: Result<(), ContractError>)
    requires
        old(contract).wf(),
    ensures
        final(contract).wf(),
        match old(contract).record(sender@) {
            None => r == Err::<(), ContractError>(ContractError::NotStaked),
            Some(rec) => if period_met(rec.staked_at, now) {
                &&& r is Ok
                &&& final(contract).record(sender@) == Contract::unstaked_record(rec)
                &&& final(contract).state.total_staked == old(contract).state.total_staked - 1
            } else {
                r == Err::<(), ContractError>(ContractError::MinimumPeriodNotMet)
            },
        },
        r is Err ==> *final(contract) == *old(contract),
        r is Ok ==> final(contract).same_lottery(old(contract)),
        r is Ok ==> forall|b: Seq<char>| b != sender@ ==> #[trigger] final(contract).record(b) == old(contract).record(b),
        r is Ok ==> final(contract).staker_set() == (if final(contract).record(sender@) is Some {
            old(contract).staker_set()
        } else {
            old(contract).staker_set().remove(sender@)
        }),
{
    let ghost pre = *contract;
    match find_account(&contract.state.stakers, sender) {
        Err(_) => {
            proof {
                assert forall|j: int| 0 <= j < pre.state.stakers@.len() implies #[trigger] pre.state.stakers@[j]@ != sender@ by {
                    lemma_lex_irreflexive(sender@);
                }
            }
            Err(ContractError::NotStaked)
        },
        Ok(i) => {
            let cur = contract.records[i];
            proof {
                lemma_record_at(&pre, i as int);
                lemma_count_le_sum(pre.records@, i as int);
            }
            if now.nanos < cur.staked_at.nanos || now.nanos - cur.staked_at.nanos < MIN_STAKING_NANOS {
                return Err(ContractError::MinimumPeriodNotMet);
            }
            if cur.nft_count > 1 {
                let rec = Staker { staked_at: cur.staked_at, nft_count: cur.nft_count - 1 };
                proof {
                    lemma_sum_update(pre.records@, i as int, rec);
                }
                contract.records.set(i, rec);
                contract.state.total_staked = contract.state.total_staked - 1;
                proof {
                    lemma_record_at(contract, i as int);
                    assert forall|b: Seq<char>| b != sender@ implies #[trigger] contract.record(b) == pre.record(b) by {
                        if pre.is_staked(b) {
                            let j = pre.position(b);
                            lemma_record_at(&pre, j);
                            lemma_record_at(contract, j);
                        }
                    }
                    assert forall|b: Seq<char>| #[trigger] contract.is_staked(b) == pre.is_staked(b) by {
                        if b != sender@ {
                            assert(contract.record(b) == pre.record(b));
                        }
                    }
                    assert(contract.staker_set() =~= pre.staker_set());
                }
            } else {
                proof {
                    lemma_sorted_remove(pre.state.stakers@, i as int);
                    lemma_sum_remove(pre.records@, i as int);
                }
                contract.state.stakers.remove(i);
                contract.records.remove(i);
                contract.state.total_staked = contract.state.total_staked - 1;
                proof {
                    assert forall|k: int| 0 <= k < contract.state.stakers@.len() implies #[trigger] contract.state.stakers@[k]@ != sender@ by {
                        let j = if k < i { k } else { k + 1 };
                        lemma_distinct(&pre, i as int, j);
                    }
                    assert(!contract.is_staked(sender@));
                    assert forall|b: Seq<char>| b != sender@ implies #[trigger] contract.record(b) == pre.record(b) by {
                        if pre.is_staked(b) {
                            let j = pre.position(b);
                            lemma_record_at(&pre, j);
                            let k = if j < i { j } else { j - 1 };
                            lemma_record_at(contract, k);
                        } else if contract.is_staked(b) {
                            let k = contract.position(b);
                            let j = if k < i { k } else { k + 1 };
                            assert(pre.state.stakers@[j]@ == b);
                        }
                    }
                    assert forall|b: Seq<char>| #[trigger] contract.is_staked(b) == (pre.is_staked(b) && b != sender@) by {
                        if b != sender@ {
                            assert(contract.record(b) == pre.record(b));
                        }
                    }
                    assert(contract.staker_set() =~= pre.staker_set().remove(sender@));
                }
            }
            Ok(())
        },
    }
}

/// Picks the winner among the staked accounts from `seed`; only the admin may draw.
/// The pot is reported as the prize and reset to zero.
pub fn execute_draw_winner(contract: &mut Contract, sender: &String, seed: &Vec<u8>) -> (r: Result<DrawOutcome, ContractError>)
    requires
        old(contract).wf(),
    ensures
        final(contract).wf(),
        sender@ != old(contract).config.admin@
            ==> r == Err::<DrawOutcome, ContractError>(ContractError::Unauthorized),
        sender@ == old(contract).config.admin@ && old(contract).state.stakers@.len() == 0
            ==> r == Err::<DrawOutcome, ContractError>(ContractError::NoStakersToDraw),
        sender@ == old(contract).config.admin@ && old(contract).state.stakers@.len() > 0 ==> r is Ok,
        r is Err ==> *final(contract) == *old(contract),
        r matches Ok(out) ==> {
            &&& out.winner == drawn_account(old(contract).state.stakers@, seed@)
            &&& out.prize == old(contract).state.current_pot
            &&& old(contract).staker_set().contains(out.winner@)
            &&& final(contract).state.last_winner == Some(out.winner)
            &&& final(contract).state.current_pot == 0
            &&& final(contract).state.stakers == old(contract).state.stakers
            &&& final(contract).state.total_staked == old(contract).state.total_staked
            &&& final(contract).records == old(contract).records
            &&& final(contract).config == old(contract).config
        },
{
    if *sender != contract.config.admin {
        return Err(ContractError::Unauthorized);
    }
    let n = contract.state.stakers.len();
    if n == 0 {
        return Err(ContractError::NoStakersToDraw);
    }
    let idx = draw_index(seed, n);
    let winner = contract.state.stakers[idx].clone();
    proof {
        assert(contract.state.stakers@[idx as int]@ == winner@);
        assert(contract.is_staked(winner@));
    }
    let prize = contract.state.current_pot;
    contract.state.last_winner = Some(winner.clone());
    contract.state.current_pot = 0;
    Ok(DrawOutcome { winner, prize })
}

/// Lets the latest winner claim the pot as it stands now.
pub fn execute_claim_reward(contract: &Contract, sender: &String) -> (r: Result<Payment, ContractError>)
    ensures
        match contract.state.last_winner {
            None => r == Err::<Payment, ContractError>(ContractError::NoWinnerToClaim),
            Some(w) => if sender@ == w@ {
                r matches Ok(p) && p.recipient == *sender && p.token_contract
                    == contract.config.reward_token && p.amount == contract.state.current_pot
            } else {
                r == Err::<Payment, ContractError>(ContractError::NotWinner)
            },
        },
{
    match &contract.state.last_winner {
        None => Err(ContractError::NoWinnerToClaim),
        Some(w) => {
            if *sender != *w {
                return Err(ContractError::NotWinner);
            }
            Ok(Payment {
                token_contract: contract.config.reward_token.clone(),
                recipient: sender.clone(),
                amount: contract.state.current_pot,
            })
        },
    }
}

/// Total number of staked units.
pub fn get_total_staked_nfts(contract: &Contract) -> (r: u64)
    ensures
        r == contract.state.total_staked,
{
    contract.state.total_staked
}

/// The record of `address`, if it has one.
pub fn query_staker(contract: &Contract, address: &String) -> (r: Option<Staker>)
    requires
        contract.wf(),
    ensures
        r == contract.record(address@),
{
    match find_account(&contract.state.stakers, address) {
        Ok(i) => {
            proof {
                lemma_record_at(contract, i as int);
            }
            Some(contract.records[i])
        },
        Err(_) => {
            proof {
                assert forall|j: int| 0 <= j < contract.state.stakers@.len() implies #[trigger] contract.state.stakers@[j]@ != address@ by {
                    lemma_lex_irreflexive(address@);
                }
            }
            None
        },
    }
}

/// Voting weight of `address`: its staked count, or zero without a record.
pub fn get_staker_weight(contract: &Contract, address: &String) -> (r: u64)
    requires
        contract.wf(),
    ensures
        r == match contract.record(address@) {
            Some(rec) => rec.nft_count,
            None => 0,
        },
{
    match query_staker(contract, address) {
        Some(rec) => rec.nft_count,
        None => 0,
    }
}

/// The accounts whose holding period has passed at `now`, with their
/// records, in ascending account order.
pub fn query_eligible_stakers(contract: &Contract, now: Timestamp) -> (r: Vec<(String, Staker)>)
    requires
        contract.wf(),
    ensures
        r@ == eligible_upto(contract.state.stakers@, contract.records@, now, contract.state.stakers@.len()),
{
    let mut out: Vec<(String, Staker)> = Vec::new();
    let mut i: usize = 0;
    while i < contract.state.stakers.len()
        invariant
            contract.wf(),
            i <= contract.state.stakers@.len(),
            out@ == eligible_upto(contract.state.stakers@, contract.records@, now, i as nat),
        decreases contract.state.stakers.len() - i,
    {
        let rec = contract.records[i];
        if now.nanos >= rec.staked_at.nanos && now.nanos - rec.staked_at.nanos >= MIN_STAKING_NANOS {
            out.push((contract.state.stakers[i].clone(), rec));
        }
        i = i + 1;
    }
    out
}

/// A copy of the aggregate state.
pub fn query_state(contract: &Contract) -> (r: State)
    ensures
        same_state(r, contract.state),
{
    let mut stakers: Vec<String> = Vec::new();
    let mut i: usize = 0;
    while i < contract.state.stakers.len()
        invariant
            i <= contract.state.stakers@.len(),
            stakers@ == contract.state.stakers@.take(i as int),
        decreases contract.state.stakers.len() - i,
    {
        stakers.push(contract.state.stakers[i].clone());
        proof {
            assert(contract.state.stakers@.take(i + 1) =~= contract.state.stakers@.take(i as int).push(contract.state.stakers@[i as int]));
        }
        i = i + 1;
    }
    proof {
        assert(contract.state.stakers@.take(i as int) =~= contract.state.stakers@);
    }
    let last_winner = match &contract.state.last_winner {
        Some(w) => Some(w.clone()),
        None => None,
    };
    State {
        total_staked: contract.state.total_staked,
        current_pot: contract.state.current_pot,
        last_winner,
        stakers,
    }
}

/// Answers a read-only request at block time `now`.
pub fn query(contract: &Contract, now: Timestamp, msg: QueryMsg) -> (r: QueryResponse)
    requires
        contract.wf(),
    ensures
        match msg {
            QueryMsg::GetEligibleStakers {} => r matches QueryResponse::EligibleStakers(v)
                && v@ == eligible_upto(contract.state.stakers@, contract.records@, now, contract.state.stakers@.len()),
            QueryMsg::GetState {} => r matches QueryResponse::State(st) && same_state(st, contract.state),
            QueryMsg::GetStaker { address } => r matches QueryResponse::Staker(rec)
                && rec == contract.record(address@),
        },
{
    match msg {
        QueryMsg::GetEligibleStakers {} => QueryResponse::EligibleStakers(query_eligible_stakers(contract, now)),
        QueryMsg::GetState {} => QueryResponse::State(query_state(contract)),
        QueryMsg::GetStaker { address } => QueryResponse::Staker(query_staker(contract, &address)),
    }
}

} // verus!
