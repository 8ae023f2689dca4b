//! Properties that hold across the lottery's operations.
use vstd::prelude::*;
use crate::account::{lemma_sorted_unique, lists};
use crate::contract::{drawn_account, Contract};
use crate::draw::draw_position;
use crate::state::sum_counts;

verus! {

/// In every well-formed state (and every operation keeps the state well-formed),
/// the total equals the sum of the records' counts, and the staked accounts are
/// exactly those whose record holds a positive count.
pub proof fn lemma_registry_consistent(c: &Contract)
    requires
        c.wf(),
    ensures
        c.state.total_staked == sum_counts(c.records@),
        c.staker_set() == Set::new(|a: Seq<char>| c.record(a) matches Some(r) && r.nft_count > 0),
{
    assert forall|a: Seq<char>| #[trigger] c.is_staked(a) implies (c.record(a) matches Some(r) && r.nft_count > 0) by {
        let i = c.position(a);
        assert(c.records@[i].nft_count > 0);
    }
    assert(c.staker_set() =~= Set::new(|a: Seq<char>| c.record(a) matches Some(r) && r.nft_count > 0));
}

/// A draw's winner depends only on which accounts are staked and on the seed:
/// two states with the same staked accounts (which are then listed in the same
/// canonical order) pick the same winner for the same seed. A draw needs at
/// least one staked account.
pub proof fn lemma_draw_deterministic(c1: &Contract, c2: &Contract, seed: Seq<u8>)
    requires
        c1.wf(),
        c2.wf(),
        c1.staker_set() == c2.staker_set(),
        c1.state.stakers@.len() > 0,
    ensures
        c1.state.stakers@.len() == c2.state.stakers@.len(),
        drawn_account(c1.state.stakers@, seed)@ == drawn_account(c2.state.stakers@, seed)@,
{
    assert forall|a: Seq<char>| lists(c1.state.stakers@, a) == lists(c2.state.stakers@, a) by {
        assert(c1.staker_set().contains(a) == c1.is_staked(a));
        assert(c2.staker_set().contains(a) == c2.is_staked(a));
    }
    lemma_sorted_unique(c1.state.stakers@, c2.state.stakers@);
    let i = draw_position(seed, c1.state.stakers@.len()) as int;
    assert(c1.state.stakers@[i]@ == c2.state.stakers@[i]@);
}

} // verus!
