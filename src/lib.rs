//! State-transition core of an NFT-staking lottery.

mod account;
mod state;
mod contract;
mod draw;
mod laws;

pub use account::{account_lt, find_account};
pub use contract::{
    execute_claim_reward, execute_draw_winner, execute_stake, execute_unstake,
    get_staker_weight, get_total_staked_nfts, instantiate, query, query_eligible_stakers,
    query_staker, query_state, Contract,
};
pub use draw::draw_index;
pub use state::{
    Config, ContractError, DrawOutcome, ExecuteMsg, InstantiateMsg, Payment, QueryMsg,
    QueryResponse, Staker, State, Timestamp, MIN_STAKING_DAYS, MIN_STAKING_NANOS,
    NANOS_PER_SECOND, SECONDS_IN_DAY,
};
pub use laws::{lemma_draw_deterministic, lemma_registry_consistent};
