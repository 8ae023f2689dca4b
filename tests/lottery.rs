use nft_lottery::{
    account_lt, draw_index, execute_claim_reward, execute_draw_winner, execute_stake,
    execute_unstake, get_staker_weight, get_total_staked_nfts, instantiate, query,
    query_eligible_stakers, query_staker, query_state, Contract, ContractError, InstantiateMsg,
    QueryMsg, QueryResponse, Staker, Timestamp, MIN_STAKING_NANOS,
};

const WEEK: u64 = 7 * 86400;

fn s(x: &str) -> String {
    x.to_string()
}

fn new_lottery() -> Contract {
    instantiate(InstantiateMsg {
        admin: s("admin"),
        nft_contract: s("nft"),
        reward_token: s("token"),
    })
}

fn total_of_records(c: &Contract) -> u64 {
    c.records.iter().map(|r| r.nft_count).sum()
}

#[test]
fn instantiate_starts_empty() {
    let c = new_lottery();
    assert_eq!(c.config.admin, "admin");
    assert_eq!(c.config.nft_contract, "nft");
    assert_eq!(c.config.reward_token, "token");
    assert_eq!(c.state.total_staked, 0);
    assert_eq!(c.state.current_pot, 0);
    assert_eq!(c.state.last_winner, None);
    assert!(c.state.stakers.is_empty());
    assert!(c.records.is_empty());
}

#[test]
fn scenario_two_stakers_unstake_draw_claim() {
    let mut c = new_lottery();
    let t0 = Timestamp::from_seconds(1_000);
    execute_stake(&mut c, &s("A"), t0);
    execute_stake(&mut c, &s("B"), t0);
    assert_eq!(c.state.total_staked, 2);
    assert_eq!(get_staker_weight(&c, &s("A")), 1);
    assert_eq!(get_staker_weight(&c, &s("B")), 1);

    let later = Timestamp::from_seconds(1_000 + WEEK);
    assert_eq!(execute_unstake(&mut c, &s("A"), later), Ok(()));
    assert_eq!(c.state.total_staked, 1);
    assert_eq!(query_staker(&c, &s("A")), None);
    assert_eq!(c.state.stakers, vec![s("B")]);

    c.state.current_pot = 250;
    let out = execute_draw_winner(&mut c, &s("admin"), &vec![0u8]).unwrap();
    assert_eq!(out.winner, "B");
    assert_eq!(out.prize, 250);
    assert_eq!(c.state.current_pot, 0);
    assert_eq!(c.state.last_winner, Some(s("B")));

    let pay = execute_claim_reward(&c, &s("B")).unwrap();
    assert_eq!(pay.recipient, "B");
    assert_eq!(pay.token_contract, "token");
    assert_eq!(pay.amount, 0);
}

#[test]
fn repeated_stake_keeps_first_time() {
    let mut c = new_lottery();
    execute_stake(&mut c, &s("A"), Timestamp::from_seconds(10));
    execute_stake(&mut c, &s("A"), Timestamp::from_seconds(500));
    execute_stake(&mut c, &s("A"), Timestamp::from_seconds(900));
    let rec = query_staker(&c, &s("A")).unwrap();
    assert_eq!(rec.nft_count, 3);
    assert_eq!(rec.staked_at, Timestamp::from_seconds(10));
    assert_eq!(c.state.stakers, vec![s("A")]);
    assert_eq!(get_total_staked_nfts(&c), 3);
}

#[test]
fn unstake_boundary_of_holding_period() {
    let mut c = new_lottery();
    let t0 = Timestamp::from_nanos(5);
    execute_stake(&mut c, &s("A"), t0);
    let just_before = Timestamp::from_nanos(5 + MIN_STAKING_NANOS - 1);
    assert_eq!(
        execute_unstake(&mut c, &s("A"), just_before),
        Err(ContractError::MinimumPeriodNotMet)
    );
    assert_eq!(c.state.total_staked, 1);
    let exactly = Timestamp::from_nanos(5 + MIN_STAKING_NANOS);
    assert_eq!(execute_unstake(&mut c, &s("A"), exactly), Ok(()));
    assert_eq!(c.state.total_staked, 0);
    assert!(c.state.stakers.is_empty());
}

#[test]
fn unstake_before_stake_time_is_too_early() {
    let mut c = new_lottery();
    execute_stake(&mut c, &s("A"), Timestamp::from_seconds(100));
    assert_eq!(
        execute_unstake(&mut c, &s("A"), Timestamp::from_seconds(50)),
        Err(ContractError::MinimumPeriodNotMet)
    );
}

#[test]
fn unstake_without_record_fails() {
    let mut c = new_lottery();
    execute_stake(&mut c, &s("A"), Timestamp::from_seconds(0));
    assert_eq!(
        execute_unstake(&mut c, &s("Z"), Timestamp::from_seconds(WEEK * 2)),
        Err(ContractError::NotStaked)
    );
    assert_eq!(c.state.total_staked, 1);
}

#[test]
fn partial_unstake_keeps_account_and_clock() {
    let mut c = new_lottery();
    execute_stake(&mut c, &s("A"), Timestamp::from_seconds(0));
    execute_stake(&mut c, &s("A"), Timestamp::from_seconds(WEEK));
    assert_eq!(execute_unstake(&mut c, &s("A"), Timestamp::from_seconds(WEEK)), Ok(()));
    let rec = query_staker(&c, &s("A")).unwrap();
    assert_eq!(rec.nft_count, 1);
    assert_eq!(rec.staked_at, Timestamp::from_seconds(0));
    assert_eq!(c.state.stakers, vec![s("A")]);
    assert_eq!(c.state.total_staked, 1);
}

#[test]
fn totals_match_records_through_operations() {
    let mut c = new_lottery();
    let names = ["m", "c", "x", "c", "a", "m", "m"];
    for (k, n) in names.iter().enumerate() {
        execute_stake(&mut c, &s(n), Timestamp::from_seconds(k as u64));
        assert_eq!(c.state.total_staked, total_of_records(&c));
    }
    assert_eq!(c.state.stakers, vec![s("a"), s("c"), s("m"), s("x")]);
    let late = Timestamp::from_seconds(10 * WEEK);
    for n in ["m", "a", "c", "x", "m"] {
        assert_eq!(execute_unstake(&mut c, &s(n), late), Ok(()));
        assert_eq!(c.state.total_staked, total_of_records(&c));
        assert_eq!(c.state.stakers.len(), c.records.len());
        assert!(c.records.iter().all(|r| r.nft_count > 0));
    }
    assert_eq!(c.state.stakers, vec![s("c"), s("m")]);
    assert_eq!(c.state.total_staked, 2);
}

#[test]
fn draw_by_non_admin_is_unauthorized() {
    let mut c = new_lottery();
    execute_stake(&mut c, &s("A"), Timestamp::from_seconds(0));
    c.state.current_pot = 40;
    assert_eq!(
        execute_draw_winner(&mut c, &s("A"), &vec![3u8]).unwrap_err(),
        ContractError::Unauthorized
    );
    assert_eq!(c.state.current_pot, 40);
    assert_eq!(c.state.last_winner, None);
}

#[test]
fn draw_without_stakers_fails() {
    let mut c = new_lottery();
    assert_eq!(
        execute_draw_winner(&mut c, &s("admin"), &vec![3u8]).unwrap_err(),
        ContractError::NoStakersToDraw
    );
}

#[test]
fn draw_picks_in_account_order_and_resets_pot() {
    let mut c = new_lottery();
    for n in ["carol", "alice", "bob"] {
        execute_stake(&mut c, &s(n), Timestamp::from_seconds(0));
    }
    c.state.current_pot = 900;
    let out = execute_draw_winner(&mut c, &s("admin"), &vec![1u8]).unwrap();
    assert_eq!(out.winner, "bob");
    assert_eq!(out.prize, 900);
    assert_eq!(c.state.current_pot, 0);
    assert!(c.state.stakers.contains(&out.winner));
    let out = execute_draw_winner(&mut c, &s("admin"), &vec![1u8, 2u8]).unwrap();
    assert_eq!(out.winner, "alice");
    assert_eq!(out.prize, 0);
}

#[test]
fn same_accounts_and_seed_give_same_winner() {
    let mut c1 = new_lottery();
    let mut c2 = new_lottery();
    for n in ["p", "q", "r", "s"] {
        execute_stake(&mut c1, &s(n), Timestamp::from_seconds(0));
    }
    for n in ["s", "r", "q", "p"] {
        execute_stake(&mut c2, &s(n), Timestamp::from_seconds(7));
    }
    let seed = vec![9u8, 200, 17, 4, 66];
    let w1 = execute_draw_winner(&mut c1, &s("admin"), &seed).unwrap().winner;
    let w2 = execute_draw_winner(&mut c2, &s("admin"), &seed).unwrap().winner;
    assert_eq!(w1, w2);
}

#[test]
fn draw_index_reads_whole_seed() {
    assert_eq!(draw_index(&vec![], 5), 0);
    assert_eq!(draw_index(&vec![0xff], 10), 5);
    assert_eq!(draw_index(&vec![1, 2], 3), 0);
    assert_eq!(draw_index(&vec![1, 0, 0, 0, 0, 0, 0, 0, 0], 7), 2);
    assert_eq!(draw_index(&vec![0xff; 32], 1), 0);
}

#[test]
fn claim_errors_and_payment() {
    let mut c = new_lottery();
    assert_eq!(execute_claim_reward(&c, &s("A")).unwrap_err(), ContractError::NoWinnerToClaim);
    execute_stake(&mut c, &s("A"), Timestamp::from_seconds(0));
    execute_draw_winner(&mut c, &s("admin"), &vec![0u8]).unwrap();
    c.state.current_pot = 77;
    assert_eq!(execute_claim_reward(&c, &s("B")).unwrap_err(), ContractError::NotWinner);
    let pay = execute_claim_reward(&c, &s("A")).unwrap();
    assert_eq!(pay.recipient, "A");
    assert_eq!(pay.token_contract, "token");
    assert_eq!(pay.amount, 77);
    let again = execute_claim_reward(&c, &s("A")).unwrap();
    assert_eq!(again.amount, 77);
    assert_eq!(c.state.last_winner, Some(s("A")));
}

#[test]
fn eligible_stakers_filtered_and_ordered() {
    let mut c = new_lottery();
    execute_stake(&mut c, &s("d"), Timestamp::from_seconds(0));
    execute_stake(&mut c, &s("b"), Timestamp::from_seconds(100));
    execute_stake(&mut c, &s("a"), Timestamp::from_seconds(50));
    execute_stake(&mut c, &s("a"), Timestamp::from_seconds(60));
    let now = Timestamp::from_seconds(WEEK + 50);
    let got = query_eligible_stakers(&c, now);
    assert_eq!(
        got,
        vec![
            (s("a"), Staker { staked_at: Timestamp::from_seconds(50), nft_count: 2 }),
            (s("d"), Staker { staked_at: Timestamp::from_seconds(0), nft_count: 1 }),
        ]
    );
    assert!(query_eligible_stakers(&c, Timestamp::from_seconds(WEEK - 1)).is_empty());
}

#[test]
fn weight_and_total_queries() {
    let mut c = new_lottery();
    execute_stake(&mut c, &s("a"), Timestamp::from_seconds(0));
    execute_stake(&mut c, &s("a"), Timestamp::from_seconds(0));
    execute_stake(&mut c, &s("b"), Timestamp::from_seconds(0));
    assert_eq!(get_total_staked_nfts(&c), 3);
    assert_eq!(get_staker_weight(&c, &s("a")), 2);
    assert_eq!(get_staker_weight(&c, &s("b")), 1);
    assert_eq!(get_staker_weight(&c, &s("nobody")), 0);
}

#[test]
fn query_dispatch() {
    let mut c = new_lottery();
    execute_stake(&mut c, &s("a"), Timestamp::from_seconds(0));
    match query(&c, Timestamp::from_seconds(WEEK), QueryMsg::GetEligibleStakers {}) {
        QueryResponse::EligibleStakers(v) => assert_eq!(v.len(), 1),
        other => panic!("unexpected {:?}", other),
    }
    match query(&c, Timestamp::from_seconds(0), QueryMsg::GetState {}) {
        QueryResponse::State(st) => {
            assert_eq!(st.total_staked, 1);
            assert_eq!(st.stakers, vec![s("a")]);
            assert_eq!(st.last_winner, None);
        }
        other => panic!("unexpected {:?}", other),
    }
    match query(&c, Timestamp::from_seconds(0), QueryMsg::GetStaker { address: s("a") }) {
        QueryResponse::Staker(r) => assert_eq!(r.map(|x| x.nft_count), Some(1)),
        other => panic!("unexpected {:?}", other),
    }
    let st = query_state(&c);
    assert_eq!(st.stakers, c.state.stakers);
}

#[test]
fn account_order_is_lexicographic() {
    assert!(account_lt(&s("a"), &s("b")));
    assert!(!account_lt(&s("b"), &s("a")));
    assert!(account_lt(&s(""), &s("a")));
    assert!(account_lt(&s("a"), &s("ab")));
    assert!(!account_lt(&s("ab"), &s("ab")));
    assert!(account_lt(&s("z"), &s("\u{e9}")));
    assert_eq!(account_lt(&s("abc"), &s("abd")), s("abc") < s("abd"));
}
