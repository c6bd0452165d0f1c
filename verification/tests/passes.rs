use state_space::amm::{ERC4626Vault, Pool, Token, UniswapV2Pool, UniswapV3Pool, Variant, AMM};
use state_space::error::{AMMError, StateSpaceError, UniswapV3Error};
use state_space::factory::Factory;
use state_space::primitives::{Address, B256};
use state_space::space::{StateSpace, CACHE_SIZE};
use state_space::sync::{
    InitRequest, InitStep, Log, PoolReset, Step, SyncOutcome, SyncRun, MAX_RETRIES,
    RETRY_DELAY_SECS,
};

fn address(n: u8) -> Address {
    Address([n; 20])
}

fn text(n: u8) -> String {
    format!("0x{}", format!("{:02x}", n).repeat(20))
}

fn token(n: u8) -> Token {
    Token { address: address(n), decimals: 6 }
}

fn v2(at: u8, reserve: u128) -> AMM {
    AMM {
        address: address(at),
        sync_events: vec![],
        pool: Pool::UniswapV2Pool(UniswapV2Pool {
            token_a: token(1),
            token_b: token(2),
            reserve_0: reserve,
            reserve_1: reserve,
            sufficient_reserves: reserve > 10_000,
        }),
    }
}

fn v3(at: u8, liquidity: u128, ticks: Vec<i32>) -> AMM {
    AMM {
        address: address(at),
        sync_events: vec![],
        pool: Pool::UniswapV3Pool(UniswapV3Pool {
            token_a: token(1),
            token_b: token(3),
            liquidity,
            ticks,
            factory_address: address(0xfa),
        }),
    }
}

fn vault(at: u8) -> AMM {
    let pool = ERC4626Vault { vault_token: address(5), asset_token: address(6) };
    AMM { address: address(at), sync_events: vec![], pool: Pool::ERC4626Vault(pool) }
}

fn space_of(amms: Vec<AMM>) -> StateSpace {
    let mut space = StateSpace::default();
    for amm in amms {
        let _ = space.state.insert(amm.address, amm);
    }
    space.rebuild_indexes();
    space
}

fn log(at: u8, block_number: u64) -> Log {
    Log { address: address(at), topics: vec![B256([0x55; 32])], block_number: Some(block_number) }
}

fn factory(at: u8) -> Factory {
    Factory {
        address: address(at),
        variant: Variant::UniswapV2,
        discovery_event: B256([0xde; 32]),
        pool_events: vec![],
    }
}

fn announcement(at: u8, block_number: u64) -> Log {
    Log { address: address(at), topics: vec![B256([0xde; 32])], block_number: Some(block_number) }
}

fn begin(space: &mut StateSpace, logs: &Vec<Log>) -> SyncRun {
    match space.sync(logs) {
        Ok(Some(run)) => run,
        _ => panic!("there is a log with a block"),
    }
}

fn begin_protected(space: &mut StateSpace, logs: &Vec<Log>, reset_block: u64) -> SyncRun {
    match space.sync_v2(logs, reset_block) {
        Ok(Some(run)) => run,
        _ => panic!("there is a log with a block"),
    }
}

fn shown(space: &StateSpace, at: u8) -> String {
    format!("{:?}", space.get(&address(at)))
}

/// Applies each log as an update of its pool to a given reserve.
fn run_updates(space: &mut StateSpace, updates: &[(u8, u64, u128)]) -> Vec<Address> {
    let logs: Vec<Log> = updates.iter().map(|u| log(u.0, u.1)).collect();
    let mut run = begin(space, &logs);
    for update in updates {
        let step = space.next_log(&mut run, &logs, &vec![]);
        assert_eq!(step, Ok(Step::SyncPool(address(update.0))));
        let left = v2(update.0, update.2);
        let next = space.pool_synced(&run, address(update.0), left, SyncOutcome::Synced);
        assert_eq!(next, Ok(Step::Settled));
    }
    space.finish_sync(run)
}

#[test]
fn no_logs_no_pass() {
    let mut space = space_of(vec![v2(0x10, 50_000)]);
    assert!(matches!(space.sync(&vec![]), Ok(None)));
    assert!(matches!(space.sync_v2(&vec![], 7), Ok(None)));
}

#[test]
fn first_log_must_have_a_block() {
    let mut space = StateSpace::default();
    let mut pending = log(0x10, 0);
    pending.block_number = None;
    let logs = vec![pending];
    assert!(matches!(space.sync(&logs), Err(StateSpaceError::MissingBlockNumber)));
    assert!(matches!(space.sync_v2(&logs, 7), Err(StateSpaceError::MissingBlockNumber)));
}

#[test]
fn later_log_must_have_a_block_unless_protected() {
    let mut space = space_of(vec![v2(0x10, 50_000)]);
    let mut pending = log(0x10, 0);
    pending.block_number = None;
    let logs = vec![log(0x77, 5), pending];
    let mut run = begin(&mut space, &logs);
    assert_eq!(space.next_log(&mut run, &logs, &vec![]), Ok(Step::Settled));
    assert_eq!(
        space.next_log(&mut run, &logs, &vec![]),
        Err(StateSpaceError::MissingBlockNumber)
    );
    assert_eq!(run.position, 1);
    let mut run = begin_protected(&mut space, &logs, 5);
    assert_eq!(space.next_log(&mut run, &logs, &vec![]), Ok(Step::Settled));
    assert_eq!(
        space.next_log(&mut run, &logs, &vec![]),
        Ok(Step::SyncPool(address(0x10)))
    );
    assert_eq!(run.block_number, 5);
}

#[test]
fn synced_pool_is_replaced_and_indexed() {
    let mut space = space_of(vec![v2(0x10, 5)]);
    assert!(space.get_pools_by_token(&text(1)).is_empty());
    let affected = run_updates(&mut space, &[(0x10, 1, 50_000)]);
    assert_eq!(affected, vec![address(0x10)]);
    assert_eq!(space.get_pools_by_token(&text(1)), vec![address(0x10)]);
    assert_eq!(shown(&space, 0x10), format!("{:?}", Some(v2(0x10, 50_000))));
    let affected = run_updates(&mut space, &[(0x10, 2, 5)]);
    assert_eq!(affected, vec![address(0x10)]);
    assert!(space.get_pools_by_token(&text(1)).is_empty());
    assert!(space.get_pools_by_token_pair(&text(1), &text(2)).is_empty());
    assert_eq!(space.token_to_pools.len(), 0);
}

#[test]
fn foreign_log_changes_nothing() {
    let mut space = space_of(vec![v2(0x10, 50_000)]);
    let logs = vec![log(0x77, 5)];
    let before = format!("{:?}", space);
    let mut run = begin(&mut space, &logs);
    assert_eq!(space.next_log(&mut run, &logs, &vec![factory(0xf0)]), Ok(Step::Settled));
    assert!(space.finish_sync(run).is_empty());
    assert_eq!(format!("{:?}", space), before);
}

#[test]
fn undoing_a_block_restores_the_pools() {
    let mut space = space_of(vec![v2(0x10, 50_000), v2(0x11, 60_000)]);
    let _ = run_updates(&mut space, &[(0x10, 100, 50_001)]);
    let at_100 = shown(&space, 0x10);
    let affected = run_updates(
        &mut space,
        &[(0x10, 101, 1), (0x11, 101, 60_001), (0x10, 101, 50_003), (0x10, 102, 2)],
    );
    assert_eq!(affected, vec![address(0x10), address(0x11)]);
    assert!(!space.get_pools_by_token(&text(1)).contains(&address(0x10)));
    space.latest_block = 102;
    let logs = vec![log(0x77, 101)];
    let run = begin(&mut space, &logs);
    assert!(space.finish_sync(run).is_empty());
    assert_eq!(shown(&space, 0x10), at_100);
    assert_eq!(shown(&space, 0x11), format!("{:?}", Some(v2(0x11, 60_000))));
    assert_eq!(space.get_pools_by_token(&text(1)), vec![address(0x10), address(0x11)]);
    let logs = vec![log(0x77, 100)];
    let _ = begin_protected(&mut space, &logs, 100);
    assert_eq!(shown(&space, 0x10), format!("{:?}", Some(v2(0x10, 50_000))));
}

#[test]
fn undoing_the_later_block_of_a_pass() {
    let mut alone = space_of(vec![v2(0x10, 50_000), v2(0x11, 60_000), v2(0x12, 5)]);
    let _ = run_updates(&mut alone, &[(0x10, 100, 1), (0x12, 100, 70_000)]);
    let mut space = space_of(vec![v2(0x10, 50_000), v2(0x11, 60_000), v2(0x12, 5)]);
    let _ = run_updates(
        &mut space,
        &[(0x10, 100, 1), (0x12, 100, 70_000), (0x10, 101, 50_002), (0x11, 101, 2)],
    );
    space.latest_block = 101;
    let logs = vec![log(0x77, 101)];
    let mut run = begin(&mut space, &logs);
    assert_eq!(space.next_log(&mut run, &logs, &vec![]), Ok(Step::Settled));
    assert!(space.finish_sync(run).is_empty());
    assert_eq!(format!("{:?}", space.state), format!("{:?}", alone.state));
    assert_eq!(format!("{:?}", space.token_to_pools), format!("{:?}", alone.token_to_pools));
    assert_eq!(
        format!("{:?}", space.token_pair_to_pools),
        format!("{:?}", alone.token_pair_to_pools)
    );
}

#[test]
fn undoing_several_passes() {
    let mut space = space_of(vec![v2(0x10, 50_000), v2(0x11, 60_000)]);
    let mut states = vec![format!("{:?}", space.state)];
    for block in 1..=10u64 {
        let reserve = 50_000 + block as u128;
        let _ = run_updates(&mut space, &[(0x10 + (block % 2) as u8, block, reserve)]);
        states.push(format!("{:?}", space.state));
        space.latest_block = block;
    }
    for block in (1..=10u64).rev() {
        let logs = vec![log(0x77, block)];
        let run = begin_protected(&mut space, &logs, block);
        assert!(space.finish_sync(run).is_empty());
        assert_eq!(format!("{:?}", space.state), states[block as usize - 1]);
        space.latest_block = block;
    }
}

#[test]
fn undoing_twice_is_undoing_once() {
    let mut space = space_of(vec![v2(0x10, 50_000)]);
    let _ = run_updates(&mut space, &[(0x10, 100, 50_001), (0x10, 101, 50_002)]);
    space.latest_block = 101;
    let logs = vec![log(0x77, 101)];
    let _ = begin(&mut space, &logs);
    let once = format!("{:?}", space);
    let _ = begin(&mut space, &logs);
    assert_eq!(format!("{:?}", space), once);
    assert_eq!(shown(&space, 0x10), format!("{:?}", Some(v2(0x10, 50_001))));
}

#[test]
fn later_block_undoes_nothing() {
    let mut space = space_of(vec![v2(0x10, 50_000)]);
    let _ = run_updates(&mut space, &[(0x10, 100, 50_001)]);
    space.latest_block = 99;
    let logs = vec![log(0x77, 100)];
    let _ = begin(&mut space, &logs);
    assert_eq!(shown(&space, 0x10), format!("{:?}", Some(v2(0x10, 50_001))));
    space.latest_block = 100;
    let _ = begin(&mut space, &logs);
    assert_eq!(shown(&space, 0x10), format!("{:?}", Some(v2(0x10, 50_000))));
}

#[test]
fn only_so_many_blocks_can_be_undone() {
    let mut space = space_of(vec![v2(0x10, 50_000)]);
    let blocks = CACHE_SIZE as u64 + 1;
    for block in 1..=blocks {
        let _ = run_updates(&mut space, &[(0x10, block, 50_000 + block as u128)]);
    }
    space.latest_block = blocks;
    let logs = vec![log(0x77, 1)];
    let _ = begin(&mut space, &logs);
    assert_eq!(shown(&space, 0x10), format!("{:?}", Some(v2(0x10, 50_001))));
}

#[test]
fn first_matching_factory_builds_the_pool() {
    let mut space = StateSpace::default();
    let mut other = factory(0xf1);
    other.discovery_event = B256([0xdd; 32]);
    let factories = vec![other, factory(0xf0), factory(0xf1), factory(0xf1)];
    let logs = vec![announcement(0xf1, 9), log(0xf1, 9)];
    let mut run = begin(&mut space, &logs);
    assert_eq!(space.next_log(&mut run, &logs, &factories), Ok(Step::CreatePool(2)));
    assert_eq!(space.next_log(&mut run, &logs, &factories), Ok(Step::Settled));
}

#[test]
fn new_pool_is_held_and_indexed() {
    let mut space = StateSpace::default();
    let factories = vec![factory(0xf0)];
    let logs = vec![announcement(0xf0, 9)];
    let mut run = begin(&mut space, &logs);
    assert_eq!(space.next_log(&mut run, &logs, &factories), Ok(Step::CreatePool(0)));
    let request = run.pool_created(&Ok(v2(0x10, 0)));
    let expected =
        InitRequest { address: address(0x10), block_number: 9, retries: 0, delay_secs: 0 };
    assert_eq!(request, Some(expected));
    let step = space.pool_initialized(&mut run, expected, Ok(v2(0x10, 50_000)));
    assert_eq!(step, InitStep::Initialized);
    assert_eq!(space.finish_sync(run), vec![address(0x10)]);
    assert_eq!(space.get_pools_by_token(&text(2)), vec![address(0x10)]);
}

#[test]
fn pool_that_cannot_be_built_is_passed_over() {
    let mut space = StateSpace::default();
    let logs = vec![announcement(0xf0, 9)];
    let run = begin(&mut space, &logs);
    let failed = Err(AMMError::Other("bad log".to_string()));
    assert_eq!(run.pool_created(&failed), None);
}

#[test]
fn initialisation_is_tried_four_times() {
    let mut space = StateSpace::default();
    let logs = vec![announcement(0xf0, 9)];
    let mut run = begin_protected(&mut space, &logs, 12);
    let mut request = match run.pool_created(&Ok(v2(0x10, 0))) {
        Some(request) => request,
        None => panic!("the pool was built"),
    };
    assert_eq!(request.block_number, 9);
    let mut tries = 0;
    loop {
        tries += 1;
        let failed = Err(AMMError::Other("no answer".to_string()));
        match space.pool_initialized(&mut run, request, failed) {
            InitStep::Retry(next) => {
                assert_eq!(next.retries, tries);
                assert_eq!(next.delay_secs, RETRY_DELAY_SECS);
                assert_eq!((next.address, next.block_number), (address(0x10), 9));
                request = next;
            }
            InitStep::GivenUp => break,
            InitStep::Initialized => panic!("it failed"),
        }
    }
    assert_eq!(tries, MAX_RETRIES + 1);
    assert_eq!(tries, 4);
    assert!(space.get(&address(0x10)).is_none());
    assert!(space.finish_sync(run).is_empty());
}

#[test]
fn created_pool_is_not_undone() {
    let mut space = StateSpace::default();
    let logs = vec![announcement(0xf0, 9)];
    let mut run = begin(&mut space, &logs);
    let _ = space.next_log(&mut run, &logs, &vec![factory(0xf0)]);
    let request =
        InitRequest { address: address(0x10), block_number: 9, retries: 0, delay_secs: 0 };
    let _ = space.pool_initialized(&mut run, request, Ok(v2(0x10, 50_000)));
    let _ = space.finish_sync(run);
    space.latest_block = 9;
    let again = vec![log(0x77, 9)];
    let _ = begin(&mut space, &again);
    assert!(space.get(&address(0x10)).is_some());
}

#[test]
fn error_ends_the_pass_and_leaves_the_pool_halfway() {
    let mut space = space_of(vec![v2(0x10, 50_000)]);
    let logs = vec![log(0x10, 5)];
    let mut run = begin(&mut space, &logs);
    let _ = space.next_log(&mut run, &logs, &vec![]);
    let error = SyncOutcome::Failed(AMMError::Other("bad data".to_string()));
    let step = space.pool_synced(&run, address(0x10), v2(0x10, 1), error);
    assert_eq!(
        step,
        Err(StateSpaceError::AMMError(AMMError::Other("bad data".to_string())))
    );
    assert_eq!(shown(&space, 0x10), format!("{:?}", Some(v2(0x10, 1))));
    assert_eq!(space.get_pools_by_token(&text(1)), vec![address(0x10)]);
}

#[test]
fn underflow_asks_for_a_reset() {
    let messages = [
        "attempt to subtract with overflow",
        "panicked: attempt to subtract with overflow at pool.rs",
        "LiquidityUnderflow",
        "called on Err: LiquidityUnderflow!",
    ];
    for message in messages {
        let mut space = space_of(vec![v3(0x10, 9, vec![1])]);
        let logs = vec![log(0x10, 5)];
        let mut run = begin_protected(&mut space, &logs, 8);
        assert_eq!(run.reset_block, 8);
        assert_eq!(
            space.next_log(&mut run, &logs, &vec![]),
            Ok(Step::SyncPool(address(0x10)))
        );
        let outcome = SyncOutcome::Panicked(message.to_string());
        let step = space.pool_synced(&run, address(0x10), v3(0x10, 0, vec![1]), outcome);
        let reset = PoolReset {
            address: address(0x10),
            factory_address: address(0xfa),
            variant: Variant::UniswapV3,
            block_number: 8,
        };
        assert_eq!(step, Ok(Step::ResetPool(reset)));
        space.pool_reset(&mut run, address(0x10), Ok(v3(0x10, 77, vec![2])));
        assert_eq!(space.finish_sync(run), vec![address(0x10)]);
        assert_eq!(shown(&space, 0x10), format!("{:?}", Some(v3(0x10, 77, vec![2]))));
        assert_eq!(space.get_pools_by_token(&text(3)), vec![address(0x10)]);
    }
}

#[test]
fn failed_reset_drops_the_pool() {
    let mut space = space_of(vec![v3(0x10, 9, vec![1])]);
    let logs = vec![log(0x10, 5)];
    let mut run = begin_protected(&mut space, &logs, 8);
    let _ = space.next_log(&mut run, &logs, &vec![]);
    let outcome = SyncOutcome::Panicked("LiquidityUnderflow".to_string());
    let _ = space.pool_synced(&run, address(0x10), v3(0x10, 4, vec![1]), outcome);
    space.pool_reset(&mut run, address(0x10), Err(AMMError::Other("gone".to_string())));
    assert!(space.get(&address(0x10)).is_none());
    assert!(space.get_pools_by_token(&text(3)).is_empty());
    assert_eq!(space.finish_sync(run), vec![address(0x10)]);
}

#[test]
fn other_panic_drops_the_pool() {
    for message in ["", "index out of bounds", "liquidityunderflow", "attempt to add with overflow"]
    {
        let mut space = space_of(vec![v3(0x10, 9, vec![1])]);
        let logs = vec![log(0x10, 5)];
        let mut run = begin_protected(&mut space, &logs, 8);
        let _ = space.next_log(&mut run, &logs, &vec![]);
        let outcome = SyncOutcome::Panicked(message.to_string());
        let step = space.pool_synced(&run, address(0x10), v3(0x10, 4, vec![1]), outcome);
        assert_eq!(step, Ok(Step::Settled));
        assert!(space.get(&address(0x10)).is_none());
        assert_eq!(space.token_to_pools.len(), 0);
        assert_eq!(space.token_pair_to_pools.len(), 0);
    }
}

#[test]
fn underflow_of_a_pool_that_has_no_reset_drops_it() {
    let mut space = space_of(vec![v2(0x10, 50_000)]);
    let logs = vec![log(0x10, 5)];
    let mut run = begin_protected(&mut space, &logs, 8);
    let _ = space.next_log(&mut run, &logs, &vec![]);
    let outcome = SyncOutcome::Panicked("LiquidityUnderflow".to_string());
    let step = space.pool_synced(&run, address(0x10), v2(0x10, 50_000), outcome);
    assert_eq!(step, Ok(Step::Settled));
    assert!(space.get(&address(0x10)).is_none());
}

#[test]
fn lost_ticks_ask_for_a_reset_in_a_protected_pass() {
    let logs = vec![log(0x10, 5)];
    let mut space = space_of(vec![v3(0x10, 9, vec![])]);
    let mut run = begin_protected(&mut space, &logs, 8);
    let step = space.next_log(&mut run, &logs, &vec![]);
    assert!(matches!(step, Ok(Step::ResetPool(reset)) if reset.address == address(0x10)
        && reset.block_number == 8));
    let mut space = space_of(vec![v3(0x10, 9, vec![])]);
    let mut run = begin(&mut space, &logs);
    assert_eq!(
        space.next_log(&mut run, &logs, &vec![]),
        Ok(Step::SyncPool(address(0x10)))
    );
    let mut space = space_of(vec![v3(0x10, 0, vec![])]);
    let mut run = begin_protected(&mut space, &logs, 8);
    assert_eq!(
        space.next_log(&mut run, &logs, &vec![]),
        Ok(Step::SyncPool(address(0x10)))
    );
}

#[test]
fn only_concentrated_liquidity_pools_can_be_reset() {
    let mut variant = v3(0x11, 9, vec![1]);
    if let Pool::UniswapV3Pool(pool) = variant.pool {
        variant.pool = Pool::UniswapV3VariantPool(pool);
    }
    let space = space_of(vec![v3(0x10, 9, vec![1]), variant, v2(0x12, 1), vault(0x13)]);
    let underflow = Err(StateSpaceError::AMMError(AMMError::UniswapV3Error(
        UniswapV3Error::LiquidityUnderflow,
    )));
    let reset = |at: u8, variant: Variant| {
        Ok(PoolReset { address: address(at), factory_address: address(0xfa), variant, block_number: 21 })
    };
    assert_eq!(
        space.reset_pool_to_initial_state(address(0x10), 21),
        reset(0x10, Variant::UniswapV3)
    );
    assert_eq!(
        space.reset_pool_to_initial_state(address(0x11), 21),
        reset(0x11, Variant::UniswapV3Variant)
    );
    assert_eq!(space.reset_pool_to_initial_state(address(0x12), 21), underflow);
    assert_eq!(space.reset_pool_to_initial_state(address(0x13), 21), underflow);
    assert_eq!(space.reset_pool_to_initial_state(address(0x14), 21), underflow);
}

#[test]
fn syncing_a_pool_that_is_gone_is_an_underflow() {
    let mut space = StateSpace::default();
    let logs = vec![log(0x10, 5)];
    let run = begin_protected(&mut space, &logs, 8);
    let step = space.pool_synced(&run, address(0x10), v2(0x10, 1), SyncOutcome::Synced);
    assert_eq!(
        step,
        Err(StateSpaceError::AMMError(AMMError::UniswapV3Error(
            UniswapV3Error::LiquidityUnderflow
        )))
    );
    assert!(space.get(&address(0x10)).is_none());
}

#[test]
fn protected_pass_takes_all_logs_for_one_block() {
    let mut space = space_of(vec![v2(0x10, 50_000), v2(0x11, 60_000)]);
    let logs = vec![log(0x10, 100), log(0x11, 101)];
    let mut run = begin_protected(&mut space, &logs, 101);
    for at in [0x10, 0x11] {
        let _ = space.next_log(&mut run, &logs, &vec![]);
        let _ = space.pool_synced(&run, address(at), v2(at, 70_000), SyncOutcome::Synced);
    }
    assert_eq!(space.finish_sync(run), vec![address(0x10), address(0x11)]);
    space.latest_block = 101;
    let again = vec![log(0x77, 101)];
    let _ = begin(&mut space, &again);
    assert_eq!(shown(&space, 0x11), format!("{:?}", Some(v2(0x11, 70_000))));
    let again = vec![log(0x77, 100)];
    let _ = begin(&mut space, &again);
    assert_eq!(shown(&space, 0x11), format!("{:?}", Some(v2(0x11, 60_000))));
}
