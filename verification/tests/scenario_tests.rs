use mysticeti_core::block_handler::TestBlockHandler;
use mysticeti_core::block_store::BlockStore;
use mysticeti_core::commit_observer::{CommitObserver, TestCommitHandler};
use mysticeti_core::committee::Committee;
use mysticeti_core::consensus::{Core, CoreOptions, OpenError};
use mysticeti_core::epoch_close::EpochManager;
use mysticeti_core::types::{AuthorityIndex, BlockReference, StatementBlock};
use mysticeti_core::wal::{CommitData, OwnBlockData, WalEntry, WalWriter, WAL_POSITION_MAX};

fn reference(authority: u64, round: u64) -> BlockReference {
    BlockReference::new(authority, round, 0)
}

fn block(authority: u64, round: u64, includes: Vec<BlockReference>) -> StatementBlock {
    StatementBlock::new(reference(authority, round), includes, vec![], 0).unwrap()
}

fn open_core(committee: &Committee, authority: AuthorityIndex, log: &Vec<WalEntry>) -> Core<TestBlockHandler> {
    let handler = TestBlockHandler::new(authority * 1_000_000, committee.clone(), authority);
    assert_eq!(Core::check_open(&handler, authority, committee, log), Ok(()));
    Core::open(handler, authority, committee.clone(), log, CoreOptions::test())
}

fn check(authority: AuthorityIndex, log: &Vec<WalEntry>) -> Result<(), OpenError> {
    let committee = Committee::new_test(4).unwrap();
    let handler = TestBlockHandler::new(0, committee.clone(), authority);
    Core::check_open(&handler, authority, &committee, log)
}

fn cores(n: usize) -> (Committee, Vec<Core<TestBlockHandler>>) {
    let committee = Committee::new_test(n).unwrap();
    let cores = (0..n as u64).map(|a| open_core(&committee, a, &Vec::new())).collect();
    (committee, cores)
}

/// Lets every core propose, then delivers all proposals to all cores.
fn exchange_round(cores: &mut Vec<Core<TestBlockHandler>>, round: u64) -> Vec<StatementBlock> {
    let mut blocks = vec![];
    for core in cores.iter_mut() {
        let block = core.try_new_block(round as u128).expect("every core can propose");
        assert_eq!(block.round(), round);
        blocks.push(block);
    }
    for core in cores.iter_mut() {
        core.add_blocks(blocks.clone());
    }
    blocks
}

#[test]
fn leader_commit_with_period_two() {
    let (committee, mut cores) = cores(4);
    for core in cores.iter_mut() {
        core.run_block_handler(&vec![]);
    }
    exchange_round(&mut cores, 1);
    assert!(cores[0].try_commit(2).is_empty());
    let round_two = exchange_round(&mut cores, 2);
    // The leader of round 2 has no votes yet: no block of round 3 is stored.
    assert!(cores[0].try_commit(2).is_empty());
    let round_three = exchange_round(&mut cores, 3);
    let leader = committee.elect_leader(1);
    assert_eq!(leader, 1);
    for b in &round_three {
        assert!(b.includes().contains(round_two[leader as usize].reference()));
    }
    let committed = cores[0].try_commit(2);
    assert_eq!(committed.len(), 1);
    assert_eq!(*committed[0].reference(), reference(1, 2));
    // Nothing more until the leader of round 4 has its votes.
    assert!(cores[0].try_commit(2).is_empty());
    exchange_round(&mut cores, 4);
    assert!(cores[0].try_commit(2).is_empty());
    exchange_round(&mut cores, 5);
    let committed = cores[0].try_commit(2);
    assert_eq!(committed.len(), 1);
    assert_eq!(*committed[0].reference(), reference(2, 4));
    assert!(cores[0].try_commit(2).is_empty());
}

#[test]
fn commit_is_the_same_on_every_node() {
    let (_committee, mut cores) = cores(4);
    for core in cores.iter_mut() {
        core.run_block_handler(&vec![]);
    }
    for round in 1..=5 {
        exchange_round(&mut cores, round);
    }
    let expected: Vec<BlockReference> = vec![reference(1, 2), reference(2, 4)];
    for core in cores.iter_mut() {
        let committed: Vec<BlockReference> =
            core.try_commit(2).iter().map(|b| *b.reference()).collect();
        assert_eq!(committed, expected);
    }
}

#[test]
fn commit_rounds_only_go_up() {
    let (_committee, mut cores) = cores(4);
    for core in cores.iter_mut() {
        core.run_block_handler(&vec![]);
    }
    let mut seen: Vec<BlockReference> = vec![];
    let mut last_round = 0;
    for round in 1..=9 {
        exchange_round(&mut cores, round);
        for leader in cores[2].try_commit(2) {
            assert!(leader.round() > last_round);
            assert!(!seen.contains(leader.reference()));
            last_round = leader.round();
            seen.push(*leader.reference());
        }
    }
    assert_eq!(seen, vec![reference(1, 2), reference(2, 4), reference(3, 6), reference(0, 8)]);
}

#[test]
fn skipped_leader_is_committed_through_a_later_anchor() {
    // Authority 0 takes in blocks made by hand. The leader of round 2 gets
    // only two votes, the leader of round 4 gets three and builds on it.
    let committee = Committee::new_test(4).unwrap();
    let mut core = open_core(&committee, 0, &Vec::new());
    let g: Vec<BlockReference> = (0..4).map(|a| reference(a, 0)).collect();
    let mut blocks = vec![];
    for a in 1..4 {
        blocks.push(block(a, 1, vec![g[a as usize], g[0]]));
    }
    // Round 2: the leader is authority 1.
    for a in 1..4 {
        blocks.push(block(a, 2, vec![reference(a, 1)]));
    }
    // Round 3: only authorities 1 and 2 include the leader of round 2.
    blocks.push(block(1, 3, vec![reference(1, 2)]));
    blocks.push(block(2, 3, vec![reference(2, 2), reference(1, 2)]));
    blocks.push(block(3, 3, vec![reference(3, 2)]));
    // Round 4: the leader is authority 2; it builds on the leader of round 2.
    for a in 1..4 {
        blocks.push(block(a, 4, vec![reference(a, 3)]));
    }
    // Round 5: all three include the leader of round 4.
    for a in 1..4 {
        let mut includes = vec![reference(a, 4)];
        if a != 2 {
            includes.push(reference(2, 4));
        }
        blocks.push(block(a, 5, includes));
    }
    let count = blocks.len();
    assert_eq!(core.add_blocks(blocks).len(), count);
    let committed: Vec<BlockReference> = core.try_commit(2).iter().map(|b| *b.reference()).collect();
    assert_eq!(committed, vec![reference(1, 2), reference(2, 4)]);
}

#[test]
fn unlinked_leader_is_skipped() {
    let committee = Committee::new_test(4).unwrap();
    let mut core = open_core(&committee, 0, &Vec::new());
    let g: Vec<BlockReference> = (0..4).map(|a| reference(a, 0)).collect();
    let mut blocks = vec![];
    for a in 1..4 {
        blocks.push(block(a, 1, vec![g[a as usize]]));
        blocks.push(block(a, 2, vec![reference(a, 1)]));
        blocks.push(block(a, 3, vec![reference(a, 2)]));
        blocks.push(block(a, 4, vec![reference(a, 3)]));
        let mut includes = vec![reference(a, 4)];
        if a != 2 {
            includes.push(reference(2, 4));
        }
        blocks.push(block(a, 5, includes));
    }
    core.add_blocks(blocks);
    // The leader of round 4 does not build on the leader of round 2, which no quorum voted for.
    let committed: Vec<BlockReference> = core.try_commit(2).iter().map(|b| *b.reference()).collect();
    assert_eq!(committed, vec![reference(2, 4)]);
}

#[test]
fn ancestor_compression() {
    let committee = Committee::new_test(4).unwrap();
    let mut core = open_core(&committee, 0, &Vec::new());
    core.run_block_handler(&vec![]);
    let own = core.try_new_block(0).unwrap();
    assert_eq!(
        own.includes().clone(),
        vec![reference(0, 0), reference(1, 0), reference(2, 0), reference(3, 0)]
    );
    let mut blocks = vec![];
    for a in 1..4 {
        blocks.push(block(a, 1, vec![reference(a, 0)]));
    }
    for a in 1u64..4 {
        let mut includes = vec![reference(a, 1)];
        for b in 1..4 {
            if b != a {
                includes.push(reference(b, 1));
            }
        }
        blocks.push(block(a, 2, includes));
    }
    core.add_blocks(blocks);
    assert_eq!(core.current_round(), 3);
    let proposed = core.try_new_block(0).unwrap();
    assert_eq!(proposed.round(), 3);
    // The three blocks of round 1 are reached through the blocks of round 2.
    assert_eq!(
        proposed.includes().clone(),
        vec![*own.reference(), reference(1, 2), reference(2, 2), reference(3, 2)]
    );
}

#[test]
fn own_blocks_carry_the_own_block_before_first() {
    let (_committee, mut cores) = cores(4);
    for core in cores.iter_mut() {
        core.run_block_handler(&vec![]);
    }
    let mut last: Vec<BlockReference> = (0..4).map(|a| reference(a, 0)).collect();
    for round in 1..=4 {
        let blocks = exchange_round(&mut cores, round);
        for (a, b) in blocks.iter().enumerate() {
            assert_eq!(b.includes()[0], last[a]);
            assert_eq!(b.includes()[0].authority, a as u64);
            assert!(b.includes()[0].round < b.round());
            assert!(b.round() > last[a].round);
            last[a] = *b.reference();
        }
    }
}

#[test]
fn stored_blocks_come_with_all_they_include() {
    let (_committee, mut cores) = cores(4);
    for core in cores.iter_mut() {
        core.run_block_handler(&vec![]);
    }
    for round in 1..=3 {
        exchange_round(&mut cores, round);
    }
    let store = cores[1].block_store();
    assert_eq!(store.len(), 4 + 3 * 4);
    for i in 0..store.len() {
        for named in store.block_at(i).includes() {
            let at = store.find(named).expect("a block that is included is stored");
            assert!(at < i);
        }
    }
}

#[test]
fn clock_never_goes_back() {
    let (_committee, mut cores) = cores(4);
    let mut round = cores[3].current_round();
    assert_eq!(round, 1);
    for core in cores.iter_mut() {
        core.run_block_handler(&vec![]);
    }
    for r in 1..=3 {
        let mut blocks = vec![];
        for core in cores.iter_mut() {
            blocks.push(core.try_new_block(0).unwrap());
        }
        for b in blocks.iter().rev() {
            for core in cores.iter_mut() {
                core.add_blocks(vec![b.clone()]);
            }
            assert!(cores[3].current_round() >= round);
            round = cores[3].current_round();
        }
        assert_eq!(round, r + 1);
    }
}

#[test]
fn reopened_core_proposes_the_same_block() {
    let (committee, mut cores) = cores(4);
    for core in cores.iter_mut() {
        core.run_block_handler(&vec![]);
    }
    exchange_round(&mut cores, 1);
    let mut log = vec![];
    let mut core = cores.remove(2);
    core.write_state();
    let (first, entries, sync) = core.take_wal_entries();
    assert_eq!(first, 0);
    assert!(!sync);
    log.extend(entries);
    let mut reopened = open_core(&committee, 2, &log);
    assert_eq!(reopened.current_round(), core.current_round());
    assert_eq!(reopened.backlog(), core.backlog());
    assert_eq!(reopened.last_proposed(), core.last_proposed());
    let a = core.try_new_block(77).unwrap();
    let b = reopened.try_new_block(77).unwrap();
    assert_eq!(a.reference(), b.reference());
    assert_eq!(a.includes(), b.includes());
    assert_eq!(a.time_ns(), b.time_ns());
    assert_eq!(a.statements().len(), b.statements().len());
    assert_eq!(format!("{:?}", a), format!("{:?}", b));
}

#[test]
fn core_opened_on_genesis_log_loses_the_buffered_genesis_blocks() {
    // The log cuts the buffer at the own genesis block, which is logged
    // after the other genesis blocks.
    let committee = Committee::new_test(4).unwrap();
    let mut core = open_core(&committee, 0, &Vec::new());
    let (_, log, _) = core.take_wal_entries();
    assert_eq!(log.len(), 4);
    assert_eq!(core.backlog(), (0, 3));
    let reopened = open_core(&committee, 0, &log);
    assert_eq!(reopened.backlog().0, 0);
    assert_eq!(reopened.last_proposed(), 0);
    assert_eq!(reopened.current_round(), 1);
    // Three includes are gone; one payload came from showing the blocks to the handler again.
    assert_eq!(reopened.backlog().1, 1);
}

#[test]
fn open_refuses_a_log_without_own_block_that_holds_a_payload() {
    assert_eq!(check(0, &vec![WalEntry::Payload(vec![])]), Err(OpenError::CorruptLog));
    assert_eq!(check(0, &vec![WalEntry::Block(StatementBlock::new_genesis(1))]), Err(OpenError::CorruptLog));
    // Snapshots and commits alone leave the core to start from genesis.
    assert_eq!(check(0, &vec![WalEntry::Commit(vec![], vec![])]), Ok(()));
    assert_eq!(check(0, &vec![]), Ok(()));
}

#[test]
fn open_refuses_a_block_logged_before_what_it_includes() {
    let log = vec![WalEntry::Block(block(1, 1, vec![reference(1, 0)]))];
    assert_eq!(check(0, &log), Err(OpenError::CorruptLog));
}

#[test]
fn open_refuses_an_own_block_of_another_authority() {
    let log = vec![WalEntry::OwnBlock(OwnBlockData {
        next_entry: WAL_POSITION_MAX,
        block: StatementBlock::new_genesis(1),
    })];
    assert_eq!(check(0, &log), Err(OpenError::CorruptLog));
    assert_eq!(check(1, &log), Ok(()));
}

#[test]
fn open_refuses_a_block_logged_twice() {
    let own = WalEntry::OwnBlock(OwnBlockData {
        next_entry: WAL_POSITION_MAX,
        block: StatementBlock::new_genesis(0),
    });
    let log = vec![
        own.clone(),
        WalEntry::Block(StatementBlock::new_genesis(1)),
        WalEntry::Block(StatementBlock::new_genesis(1)),
    ];
    assert_eq!(check(0, &log), Err(OpenError::CorruptLog));
    // An own block under a reference that is stored is recorded; the block stored stays.
    let log = vec![WalEntry::Block(StatementBlock::new_genesis(0)), own];
    assert_eq!(check(0, &log), Ok(()));
    let recovered = BlockStore::open(0, &log).unwrap();
    assert_eq!(recovered.block_store.len(), 1);
    assert_eq!(recovered.block_store.get_position(reference(0, 0)), Some(0));
    assert!(recovered.pending.is_empty());
    assert!(recovered.last_own_block.is_some());
}

#[test]
fn open_reports_a_snapshot_that_cannot_be_restored() {
    let committee = Committee::new_test(4).unwrap();
    let mut core = open_core(&committee, 0, &Vec::new());
    let (_, mut log, _) = core.take_wal_entries();
    log.push(WalEntry::State(vec![1, 2, 3]));
    assert_eq!(check(0, &log), Err(OpenError::BadState));
    core.write_state();
    let (_, more, _) = core.take_wal_entries();
    log.extend(more);
    assert_eq!(check(0, &log), Ok(()));
}

#[test]
fn open_keeps_the_last_commit_entry() {
    let committee = Committee::new_test(4).unwrap();
    let mut core = open_core(&committee, 0, &Vec::new());
    core.write_commits(
        &vec![CommitData { leader: reference(1, 2), sub_dag: vec![reference(1, 1), reference(1, 2)] }],
        &vec![9],
    );
    core.write_commits(
        &vec![
            CommitData { leader: reference(3, 6), sub_dag: vec![reference(3, 6)] },
            CommitData { leader: reference(2, 4), sub_dag: vec![reference(2, 3), reference(2, 4)] },
        ],
        &vec![7, 7],
    );
    let (_, log, _) = core.take_wal_entries();
    let mut reopened = open_core(&committee, 0, &log);
    assert!(reopened.has_recovered_committed_blocks());
    let (blocks, state) = reopened.take_recovered_committed_blocks();
    assert_eq!(blocks, vec![reference(3, 6), reference(2, 3), reference(2, 4)]);
    assert_eq!(state, Some(vec![7, 7]));
    assert!(!reopened.has_recovered_committed_blocks());
    // The leader of highest round in the last entry is of round 6.
    assert!(!reopened.ready_new_block(1) || reopened.current_round() % 1 != 1);
    assert!(reopened.try_commit(2).is_empty());
}

#[test]
fn own_block_is_made_durable_where_the_options_say_so() {
    let committee = Committee::new_test(4).unwrap();
    let handler = TestBlockHandler::new(0, committee.clone(), 0);
    let mut core = Core::open(handler, 0, committee, &Vec::new(), CoreOptions::production());
    let (_, _, sync) = core.take_wal_entries();
    assert!(!sync);
    core.try_new_block(0).unwrap();
    let (first, entries, sync) = core.take_wal_entries();
    assert_eq!(first, 4);
    assert_eq!(entries.len(), 1);
    assert_eq!(entries[0].tag(), 3);
    assert!(sync);
    assert!(CoreOptions::production().fsync());
    assert!(!CoreOptions::test().fsync());
}

#[test]
fn ready_new_block_waits_for_the_leader() {
    let (_committee, mut cores) = cores(7);
    for core in cores.iter_mut() {
        core.run_block_handler(&vec![]);
    }
    // Round 1 follows round 0, which has no leader to wait for.
    assert_eq!(cores[0].current_round(), 1);
    assert!(!cores[0].ready_new_block(2));
    assert!(!cores[0].ready_new_block(3));
    assert!(cores[0].ready_new_block(1));
    exchange_round(&mut cores, 1);
    assert_eq!(cores[0].current_round(), 2);
    assert!(cores[0].ready_new_block(2));
    // Deliver the blocks of round 2 but for the leader's, which is authority 1.
    let mut blocks = vec![];
    for core in cores.iter_mut() {
        blocks.push(core.try_new_block(0).unwrap());
    }
    let leaders_block = blocks.remove(1);
    cores[0].add_blocks(blocks);
    assert_eq!(cores[0].current_round(), 3);
    assert!(!cores[0].ready_new_block(2));
    assert!(cores[0].ready_new_block(3));
    cores[0].add_blocks(vec![leaders_block]);
    assert!(cores[0].ready_new_block(2));
}

#[test]
fn try_new_block_waits_for_the_clock() {
    let committee = Committee::new_test(4).unwrap();
    let mut core = open_core(&committee, 0, &Vec::new());
    assert_eq!(core.authority(), 0);
    assert_eq!(core.committee().len(), 4);
    assert!(core.try_new_block(5).is_some());
    assert_eq!(core.last_proposed(), 1);
    assert_eq!(core.last_own_block().next_entry, WAL_POSITION_MAX);
    assert!(core.try_new_block(5).is_none());
    assert_eq!(core.wal_room(), WAL_POSITION_MAX - 5);
}

#[test]
fn cutoff_names_the_first_entry_left() {
    let committee = Committee::new_test(4).unwrap();
    let mut core = open_core(&committee, 0, &Vec::new());
    // Round 1 blocks of two others arrive before the first proposal.
    core.add_blocks(vec![
        block(1, 1, vec![reference(1, 0)]),
        block(2, 1, vec![reference(2, 0)]),
    ]);
    let own = core.try_new_block(0).unwrap();
    assert_eq!(own.round(), 1);
    // The block takes the three genesis blocks; the blocks of round 1 stay.
    assert_eq!(own.includes().len(), 4);
    assert_eq!(core.backlog().1, 3);
    // Log: 4 genesis entries, 2 blocks, 1 payload, then the own block.
    assert_eq!(core.last_own_block().next_entry, 4);
    assert_eq!(own.statements().len(), 0);
    // The payload logged after the two blocks stays for the next block.
    core.add_blocks(vec![block(3, 1, vec![reference(3, 0)])]);
    let next = core.try_new_block(0).unwrap();
    assert_eq!(next.round(), 2);
    assert_eq!(next.includes().len(), 4);
    assert_eq!(core.last_own_block().next_entry, WAL_POSITION_MAX);
}

#[test]
fn commit_handler_follows_the_commits() {
    let (committee, mut cores) = cores(4);
    for core in cores.iter_mut() {
        core.run_block_handler(&vec![]);
    }
    for round in 1..=3 {
        exchange_round(&mut cores, round);
    }
    let mut handler = TestCommitHandler::new(committee.clone());
    let mut epoch = EpochManager::new();
    assert_eq!((epoch.observed_blocks(), epoch.last_observed()), (0, None));
    let leaders = cores[0].try_commit(2);
    let commits = handler.handle_commit(cores[0].block_store(), leaders, &mut epoch);
    assert_eq!(epoch.observed_blocks(), 9);
    assert_eq!(epoch.last_observed(), Some(reference(1, 2)));
    assert_eq!(commits.len(), 1);
    assert_eq!(commits[0].leader, reference(1, 2));
    // The leader of round 2 brings in all blocks of rounds 0 and 1, and itself.
    let mut expected = vec![];
    for round in 0..2 {
        for a in 0..4 {
            expected.push(reference(a, round));
        }
    }
    expected.push(reference(1, 2));
    assert_eq!(commits[0].sub_dag, expected);
    assert_eq!(handler.committed_leaders().clone(), vec![reference(1, 2)]);

    let state = handler.aggregator_state();
    let mut restored = TestCommitHandler::new(committee);
    assert!(!restored.can_recover(&expected, &None));
    assert!(!restored.can_recover(&expected, &Some(vec![1])));
    assert!(restored.can_recover(&vec![], &None));
    assert!(restored.can_recover(&expected, &Some(state.clone())));
    restored.recover_committed(expected.clone(), Some(state));
    assert!(!restored.can_recover(&vec![], &None));
    assert_eq!(restored.pending_certificates(), handler.pending_certificates());
    for round in 4..=5 {
        exchange_round(&mut cores, round);
    }
    let leaders = cores[0].try_commit(2);
    let mut other = EpochManager::new();
    let again = restored.handle_commit(cores[0].block_store(), leaders.clone(), &mut other);
    let first = handler.handle_commit(cores[0].block_store(), leaders, &mut epoch);
    assert_eq!(other.observed_blocks() as usize, again[0].sub_dag.len());
    assert_eq!(epoch.observed_blocks() as usize, 9 + first[0].sub_dag.len());
    assert_eq!(epoch.last_observed(), Some(reference(2, 4)));
    assert_eq!(again.len(), 1);
    assert_eq!(again[0].sub_dag, first[0].sub_dag);
    assert!(!again[0].sub_dag.contains(&reference(1, 2)));
    assert!(again[0].sub_dag.contains(&reference(0, 2)));
    assert_eq!(*again[0].sub_dag.last().unwrap(), reference(2, 4));
}

#[test]
fn insert_block_twice_keeps_the_position() {
    let mut store = BlockStore::new(0);
    let mut wal = WalWriter::resume(&Vec::new());
    let a = store.insert_block(&mut wal, StatementBlock::new_genesis(1));
    let b = store.insert_block(&mut wal, StatementBlock::new_genesis(2));
    let again = store.insert_block(&mut wal, StatementBlock::new_genesis(1));
    assert_eq!((a, b, again), (0, 1, 0));
    assert_eq!(wal.next_position(), 2);
    assert_eq!(store.len(), 2);
    assert!(store.block_exists_at_authority_round(2, 0));
    assert!(!store.block_exists_at_authority_round(2, 1));
    assert_eq!(store.get_position(reference(2, 0)), Some(1));
    assert!(store.get_block(reference(3, 0)).is_none());
    assert_eq!(store.highest_round(), 0);
}

#[test]
fn own_block_is_proposed_under_a_reference_that_is_stored() {
    let committee = Committee::new_test(4).unwrap();
    let mut core = open_core(&committee, 0, &Vec::new());
    // A block under the reference that the next own block gets arrives first.
    let foreign = StatementBlock::new(
        reference(0, 1),
        vec![reference(0, 0)],
        vec![],
        5,
    )
    .unwrap();
    assert_eq!(core.add_blocks(vec![foreign.clone()]).len(), 1);
    assert_eq!(core.current_round(), 1);
    assert_eq!(core.last_proposed(), 0);
    let own = core.try_new_block(9).expect("the clock is past the last own block");
    assert_eq!(*own.reference(), reference(0, 1));
    assert_eq!(own.time_ns(), 9);
    assert_eq!(own.includes()[0], reference(0, 0));
    assert_eq!(core.last_proposed(), 1);
    assert_eq!(core.last_own_block().block.time_ns(), 9);
    // The store keeps the block it held under the reference.
    assert_eq!(core.block_store().len(), 5);
    assert_eq!(core.block_store().get_block(reference(0, 1)).unwrap().time_ns(), 5);
    assert!(core.try_new_block(9).is_none());
    // The own block is in the log, and a core opened on the log has it as its last own block.
    let (_, log, _) = core.take_wal_entries();
    assert_eq!(log.last().unwrap().tag(), 3);
    let reopened = open_core(&committee, 0, &log);
    assert_eq!(reopened.last_proposed(), 1);
    assert_eq!(reopened.last_own_block().block.time_ns(), 9);
    assert_eq!(reopened.block_store().len(), 5);
}

#[test]
fn reopened_core_with_blocks_shown_again_proposes_the_same_includes() {
    let (committee, mut cores) = cores(4);
    for core in cores.iter_mut() {
        core.run_block_handler(&vec![]);
    }
    exchange_round(&mut cores, 1);
    let mut core = cores.remove(1);
    let (_, log, _) = core.take_wal_entries();
    let mut reopened = open_core(&committee, 1, &log);
    assert_eq!(reopened.backlog().1, core.backlog().1 + 1);
    let a = core.try_new_block(3).unwrap();
    let b = reopened.try_new_block(3).unwrap();
    assert_eq!(a.reference(), b.reference());
    assert_eq!(a.includes(), b.includes());
    // The block of the reopened core also states what the handler gave when it saw the blocks again.
    assert!(b.statements().len() > a.statements().len());
    let shared = format!("{:?}", &b.statements()[..a.statements().len()]);
    assert_eq!(shared, format!("{:?}", a.statements()));
}
