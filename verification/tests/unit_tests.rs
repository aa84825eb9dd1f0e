use mysticeti_core::aggregator::{TransactionAggregator, TransactionVoteResult};
use mysticeti_core::block_handler::{
    assert_constants, BlockHandler, RealBlockHandler, TestBlockHandler, TransactionGenerator,
    REAL_BLOCK_HANDLER_TXN_SIZE,
};
use mysticeti_core::block_manager::BlockManager;
use mysticeti_core::block_store::BlockStore;
use mysticeti_core::commit_interpreter::{insert_ordered, reference_before, CommitInterpreter};
use mysticeti_core::committee::{AuthoritySet, Committee};
use mysticeti_core::committer::Committer;
use mysticeti_core::dag::ancestors;
use mysticeti_core::sorting::round_order;
use mysticeti_core::state::RecoveredState;
use mysticeti_core::synchronizer::{
    sampling_candidates, BlockDisseminator, BlockFetcherWorker, NetworkMessage,
    SynchronizerParameters, StreamStart,
};
use mysticeti_core::threshold_clock::{threshold_clock_valid, ThresholdClockAggregator};
use mysticeti_core::types::{
    BaseStatement, BlockReference, StatementBlock, Transaction, TransactionLocator, Vote,
};
use mysticeti_core::consensus::MetaStatement;
use mysticeti_core::wal::{
    CommitData, OwnBlockData, WalEntry, WalWriter, WAL_ENTRY_BLOCK, WAL_ENTRY_COMMIT,
    WAL_ENTRY_OWN_BLOCK, WAL_ENTRY_PAYLOAD, WAL_ENTRY_STATE,
};
use mysticeti_core::wal_format::{checksum, encode_frame, read_frames};
use std::cmp::Ordering;

fn reference(authority: u64, round: u64) -> BlockReference {
    BlockReference::new(authority, round, 0)
}

fn block(authority: u64, round: u64, includes: Vec<BlockReference>) -> StatementBlock {
    StatementBlock::new(reference(authority, round), includes, vec![], 0).unwrap()
}

fn set_of(members: &[u64]) -> AuthoritySet {
    let mut set = AuthoritySet::new();
    for m in members {
        set.insert(*m);
    }
    set
}

#[test]
fn block_shape_is_checked() {
    // An include of the block's own round.
    assert!(StatementBlock::new(reference(1, 1), vec![reference(1, 1)], vec![], 0).is_none());
    // No include past genesis.
    assert!(StatementBlock::new(reference(1, 1), vec![], vec![], 0).is_none());
    // The first include is of another authority.
    assert!(StatementBlock::new(reference(1, 2), vec![reference(2, 1), reference(1, 1)], vec![], 0).is_none());
    // A genesis block includes nothing.
    assert!(StatementBlock::new(reference(1, 0), vec![reference(1, 0)], vec![], 0).is_none());
    let b = StatementBlock::new(reference(1, 2), vec![reference(1, 1), reference(2, 0)], vec![], 9).unwrap();
    assert_eq!(b.author(), 1);
    assert_eq!(b.round(), 2);
    assert_eq!(b.time_ns(), 9);
    assert_eq!(b.reference().round(), 2);
    assert_eq!(b.reference().author(), 1);
    let g = StatementBlock::new_genesis(3);
    assert_eq!(*g.reference(), BlockReference::new(3, 0, 0));
    assert!(g.includes().is_empty() && g.statements().is_empty());
}

#[test]
fn shared_transactions_are_located_by_offset() {
    let k = TransactionLocator::new(reference(0, 1), 0);
    let b = StatementBlock::new(
        reference(2, 1),
        vec![reference(2, 0)],
        vec![
            BaseStatement::Share(Transaction::new(vec![1])),
            BaseStatement::Vote(k, Vote::Accept),
            BaseStatement::Share(Transaction::new(vec![2, 3])),
        ],
        0,
    )
    .unwrap();
    assert_eq!(
        b.shared_transactions(),
        vec![TransactionLocator::new(reference(2, 1), 0), TransactionLocator::new(reference(2, 1), 2)]
    );
}

#[test]
fn committee_thresholds() {
    assert!(Committee::new(vec![]).is_none());
    assert!(Committee::new(vec![u64::MAX, 1]).is_none());
    assert!(Committee::new_test(0).is_none());
    let c = Committee::new_test(4).unwrap();
    assert_eq!(c.len(), 4);
    assert_eq!(c.total_stake(), 4);
    assert_eq!(c.quorum_threshold(), 3);
    assert_eq!(c.validity_threshold(), 2);
    let c = Committee::new(vec![5, 1, 1, 3]).unwrap();
    assert_eq!(c.total_stake(), 10);
    assert_eq!(c.quorum_threshold(), 7);
    assert_eq!(c.validity_threshold(), 4);
    assert_eq!(c.get_stake(3), Some(3));
    assert_eq!(c.get_stake(4), None);
    assert!(c.known_authority(3) && !c.known_authority(4));
    assert_eq!(c.stake_of(&set_of(&[0, 2, 9])), 6);
    assert!(!c.is_quorum(&set_of(&[0, 1])));
    assert!(c.is_quorum(&set_of(&[0, 1, 2])));
    assert!(c.is_quorum(&set_of(&[0, 3])));
    let c = Committee::new(vec![u64::MAX]).unwrap();
    assert_eq!(c.quorum_threshold(), 12297829382473034411);
}

#[test]
fn leaders_take_turns() {
    let c = Committee::new_test(4).unwrap();
    let leaders: Vec<u64> = (0..9).map(|wave| c.elect_leader(wave)).collect();
    assert_eq!(leaders, vec![0, 1, 2, 3, 0, 1, 2, 3, 0]);
}

#[test]
fn genesis_blocks_of_a_committee() {
    let c = Committee::new_test(3).unwrap();
    let (own, others) = c.genesis_blocks(1);
    assert_eq!(*own.reference(), reference(1, 0));
    let others: Vec<BlockReference> = others.iter().map(|b| *b.reference()).collect();
    assert_eq!(others, vec![reference(0, 0), reference(2, 0)]);
}

#[test]
fn authority_set_holds_each_member_once() {
    let mut set = AuthoritySet::new();
    assert!(set.insert(3));
    assert!(!set.insert(3));
    assert!(set.insert(1));
    assert!(set.contains(1) && set.contains(3) && !set.contains(2));
    assert_eq!(set.members().clone(), vec![3, 1]);
}

#[test]
fn clock_moves_on_with_a_quorum() {
    let c = Committee::new_test(4).unwrap();
    let mut clock = ThresholdClockAggregator::new(0);
    assert_eq!(clock.get_round(), 0);
    clock.add_block(reference(0, 0), &c);
    clock.add_block(reference(1, 0), &c);
    assert_eq!(clock.get_round(), 0);
    clock.add_block(reference(1, 0), &c);
    assert_eq!(clock.get_round(), 0);
    clock.add_block(reference(2, 0), &c);
    assert_eq!(clock.get_round(), 1);
    // Blocks of later rounds count for the rounds before them.
    clock.add_block(reference(0, 3), &c);
    clock.add_block(reference(1, 1), &c);
    assert_eq!(clock.get_round(), 1);
    clock.add_block(reference(2, 2), &c);
    assert_eq!(clock.get_round(), 2);
    clock.add_block(reference(3, 2), &c);
    assert_eq!(clock.get_round(), 3);
    // An old block changes nothing.
    clock.add_block(reference(3, 0), &c);
    assert_eq!(clock.get_round(), 3);
}

#[test]
fn clock_ignores_the_stake_of_strangers() {
    let c = Committee::new_test(4).unwrap();
    let mut clock = ThresholdClockAggregator::new(0);
    for a in 4..10 {
        clock.add_block(reference(a, 0), &c);
    }
    assert_eq!(clock.get_round(), 0);
}

#[test]
fn block_validity_against_the_clock() {
    let c = Committee::new_test(4).unwrap();
    assert!(!threshold_clock_valid(&StatementBlock::new_genesis(0), &c));
    let two = block(0, 1, vec![reference(0, 0), reference(1, 0)]);
    assert!(!threshold_clock_valid(&two, &c));
    let three = block(0, 1, vec![reference(0, 0), reference(1, 0), reference(3, 0)]);
    assert!(threshold_clock_valid(&three, &c));
    // Only the round before counts.
    let old = block(0, 2, vec![reference(0, 1), reference(1, 0), reference(2, 0), reference(3, 0)]);
    assert!(!threshold_clock_valid(&old, &c));
}

#[test]
fn block_manager_holds_blocks_back() {
    let mut store = BlockStore::new(0);
    let mut wal = WalWriter::resume(&Vec::new());
    let mut manager = BlockManager::new();
    let a1 = block(1, 1, vec![reference(1, 0)]);
    let a2 = block(1, 2, vec![reference(1, 1), reference(2, 1)]);
    let b1 = block(2, 1, vec![reference(2, 0)]);
    let processed = manager.add_blocks(vec![a2.clone(), a1.clone()], &mut store, &mut wal);
    assert!(processed.is_empty());
    assert_eq!(manager.len(), 2);
    assert_eq!(
        manager.missing_blocks(&store),
        vec![reference(1, 1), reference(2, 1), reference(1, 0)]
    );
    let processed = manager.add_blocks(
        vec![StatementBlock::new_genesis(2), b1.clone(), StatementBlock::new_genesis(1)],
        &mut store,
        &mut wal,
    );
    let order: Vec<(u64, BlockReference)> =
        processed.iter().map(|(p, b)| (*p, *b.reference())).collect();
    assert_eq!(
        order,
        vec![
            (0, reference(2, 0)),
            (1, reference(1, 0)),
            (2, reference(1, 1)),
            (3, reference(2, 1)),
            (4, reference(1, 2)),
        ]
    );
    assert_eq!(manager.len(), 0);
    assert_eq!(wal.next_position(), 5);
    // A block that is stored is dropped.
    let processed = manager.add_blocks(vec![a1, b1], &mut store, &mut wal);
    assert!(processed.is_empty());
    assert_eq!(manager.len(), 0);
    assert_eq!(wal.room(), u64::MAX - 5);
    let (first, entries, sync) = wal.take_entries();
    assert_eq!((first, entries.len(), sync), (0, 5, false));
    wal.request_sync();
    let (first, entries, sync) = wal.take_entries();
    assert_eq!((first, entries.len(), sync), (5, 0, true));
}

#[test]
fn votes_certify_at_the_quorum() {
    let c = Committee::new_test(4).unwrap();
    let k = TransactionLocator::new(reference(0, 1), 0);
    let other = TransactionLocator::new(reference(0, 1), 1);
    let mut votes = TransactionAggregator::new();
    assert!(!votes.is_processed(&k));
    votes.register(k, 0, &c);
    assert_eq!(votes.vote(k, 1, Vote::Accept, &c), TransactionVoteResult::VoteAccepted);
    assert_eq!(votes.vote(k, 1, Vote::Accept, &c), TransactionVoteResult::VoteAccepted);
    assert_eq!(votes.vote(k, 7, Vote::Accept, &c), TransactionVoteResult::UnknownAuthority);
    assert_eq!(votes.vote(k, 2, Vote::Reject, &c), TransactionVoteResult::VoteAccepted);
    assert!(!votes.is_processed(&k));
    assert_eq!(votes.vote(k, 3, Vote::Accept, &c), TransactionVoteResult::Processed);
    assert!(votes.is_processed(&k));
    assert!(!votes.is_processed(&other));
    // The notification comes once.
    assert_eq!(votes.vote(k, 2, Vote::Accept, &c), TransactionVoteResult::VoteAccepted);
    assert!(votes.is_processed(&k));
    assert!(!votes.is_rejected(&k));
    assert_eq!(votes.vote(k, 0, Vote::Reject, &c), TransactionVoteResult::VoteAccepted);
    assert_eq!(votes.vote(k, 1, Vote::Reject, &c), TransactionVoteResult::Rejected);
    assert!(votes.is_rejected(&k));
    assert_eq!(votes.len(), 1);
}

#[test]
fn weighted_votes_certify_by_stake() {
    let c = Committee::new(vec![5, 1, 1, 3]).unwrap();
    let k = TransactionLocator::new(reference(0, 1), 0);
    let mut votes = TransactionAggregator::new();
    assert_eq!(votes.vote(k, 1, Vote::Accept, &c), TransactionVoteResult::VoteAccepted);
    assert_eq!(votes.vote(k, 2, Vote::Accept, &c), TransactionVoteResult::VoteAccepted);
    assert_eq!(votes.vote(k, 3, Vote::Accept, &c), TransactionVoteResult::VoteAccepted);
    assert_eq!(votes.vote(k, 0, Vote::Accept, &c), TransactionVoteResult::Processed);
}

#[test]
fn processing_a_block_counts_its_votes() {
    let c = Committee::new_test(4).unwrap();
    let k = TransactionLocator::new(reference(0, 1), 0);
    let mut votes = TransactionAggregator::new();
    votes.register(k, 0, &c);
    votes.register(k, 2, &c);
    let b = StatementBlock::new(
        reference(1, 2),
        vec![reference(1, 1)],
        vec![BaseStatement::Share(Transaction::new(vec![])), BaseStatement::Vote(k, Vote::Accept)],
        0,
    )
    .unwrap();
    let (certified, response) = votes.process_block(&b, true, &c);
    assert_eq!(certified, vec![k]);
    assert_eq!(response.len(), 1);
    let shared = TransactionLocator::new(reference(1, 2), 0);
    assert!(matches!(&response[0], BaseStatement::Vote(l, Vote::Accept) if *l == shared));
    let (certified, response) = votes.process_block(&b, false, &c);
    assert!(certified.is_empty() && response.is_empty());
}

#[test]
fn test_handler_shares_and_votes() {
    let c = Committee::new_test(4).unwrap();
    let mut handler = TestBlockHandler::new(10, c, 0);
    let share = StatementBlock::new(
        reference(1, 1),
        vec![reference(1, 0)],
        vec![BaseStatement::Share(Transaction::new(vec![1]))],
        0,
    )
    .unwrap();
    let statements = handler.handle_blocks(&vec![share]);
    assert_eq!(handler.last_transaction(), 11);
    assert_eq!(statements.len(), 2);
    assert!(matches!(&statements[0], BaseStatement::Share(t) if t.data() == &11u64.to_le_bytes().to_vec()));
    let shared = TransactionLocator::new(reference(1, 1), 0);
    assert!(matches!(&statements[1], BaseStatement::Vote(l, Vote::Accept) if *l == shared));
    assert!(handler.processed().is_empty());
    assert_eq!(TestBlockHandler::make_transaction(258).data().clone(), vec![2, 1, 0, 0, 0, 0, 0, 0]);
    // Own blocks move the counter on when they are seen again.
    let own = StatementBlock::new(
        reference(0, 1),
        vec![reference(0, 0)],
        vec![BaseStatement::Share(Transaction::new(vec![])), BaseStatement::Share(Transaction::new(vec![]))],
        0,
    )
    .unwrap();
    handler.handle_blocks(&vec![own.clone()]);
    assert_eq!(handler.last_transaction(), 14);
    handler.handle_proposal(&own);
    assert_eq!(handler.proposed().len(), 2);
    handler.handle_transactions(vec![Transaction::new(vec![5])]);
    assert_eq!(handler.handle_blocks(&vec![]).len(), 1);
}

#[test]
fn handler_snapshot_round_trip() {
    let c = Committee::new_test(4).unwrap();
    let fresh = TestBlockHandler::new(7, c.clone(), 0);
    // One word of length, then the counter: sixteen bytes.
    assert_eq!(fresh.state(), vec![1, 0, 0, 0, 0, 0, 0, 0, 7, 0, 0, 0, 0, 0, 0, 0]);

    let mut handler = TestBlockHandler::new(7, c.clone(), 0);
    let own = StatementBlock::new(
        reference(0, 1),
        vec![reference(0, 0)],
        vec![BaseStatement::Share(Transaction::new(vec![]))],
        0,
    )
    .unwrap();
    handler.handle_proposal(&own);
    let k = TransactionLocator::new(reference(0, 1), 0);
    let votes = |a: u64| {
        StatementBlock::new(
            reference(a, 2),
            vec![reference(a, 1)],
            vec![BaseStatement::Vote(k, Vote::Accept)],
            0,
        )
        .unwrap()
    };
    handler.handle_blocks(&vec![votes(1)]);
    assert!(!handler.is_certified(&k));
    let state = handler.state();
    // The counter and two votes of six words each.
    assert_eq!(state.len(), 8 + 8 * 13);
    assert_eq!(&state[0..16], &[13, 0, 0, 0, 0, 0, 0, 0, 8, 0, 0, 0, 0, 0, 0, 0]);

    let mut restored = TestBlockHandler::new(0, c.clone(), 0);
    assert!(restored.can_recover(&state));
    restored.recover_state(&state);
    assert_eq!(restored.last_transaction(), 8);
    assert_eq!(restored.state(), state);
    assert!(!restored.is_certified(&k));
    restored.handle_blocks(&vec![votes(2)]);
    assert!(restored.is_certified(&k));
    assert_eq!(restored.processed().clone(), vec![k]);

    let mut other = TestBlockHandler::new(3, c.clone(), 0);
    assert!(!other.can_recover(&vec![]));
    assert!(!other.can_recover(&state[..state.len() - 1].to_vec()));
    // A list of no words has no counter.
    assert!(!other.can_recover(&vec![0; 8]));
    // A counter and five words are no list of votes.
    let mut short = vec![6, 0, 0, 0, 0, 0, 0, 0];
    short.extend(vec![0; 48]);
    assert!(!other.can_recover(&short));
    // The sixth word of a vote is 0 or 1.
    let mut wrong = vec![7, 0, 0, 0, 0, 0, 0, 0];
    wrong.extend(vec![0; 48]);
    wrong.extend(vec![2, 0, 0, 0, 0, 0, 0, 0]);
    assert!(!other.can_recover(&wrong));
    assert_eq!(other.last_transaction(), 3);
    // Bytes after the last word are ignored.
    let mut longer = state.clone();
    longer.push(9);
    assert!(other.can_recover(&longer));
    other.recover_state(&longer);
    assert_eq!(other.last_transaction(), 8);
}

#[test]
fn real_handler_shares_what_clients_hand_in() {
    let c = Committee::new_test(4).unwrap();
    let mut handler = RealBlockHandler::new(c.clone(), 2);
    assert!(handler.handle_blocks(&vec![]).is_empty());
    handler.handle_transactions(vec![Transaction::new(vec![1]), Transaction::new(vec![2])]);
    handler.handle_transactions(vec![Transaction::new(vec![3])]);
    let statements = handler.handle_blocks(&vec![]);
    let shared: Vec<Vec<u8>> = statements
        .iter()
        .map(|s| match s {
            BaseStatement::Share(t) => t.data().clone(),
            _ => panic!("a vote among the shares"),
        })
        .collect();
    assert_eq!(shared, vec![vec![1], vec![2], vec![3]]);
    assert!(handler.handle_blocks(&vec![]).is_empty());
    let own = StatementBlock::new(reference(2, 1), vec![reference(2, 0)], statements, 0).unwrap();
    handler.handle_proposal(&own);
    assert_eq!(handler.pending_certificates(), 3);
    let state = handler.state();
    let mut restored = RealBlockHandler::new(c, 2);
    assert!(restored.can_recover(&state));
    restored.recover_state(&state);
    assert_eq!(restored.pending_certificates(), 3);
    assert_eq!(restored.state(), state);
    assert!(!restored.can_recover(&vec![1]));
    assert!(!restored.is_certified(&TransactionLocator::new(reference(2, 1), 0)));
}

#[test]
fn generated_transactions_have_their_size() {
    assert_constants();
    let mut generator = TransactionGenerator::start(3, 5, 40);
    assert_eq!(generator.initial_delay_ms(), 40);
    let first = generator.run();
    let second = generator.run();
    assert_eq!(first.len(), 5);
    for t in first.iter().chain(second.iter()) {
        assert_eq!(t.data().len(), REAL_BLOCK_HANDLER_TXN_SIZE);
    }
    assert_ne!(first[0].data(), first[1].data());
    assert_ne!(first[0].data(), second[0].data());
    // The same seed gives the same transactions.
    let mut again = TransactionGenerator::start(3, 5, 40);
    assert_eq!(again.run()[4].data(), first[4].data());
}

#[test]
fn references_compare_by_round() {
    assert_eq!(round_order(&reference(5, 1), &reference(0, 2)), Ordering::Less);
    assert_eq!(round_order(&reference(0, 2), &reference(5, 1)), Ordering::Greater);
    assert_eq!(round_order(&reference(0, 2), &reference(5, 2)), Ordering::Equal);
}

#[test]
fn missing_blocks_are_asked_for_by_round() {
    let worker = BlockFetcherWorker::new(0, false);
    let mut missing = vec![vec![], vec![], vec![]];
    for i in 0..7 {
        missing[0].push(reference(0, 20 - i));
        missing[2].push(reference(2, 17 - i));
        missing[1].push(reference(1, 2 * i));
    }
    let requests = worker.sync_strategy(&missing);
    assert_eq!(requests.len(), 3);
    let mut all = vec![];
    for (i, r) in requests.iter().enumerate() {
        match r {
            NetworkMessage::RequestBlocks(references) => {
                assert_eq!(references.len(), if i < 2 { 10 } else { 1 });
                all.extend(references.clone());
            }
            _ => panic!("not a request"),
        }
    }
    assert_eq!(all.len(), 21);
    for pair in all.windows(2) {
        assert!(pair[0].round <= pair[1].round);
    }
    // Blocks of one round keep the order in which they were listed.
    let of_14: Vec<u64> = all.iter().filter(|r| r.round == 14).map(|r| r.authority).collect();
    assert_eq!(of_14, vec![0, 2]);
    let of_12: Vec<u64> = all.iter().filter(|r| r.round == 12).map(|r| r.authority).collect();
    assert_eq!(of_12, vec![1, 2]);
    assert_eq!(all[0], reference(1, 0));
    assert_eq!(all[20], reference(0, 20));

    assert!(BlockFetcherWorker::new(0, true).sync_strategy(&missing).is_empty());
    assert!(worker.sync_strategy(&vec![]).is_empty());
}

#[test]
fn peers_are_registered_once() {
    let mut worker = BlockFetcherWorker::new(1, false);
    assert_eq!(worker.id(), 1);
    assert!(worker.register_authority(3));
    assert!(worker.register_authority(2));
    assert!(!worker.register_authority(3));
    assert_eq!(worker.peers().clone(), vec![3, 2]);
    worker.remove_authority(3);
    worker.remove_authority(7);
    assert_eq!(worker.peers().clone(), vec![2]);
    assert_eq!(worker.sample_precision_ms(), 600);
}

#[test]
fn slow_peers_weigh_less() {
    let peers = vec![(0, 0), (1, 59_999), (2, 60_000), (3, 1_000_000), (4, 100)];
    assert_eq!(
        sampling_candidates(&peers, &vec![0, 9]),
        vec![(1, 1), (2, 0), (3, 0), (4, 59_900)]
    );
    assert_eq!(sampling_candidates(&peers, &vec![])[0], (0, 60_000));
}

fn store_with(blocks: Vec<StatementBlock>) -> BlockStore {
    let mut store = BlockStore::new(0);
    let mut wal = WalWriter::resume(&Vec::new());
    for b in blocks {
        assert!(store.has_includes(b.includes()));
        store.insert_block(&mut wal, b);
    }
    store
}

fn chain(authority: u64, rounds: u64) -> Vec<StatementBlock> {
    let mut blocks = vec![StatementBlock::new_genesis(authority)];
    for r in 1..=rounds {
        blocks.push(block(authority, r, vec![reference(authority, r - 1)]));
    }
    blocks
}

#[test]
fn requested_blocks_are_sent_in_chunks() {
    let store = store_with(chain(1, 24));
    let disseminator = BlockDisseminator::new(5, SynchronizerParameters::default_parameters());
    assert_eq!(disseminator.peer(), 5);
    let mut wanted = vec![reference(9, 9)];
    for r in 0..23 {
        wanted.push(reference(1, 23 - r));
    }
    wanted.push(reference(1, 99));
    let messages = disseminator.send_blocks(&store, &wanted);
    assert_eq!(messages.len(), 4);
    let mut sent = vec![];
    for (i, m) in messages.iter().take(3).enumerate() {
        match m {
            NetworkMessage::Blocks(blocks) => {
                assert_eq!(blocks.len(), if i < 2 { 10 } else { 3 });
                sent.extend(blocks.iter().map(|b| b.round()));
            }
            _ => panic!("not blocks"),
        }
    }
    assert_eq!(sent, (1..=23).rev().collect::<Vec<u64>>());
    assert!(matches!(&messages[3], NetworkMessage::BlockNotFound(m) if *m == vec![reference(9, 9), reference(1, 99)]));
    let none = disseminator.send_blocks(&store, &vec![]);
    assert_eq!(none.len(), 1);
    assert!(matches!(&none[0], NetworkMessage::BlockNotFound(m) if m.is_empty()));
    // A full last chunk is not followed by an empty one.
    let ten: Vec<BlockReference> = (1..=10).map(|r| reference(1, r)).collect();
    assert_eq!(disseminator.send_blocks(&store, &ten).len(), 2);
}

#[test]
fn streams_send_blocks_by_round() {
    let mut blocks = chain(0, 5);
    blocks.extend(chain(1, 3));
    // Stored out of order of rounds: a block by authority 2 of round 4 first.
    let mut store = store_with(blocks);
    let mut wal = WalWriter::resume(&Vec::new());
    store.insert_block(&mut wal, StatementBlock::new_genesis(2));
    store.insert_block(&mut wal, StatementBlock::new(BlockReference::new(2, 4, 1), vec![reference(2, 0)], vec![], 0).unwrap());
    store.insert_block(&mut wal, block(2, 2, vec![reference(2, 0)]));
    store.insert_block(&mut wal, block(2, 4, vec![reference(2, 2)]));

    let rounds = |blocks: Vec<StatementBlock>| -> Vec<(u64, u64)> {
        blocks.iter().map(|b| (b.round(), b.reference().digest)).collect()
    };
    assert_eq!(rounds(store.get_own_blocks(1, 3)), vec![(2, 0), (3, 0), (4, 0)]);
    assert_eq!(rounds(store.get_own_blocks(4, 3)), vec![(5, 0)]);
    assert_eq!(rounds(store.get_own_blocks(5, 3)), vec![]);
    assert_eq!(rounds(store.get_own_blocks(0, 0)), vec![]);
    assert_eq!(rounds(store.get_others_blocks(0, 2, 10)), vec![(2, 0), (4, 0), (4, 1)]);
    assert_eq!(rounds(store.get_others_blocks(0, 2, 2)), vec![(2, 0), (4, 0)]);
    assert_eq!(rounds(store.get_others_blocks(0, 0, 10)), vec![]);
    assert_eq!(rounds(store.get_others_blocks(3, 1, 10)), vec![]);

    match BlockDisseminator::stream_own_blocks(&store, 2, 2) {
        Some((NetworkMessage::Blocks(blocks), next)) => {
            assert_eq!(rounds(blocks), vec![(3, 0), (4, 0)]);
            assert_eq!(next, 4);
        }
        _ => panic!("the stream has blocks to send"),
    }
    assert!(BlockDisseminator::stream_own_blocks(&store, 5, 2).is_none());
    let (messages, next) = BlockDisseminator::stream_others_blocks(&store, 1, 1, 10);
    assert_eq!(next, 3);
    assert_eq!(messages.len(), 2);
    assert!(matches!(&messages[1], NetworkMessage::Block(b) if *b.reference() == reference(1, 3)));
    let (messages, next) = BlockDisseminator::stream_others_blocks(&store, 7, 1, 10);
    assert!(messages.is_empty());
    assert_eq!(next, 7);
}

#[test]
fn helper_streams_are_limited() {
    let parameters = SynchronizerParameters::default_parameters();
    let mut d = BlockDisseminator::new(1, parameters);
    assert_eq!(
        d.disseminate_own_blocks(4),
        StreamStart { replaces: false, round: 4, batch_size: 100 }
    );
    assert_eq!(
        d.disseminate_own_blocks(9),
        StreamStart { replaces: true, round: 9, batch_size: 100 }
    );
    assert!(d.disseminate_others_blocks(1, 2).is_some());
    assert_eq!(
        d.disseminate_others_blocks(3, 3),
        Some(StreamStart { replaces: false, round: 3, batch_size: 100 })
    );
    assert!(d.disseminate_others_blocks(1, 0).is_none());
    assert_eq!(d.shutdown(), (true, 2));
    assert_eq!(BlockDisseminator::new(1, parameters).shutdown(), (false, 0));
}

#[test]
fn checksum_of_the_check_string() {
    assert_eq!(checksum(b"123456789"), 0xCBF4_3926);
    assert_eq!(checksum(b""), 0);
    assert_eq!(checksum(b"a"), 0xE8B7_BE43);
}

#[test]
fn frames_are_read_back() {
    let frame = encode_frame(3, &vec![1, 2, 3]).unwrap();
    assert_eq!(frame[0..8].to_vec(), vec![3, 0, 0, 0, 3, 0, 0, 0]);
    assert_eq!(frame[8..11].to_vec(), vec![1, 2, 3]);
    assert_eq!(frame[11..].to_vec(), checksum(&[1, 2, 3]).to_le_bytes().to_vec());
    let mut log = frame.clone();
    log.extend(encode_frame(0x0102, &vec![]).unwrap());
    log.extend(encode_frame(5, &vec![7; 300]).unwrap());
    let frames = read_frames(&log);
    let read: Vec<(u64, u16, usize)> =
        frames.iter().map(|f| (f.offset, f.tag, f.payload.len())).collect();
    assert_eq!(read, vec![(0, 3, 3), (15, 0x0102, 0), (27, 5, 300)]);
    assert_eq!(frames[2].payload, vec![7; 300]);

    // A frame cut short ends the log.
    for cut in 1..312 {
        assert_eq!(read_frames(&log[..log.len() - cut].to_vec()).len(), 2);
    }
    assert_eq!(read_frames(&log[..26].to_vec()).len(), 1);
    assert_eq!(read_frames(&vec![]).len(), 0);
    // So does a frame whose checksum does not match.
    let mut damaged = log.clone();
    damaged[24] ^= 1;
    assert_eq!(read_frames(&damaged).len(), 1);
    let mut damaged = log.clone();
    damaged[9] ^= 0x80;
    assert_eq!(read_frames(&damaged).len(), 0);
    // The reserved bytes are not checked.
    let mut reserved = log.clone();
    reserved[6] = 9;
    assert_eq!(read_frames(&reserved).len(), 3);
}

#[test]
fn log_entries_have_their_tags() {
    assert_eq!(
        (WAL_ENTRY_BLOCK, WAL_ENTRY_PAYLOAD, WAL_ENTRY_OWN_BLOCK, WAL_ENTRY_STATE, WAL_ENTRY_COMMIT),
        (1, 2, 3, 4, 5)
    );
    let g = StatementBlock::new_genesis(0);
    assert_eq!(WalEntry::Block(g.clone()).tag(), 1);
    assert_eq!(WalEntry::Payload(vec![]).tag(), 2);
    assert_eq!(WalEntry::OwnBlock(OwnBlockData { next_entry: 0, block: g }).tag(), 3);
    assert_eq!(WalEntry::State(vec![]).tag(), 4);
    let commit = CommitData { leader: reference(0, 0), sub_dag: vec![] };
    assert_eq!(WalEntry::Commit(vec![commit.clone()], vec![]).clone().tag(), 5);
    assert_eq!(commit.clone().leader, reference(0, 0));
}

#[test]
fn recovery_reads_the_log_in_order() {
    let share = BaseStatement::Share(Transaction::new(vec![1]));
    let log = vec![
        WalEntry::Block(StatementBlock::new_genesis(1)),
        WalEntry::OwnBlock(OwnBlockData { next_entry: u64::MAX, block: StatementBlock::new_genesis(0) }),
        WalEntry::Block(block(1, 1, vec![reference(1, 0)])),
        WalEntry::Payload(vec![share.clone()]),
        WalEntry::State(vec![4]),
        WalEntry::Block(block(1, 2, vec![reference(1, 1)])),
        WalEntry::OwnBlock(OwnBlockData { next_entry: 3, block: block(0, 2, vec![reference(0, 0), reference(1, 1)]) }),
        WalEntry::State(vec![5]),
        WalEntry::Payload(vec![]),
        WalEntry::Block(StatementBlock::new_genesis(2)),
    ];
    let s: RecoveredState = BlockStore::open(0, &log).unwrap();
    assert_eq!(s.block_store.len(), 6);
    assert_eq!(s.block_store.authority(), 0);
    assert_eq!(s.block_store.get_position(reference(0, 2)), Some(6));
    let own = s.last_own_block.unwrap();
    assert_eq!((own.next_entry, *own.block.reference()), (3, reference(0, 2)));
    let pending: Vec<(u64, bool)> = s
        .pending
        .iter()
        .map(|(p, m)| (*p, matches!(m, MetaStatement::Include(_))))
        .collect();
    assert_eq!(pending, vec![(3, false), (5, true), (8, false), (9, true)]);
    assert_eq!(s.state, Some(vec![5]));
    let unprocessed: Vec<BlockReference> = s.unprocessed_blocks.iter().map(|b| *b.reference()).collect();
    assert_eq!(unprocessed, vec![reference(2, 0)]);
    assert_eq!(
        s.observed,
        vec![reference(1, 0), reference(0, 0), reference(1, 1), reference(1, 2), reference(2, 0)]
    );
    assert!(s.last_committed_leader.is_none() && s.committed_state.is_none());
    assert!(s.committed_blocks.is_empty());
    assert!(BlockStore::open(1, &log).is_none());
}

#[test]
fn ancestors_of_a_block() {
    let mut blocks = chain(1, 2);
    blocks.extend(chain(2, 1));
    blocks.push(StatementBlock::new_genesis(3));
    blocks.push(block(3, 3, vec![reference(3, 0), reference(1, 2)]));
    blocks.push(block(2, 2, vec![reference(2, 1), reference(1, 1)]));
    let store = store_with(blocks);
    assert_eq!(
        ancestors(&store, 6),
        vec![true, true, true, false, false, true, true, false]
    );
    assert_eq!(
        ancestors(&store, 7),
        vec![true, true, false, true, true, false, false, true]
    );
    assert_eq!(ancestors(&store, 0), vec![true, false, false, false, false, false, false, false]);
}

#[test]
fn sub_dags_are_ordered_and_disjoint() {
    let mut blocks = chain(2, 1);
    blocks.extend(chain(1, 2));
    blocks.push(StatementBlock::new_genesis(0));
    blocks.push(block(0, 3, vec![reference(0, 0), reference(1, 2), reference(2, 1)]));
    blocks.push(StatementBlock::new_genesis(3));
    blocks.push(block(3, 4, vec![reference(3, 0), reference(0, 3)]));
    let store = store_with(blocks.clone());
    let mut interpreter = CommitInterpreter::new();
    assert!(interpreter.is_empty());
    let first = interpreter.handle_commit(&store, vec![blocks[4].clone()]);
    let names: Vec<BlockReference> = first[0].blocks.iter().map(|b| *b.reference()).collect();
    assert_eq!(first[0].anchor, reference(1, 2));
    assert_eq!(names, vec![reference(1, 0), reference(1, 1), reference(1, 2)]);
    assert!(interpreter.is_committed(&reference(1, 1)));
    assert!(!interpreter.is_committed(&reference(2, 0)));
    let next = interpreter.handle_commit(&store, vec![blocks[6].clone(), blocks[8].clone()]);
    let names: Vec<BlockReference> = next[0].blocks.iter().map(|b| *b.reference()).collect();
    assert_eq!(names, vec![reference(0, 0), reference(2, 0), reference(2, 1), reference(0, 3)]);
    let names: Vec<BlockReference> = next[1].blocks.iter().map(|b| *b.reference()).collect();
    assert_eq!(names, vec![reference(3, 0), reference(3, 4)]);
    assert!(!interpreter.is_empty());
    // A leader that is committed brings in nothing.
    let again = interpreter.collect_sub_dag(&store, &blocks[6]);
    assert!(again.blocks.is_empty());
    let mut recovered = CommitInterpreter::new();
    recovered.recover(vec![reference(2, 0), reference(2, 1)]);
    let rest = recovered.collect_sub_dag(&store, &blocks[6]);
    assert_eq!(rest.blocks.len(), 5);
}

#[test]
fn commit_order_of_references() {
    let a = BlockReference::new(1, 2, 9);
    assert!(reference_before(&BlockReference::new(7, 1, 9), &a));
    assert!(reference_before(&BlockReference::new(0, 2, 9), &a));
    assert!(reference_before(&BlockReference::new(1, 2, 8), &a));
    assert!(!reference_before(&a, &a));
    assert!(!reference_before(&BlockReference::new(1, 3, 0), &a));
    let mut list = vec![];
    for r in [reference(2, 1), reference(1, 2), reference(1, 1), reference(2, 1), reference(0, 0)] {
        insert_ordered(&mut list, r);
    }
    assert_eq!(list, vec![reference(0, 0), reference(1, 1), reference(2, 1), reference(1, 2)]);
}

#[test]
fn committer_picks_the_lowest_digest() {
    // Two blocks of the leader in round 2; both get a quorum of votes.
    let committee = Committee::new_test(4).unwrap();
    let mut blocks = vec![];
    for a in 0..4 {
        blocks.extend(chain(a, 1));
    }
    let high = BlockReference::new(1, 2, 7);
    let low = BlockReference::new(1, 2, 3);
    blocks.push(StatementBlock::new(high, vec![reference(1, 1)], vec![], 0).unwrap());
    blocks.push(StatementBlock::new(low, vec![reference(1, 1)], vec![], 0).unwrap());
    for a in [0, 2, 3] {
        blocks.push(block(a, 3, vec![reference(a, 1), high, low]));
    }
    let store = store_with(blocks);
    let committer = Committer::new(committee, 2);
    let committed = committer.try_commit(&store, 0);
    assert_eq!(committed.len(), 1);
    assert_eq!(*committed[0].reference(), low);
    assert!(committer.try_commit(&store, 2).is_empty());
    assert!(committer.try_commit(&store, 1000).is_empty());
}

#[test]
fn committer_with_period_one() {
    let committee = Committee::new_test(4).unwrap();
    let mut blocks = vec![];
    for a in 0..4 {
        blocks.push(StatementBlock::new_genesis(a));
    }
    for r in 1..=3 {
        for a in 0..4u64 {
            let mut includes = vec![reference(a, r - 1)];
            for b in 0..4 {
                if b != a {
                    includes.push(reference(b, r - 1));
                }
            }
            blocks.push(block(a, r, includes));
        }
    }
    let store = store_with(blocks);
    let committer = Committer::new(committee, 1);
    let committed: Vec<BlockReference> =
        committer.try_commit(&store, 0).iter().map(|b| *b.reference()).collect();
    assert_eq!(committed, vec![reference(1, 1), reference(2, 2)]);
}
