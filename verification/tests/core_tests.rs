use mysticeti_core::block_handler::TestBlockHandler;
use mysticeti_core::committee::Committee;
use mysticeti_core::consensus::{Core, CoreOptions, OpenError};
use mysticeti_core::threshold_clock::threshold_clock_valid;
use mysticeti_core::types::{AuthorityIndex, StatementBlock, TransactionLocator};
use mysticeti_core::wal::WalEntry;
use rand::rngs::StdRng;
use rand::{Rng, SeedableRng};

fn open_core(
    committee: &Committee,
    authority: AuthorityIndex,
    log: &Vec<WalEntry>,
) -> Core<TestBlockHandler> {
    let handler = TestBlockHandler::new(authority * 1_000_000, committee.clone(), authority);
    let checked: Result<(), OpenError> = Core::check_open(&handler, authority, committee, log);
    if let Err(e) = checked {
        panic!("core of {} cannot be opened: {:?}", authority, e);
    }
    Core::open(handler, authority, committee.clone(), log, CoreOptions::test())
}

fn committee_and_cores(n: usize) -> (Committee, Vec<Core<TestBlockHandler>>) {
    let committee = Committee::new_test(n).unwrap();
    let mut cores = Vec::new();
    for authority in 0..n as u64 {
        cores.push(open_core(&committee, authority, &Vec::new()));
    }
    (committee, cores)
}

fn committee_and_cores_persisted(
    n: usize,
    logs: &Vec<Vec<WalEntry>>,
) -> (Committee, Vec<Core<TestBlockHandler>>) {
    let committee = Committee::new_test(n).unwrap();
    let mut cores = Vec::new();
    for authority in 0..n as u64 {
        cores.push(open_core(&committee, authority, &logs[authority as usize]));
    }
    (committee, cores)
}

fn persist(cores: &mut Vec<Core<TestBlockHandler>>, logs: &mut Vec<Vec<WalEntry>>) {
    for (core, log) in cores.iter_mut().zip(logs.iter_mut()) {
        let (first, entries, _) = core.take_wal_entries();
        assert_eq!(first as usize, log.len());
        log.extend(entries);
    }
}

fn last_shared(core: &Core<TestBlockHandler>) -> TransactionLocator {
    *core.block_handler().proposed().last().unwrap()
}

fn push_all(p: &mut Vec<Vec<StatementBlock>>, except: AuthorityIndex, block: &StatementBlock) {
    for (i, q) in p.iter_mut().enumerate() {
        if i as AuthorityIndex != except {
            q.push(block.clone());
        }
    }
}

#[test]
fn test_core_simple_exchange() {
    let (_committee, mut cores) = committee_and_cores(4);

    let mut proposed_transactions = vec![];
    let mut blocks = vec![];
    for core in &mut cores {
        core.run_block_handler(&vec![]);
        let block = core
            .try_new_block(0)
            .expect("Must be able to create block after genesis");
        assert_eq!(block.reference().round, 1);
        proposed_transactions.push(last_shared(core));
        println!("{}: {:?}", core.authority(), block);
        blocks.push(block.clone());
    }
    assert_eq!(proposed_transactions.len(), 4);
    let more_blocks = blocks.split_off(2);

    println!("===");

    let mut blocks_r2 = vec![];
    for core in &mut cores {
        core.add_blocks(blocks.clone());
        assert!(core.try_new_block(0).is_none());
        core.add_blocks(more_blocks.clone());
        let block = core
            .try_new_block(0)
            .expect("Must be able to create block after full round");
        println!("{}: {:?}", core.authority(), block);
        assert_eq!(block.reference().round, 2);
        blocks_r2.push(block.clone());
    }

    for core in &mut cores {
        core.add_blocks(blocks_r2.clone());
        let block = core
            .try_new_block(0)
            .expect("Must be able to create block after full round");
        println!("{}: {:?}", core.authority(), block);
        assert_eq!(block.reference().round, 3);
        for txid in &proposed_transactions {
            assert!(
                core.block_handler().is_certified(txid),
                "Transaction {:?} is not certified by {}",
                txid,
                core.authority()
            );
        }
    }
}

#[test]
fn test_randomized_simple_exchange() {
    'l: for seed in 0..100 {
        let mut rng = StdRng::from_seed([seed; 32]);
        let (committee, mut cores) = committee_and_cores(4);

        let mut proposed_transactions = vec![];
        let mut pending: Vec<Vec<StatementBlock>> = (0..committee.len()).map(|_| vec![]).collect();
        for core in &mut cores {
            core.run_block_handler(&vec![]);
            let block = core
                .try_new_block(0)
                .expect("Must be able to create block after genesis");
            assert_eq!(block.reference().round, 1);
            proposed_transactions.push(last_shared(core));
            assert!(
                threshold_clock_valid(&block, &committee),
                "Invalid clock {:?}",
                block
            );
            push_all(&mut pending, core.authority(), &block);
        }
        // Each iteration we pick one authority and deliver to it 1..3 random blocks
        // First 20 iterations we record all transactions created by authorities
        // After this we wait for those recorded transactions to be eventually certified
        'a: for i in 0..1000 {
            let authority = rng.gen_range(0..committee.len()) as AuthorityIndex;
            let core = &mut cores[authority as usize];
            let this_pending = &mut pending[authority as usize];
            let c = rng.gen_range(1..4usize);
            let mut blocks = vec![];
            for _ in 0..c {
                if this_pending.is_empty() {
                    break;
                }
                let block = this_pending.remove(rng.gen_range(0..this_pending.len()));
                blocks.push(block);
            }
            if blocks.is_empty() {
                continue;
            }
            core.add_blocks(blocks);
            let Some(block) = core.try_new_block(0) else {
                continue;
            };
            assert!(
                threshold_clock_valid(&block, &committee),
                "Invalid clock {:?}",
                block
            );
            let own = core.authority();
            let shared = last_shared(core);
            push_all(&mut pending, own, &block);
            if i < 20 {
                // First 20 iterations we record proposed transactions
                proposed_transactions.push(shared);
            } else {
                assert!(!proposed_transactions.is_empty());
                // After 20 iterations we just wait for all transactions to be committed everywhere
                for proposed in &proposed_transactions {
                    for core in &cores {
                        if !core.block_handler().is_certified(proposed) {
                            continue 'a;
                        }
                    }
                }
                println!(
                    "Seed {seed} succeed, {} transactions certified in {i} exchanges",
                    proposed_transactions.len()
                );
                continue 'l;
            }
        }
        panic!("Seed {seed} failed - not all transactions are committed");
    }
}

#[test]
fn test_core_recovery() {
    let mut logs: Vec<Vec<WalEntry>> = vec![vec![], vec![], vec![], vec![]];
    let (_committee, mut cores) = committee_and_cores_persisted(4, &logs);

    let mut proposed_transactions = vec![];
    let mut blocks = vec![];
    for core in &mut cores {
        core.run_block_handler(&vec![]);
        let block = core
            .try_new_block(0)
            .expect("Must be able to create block after genesis");
        assert_eq!(block.reference().round, 1);
        proposed_transactions.push(last_shared(core));
        println!("{}: {:?}", core.authority(), block);
        blocks.push(block.clone());
    }
    assert_eq!(proposed_transactions.len(), 4);
    cores.iter_mut().for_each(Core::write_state);
    persist(&mut cores, &mut logs);
    drop(cores);

    let (_committee, mut cores) = committee_and_cores_persisted(4, &logs);

    let more_blocks = blocks.split_off(2);

    println!("===");

    let mut blocks_r2 = vec![];
    for core in &mut cores {
        core.add_blocks(blocks.clone());
        assert!(core.try_new_block(0).is_none());
        core.add_blocks(more_blocks.clone());
        let block = core
            .try_new_block(0)
            .expect("Must be able to create block after full round");
        println!("{}: {:?}", core.authority(), block);
        assert_eq!(block.reference().round, 2);
        blocks_r2.push(block.clone());
    }

    // Note that we do not call Core::write_state here unlike before.
    // This should also be handled correctly by re-processing unprocessed_blocks
    persist(&mut cores, &mut logs);
    drop(cores);

    println!("===");

    let (_committee, mut cores) = committee_and_cores_persisted(4, &logs);

    for core in &mut cores {
        core.add_blocks(blocks_r2.clone());
        let block = core
            .try_new_block(0)
            .expect("Must be able to create block after full round");
        println!("{}: {:?}", core.authority(), block);
        assert_eq!(block.reference().round, 3);
        for txid in &proposed_transactions {
            assert!(
                core.block_handler().is_certified(txid),
                "Transaction {:?} is not certified by {}",
                txid,
                core.authority()
            );
        }
    }
}
