//! What the node asks of the component that follows the commits.

use crate::aggregator::{block_applied, votes_replayed, votes_shaped, TransactionAggregator, VotesView};
use crate::block_store::{block_of, has_block, BlockStore, StoredView};
use crate::codec::{
    decode_words, encode_words, lemma_words_round_trip, words_decoding, words_encoding,
};
use crate::commit_interpreter::{
    committed_after, is_sub_dag, sub_dag_references, CommitInterpreter, CommittedSubDag,
};
use crate::committee::Committee;
use crate::consensus::references_of;
use crate::epoch_close::EpochManager;
use crate::state::{all_committed, bytes_view};
use crate::types::{blocks_view, clone_references, BlockReference, BlockView, StatementBlock};
use crate::wal::{commits_view, CommitData, CommitView};
use vstd::prelude::*;

verus! {

/// Follows the commits: turns committed leaders into the records of what
/// they commit, and keeps what it needs to go on after a restart. Each
/// method comes with a relation between the observer before and after the
/// call, which an implementation fills in.
pub trait CommitObserver: Sized {
    /// What holds of the observer between calls.
    spec fn inv(&self) -> bool;

    /// `after` is the observer that results from handling the committed
    /// leaders `leaders` on the store `store`, and `commits` is what it
    /// returned for them.
    spec fn handled_commit(
        &self,
        store: Seq<StoredView>,
        leaders: Seq<BlockView>,
        commits: Seq<CommitView>,
        after: &Self,
    ) -> bool;

    /// The snapshot that [`CommitObserver::aggregator_state`] gives.
    spec fn snapshot(&self) -> Seq<u8>;

    /// Whether the observer can take in what a log held of earlier commits.
    spec fn recoverable(&self, committed: Seq<BlockReference>, state: Option<Seq<u8>>) -> bool;

    /// `after` is the observer that results from taking in what a log held.
    spec fn recovered(
        &self,
        committed: Seq<BlockReference>,
        state: Option<Seq<u8>>,
        after: &Self,
    ) -> bool;

    /// Called with the newly committed leaders, in the order of their rounds.
    /// Returns one record for each, to be appended to the log, and shows
    /// every block that the records name to the epoch manager, once and in
    /// the order of the records.
    fn handle_commit(
        &mut self,
        store: &BlockStore,
        leaders: Vec<StatementBlock>,
        epoch_manager: &mut EpochManager,
    ) -> (commits: Vec<CommitData>)
        requires
            old(self).inv(),
            old(epoch_manager).inv(),
            store.inv(),
            forall|k: int|
                0 <= k < leaders@.len() ==> has_block(store@, (#[trigger] leaders@[k])@.reference),
        ensures
            final(self).inv(),
            final(epoch_manager).inv(),
            final(epoch_manager)@.observed == old(epoch_manager)@.observed + all_committed(
                commits_view(commits@),
            ),
            old(self).handled_commit(
                store@,
                blocks_view(leaders@),
                commits_view(commits@),
                final(self),
            ),
    ;

    /// A snapshot of the votes that the observer has counted.
    fn aggregator_state(&self) -> (snapshot: Vec<u8>)
        requires
            self.inv(),
        ensures
            snapshot@ == self.snapshot(),
    ;

    /// Tells whether the observer can take in what a log held of earlier
    /// commits.
    fn can_recover(&self, committed: &Vec<BlockReference>, state: &Option<Vec<u8>>) -> (r: bool)
        requires
            self.inv(),
        ensures
            r == self.recoverable(committed@, bytes_view(*state)),
    ;

    /// Called once after opening, before any commit is handled, with the
    /// blocks committed before and the snapshot from the log.
    fn recover_committed(&mut self, committed: Vec<BlockReference>, state: Option<Vec<u8>>)
        requires
            old(self).inv(),
            old(self).recoverable(committed@, bytes_view(state)),
        ensures
            final(self).inv(),
            old(self).recovered(committed@, bytes_view(state), final(self)),
    ;
}

/// The votes once the blocks named by the first `n` of `references` are
/// counted, in order.
pub open spec fn references_applied(
    v: VotesView,
    stakes: Seq<u64>,
    s: Seq<StoredView>,
    references: Seq<BlockReference>,
    n: int,
) -> VotesView
    decreases n,
{
    if n <= 0 {
        v
    } else {
        let b = block_of(s, references[n - 1]);
        block_applied(
            references_applied(v, stakes, s, references, n - 1),
            stakes,
            b,
            b.statements.len() as int,
        )
    }
}

/// The votes once the blocks of the first `n` of `commits` are counted, in
/// order.
pub open spec fn commits_applied(
    v: VotesView,
    stakes: Seq<u64>,
    s: Seq<StoredView>,
    commits: Seq<CommitView>,
    n: int,
) -> VotesView
    decreases n,
{
    if n <= 0 {
        v
    } else {
        references_applied(
            commits_applied(v, stakes, s, commits, n - 1),
            stakes,
            s,
            commits[n - 1].sub_dag,
            commits[n - 1].sub_dag.len() as int,
        )
    }
}

/// Mathematical value of a [`TestCommitHandler`].
pub struct CommitHandlerView {
    pub committee: Seq<u64>,
    /// The blocks committed so far.
    pub committed: Set<BlockReference>,
    /// The leaders committed since the handler was made, in order.
    pub committed_leaders: Seq<BlockReference>,
    /// The votes in the blocks committed so far.
    pub votes: VotesView,
}

/// A commit observer that records the leaders committed and counts the votes
/// in all committed blocks.
#[derive(Debug)]
pub struct TestCommitHandler {
    commit_interpreter: CommitInterpreter,
    transaction_votes: TransactionAggregator,
    committee: Committee,
    committed_leaders: Vec<BlockReference>,
}

impl View for TestCommitHandler {
    type V = CommitHandlerView;

    closed spec fn view(&self) -> CommitHandlerView {
        CommitHandlerView {
            committee: self.committee@,
            committed: self.commit_interpreter@,
            committed_leaders: self.committed_leaders@,
            votes: self.transaction_votes@,
        }
    }
}

impl TestCommitHandler {
    /// A handler that has seen no commit.
    pub fn new(committee: Committee) -> (r: Self)
        ensures
            r.inv(),
            r@ == (CommitHandlerView {
                committee: committee@,
                committed: Set::empty(),
                committed_leaders: Seq::empty(),
                votes: crate::aggregator::no_votes(),
            }),
            r.snapshot_words() == Seq::<u64>::empty(),
    {
        TestCommitHandler {
            commit_interpreter: CommitInterpreter::new(),
            transaction_votes: TransactionAggregator::new(),
            committee,
            committed_leaders: Vec::new(),
        }
    }

    /// The leaders committed since the handler was made, in order.
    pub fn committed_leaders(&self) -> (r: &Vec<BlockReference>)
        ensures
            r@ == self@.committed_leaders,
    {
        &self.committed_leaders
    }

    /// Whether the transaction at `locator` is marked as certified.
    pub closed spec fn spec_is_certified(&self, locator: crate::types::TransactionLocator) -> bool {
        self.transaction_votes.spec_is_processed(locator)
    }

    /// A transaction is marked as certified exactly when the authorities
    /// that accepted it in committed blocks hold a quorum of the stake.
    pub proof fn lemma_certified_iff_quorum(&self, locator: crate::types::TransactionLocator)
        requires
            self.inv(),
        ensures
            self.spec_is_certified(locator) <==> crate::aggregator::certified(
                self@.votes,
                self@.committee,
                locator,
            ),
    {
        self.transaction_votes.lemma_processed_iff_quorum(self.committee@, locator);
    }

    /// Whether a quorum has accepted, in committed blocks, the transaction
    /// at `locator`.
    pub fn is_certified(&self, locator: &crate::types::TransactionLocator) -> (r: bool)
        ensures
            r == self.spec_is_certified(*locator),
    {
        self.transaction_votes.is_processed(locator)
    }

    /// Number of transactions with a vote in a committed block.
    pub fn pending_certificates(&self) -> (r: usize)
        ensures
            r == self.spec_pending_certificates(),
    {
        self.transaction_votes.len()
    }

    /// Number of transactions with a vote in a committed block.
    pub closed spec fn spec_pending_certificates(&self) -> nat {
        self.transaction_votes.spec_len()
    }

    /// The words of a snapshot: the votes counted.
    pub closed spec fn snapshot_words(&self) -> Seq<u64> {
        self.transaction_votes.spec_votes_words()
    }

    /// Snapshot round trip: a handler for the same committee for which
    /// nothing is committed can take in the snapshot of this handler, and
    /// then has the votes of this handler and counts as committed the blocks
    /// handed to it.
    pub proof fn lemma_snapshot_round_trip(
        &self,
        before: &Self,
        committed: Seq<BlockReference>,
        after: &Self,
    )
        requires
            self.inv(),
            self.snapshot_words().len() <= u64::MAX,
            before@.committee == self@.committee,
            before@.committed == Set::<BlockReference>::empty(),
        ensures
            before.recoverable(committed, Some(self.snapshot())),
            before.recovered(committed, Some(self.snapshot()), after) ==> after@.votes
                == self@.votes && after@.committed == committed.to_set(),
    {
        let words = self.snapshot_words();
        lemma_words_round_trip(words, Seq::empty());
        assert(words_encoding(words) + Seq::<u8>::empty() =~= words_encoding(words));
        self.transaction_votes.lemma_votes_words(self.committee@, Seq::empty());
        assert(Seq::<u64>::empty() + words =~= words);
    }
}

/// Counts the votes in the blocks of one sub-DAG, shows the blocks to the
/// epoch manager, and makes the record of the sub-DAG.
fn record_commit(
    votes: &mut TransactionAggregator,
    epoch_manager: &mut EpochManager,
    committee: &Committee,
    d: &CommittedSubDag,
    Ghost(s): Ghost<Seq<StoredView>>,
) -> (r: CommitData)
    requires
        old(votes).inv(committee@),
        old(epoch_manager).inv(),
        forall|m: int|
            0 <= m < d.blocks@.len() ==> (#[trigger] d.blocks@[m])@ == block_of(
                s,
                d.blocks@[m]@.reference,
            ),
    ensures
        final(votes).inv(committee@),
        final(epoch_manager).inv(),
        final(epoch_manager)@.observed == old(epoch_manager)@.observed + sub_dag_references(*d),
        r@ == (CommitView { leader: d.anchor, sub_dag: sub_dag_references(*d) }),
        final(votes)@ == references_applied(
            old(votes)@,
            committee@,
            s,
            sub_dag_references(*d),
            d.blocks@.len() as int,
        ),
{
    let ghost names = sub_dag_references(*d);
    let ghost shown = epoch_manager@.observed;
    let mut sub_dag: Vec<BlockReference> = Vec::new();
    let mut m: usize = 0;
    assert(shown + names.take(0) =~= shown);
    while m < d.blocks.len()
        invariant
            m <= d.blocks.len(),
            names == sub_dag_references(*d),
            votes.inv(committee@),
            epoch_manager.inv(),
            forall|m: int|
                0 <= m < d.blocks@.len() ==> (#[trigger] d.blocks@[m])@ == block_of(
                    s,
                    d.blocks@[m]@.reference,
                ),
            sub_dag@ == names.take(m as int),
            epoch_manager@.observed == shown + names.take(m as int),
            votes@ == references_applied(old(votes)@, committee@, s, names, m as int),
        decreases d.blocks.len() - m,
    {
        let block = &d.blocks[m];
        assert(names[m as int] == block@.reference);
        votes.process_block(block, false, committee);
        epoch_manager.observe_block(block);
        sub_dag.push(*block.reference());
        m += 1;
        assert(sub_dag@ =~= names.take(m as int));
        assert(shown + names.take(m as int) =~= (shown + names.take(m - 1)).push(
            names[m - 1],
        ));
    }
    assert(names.take(m as int) =~= names);
    CommitData { leader: d.anchor, sub_dag }
}

impl CommitObserver for TestCommitHandler {
    closed spec fn inv(&self) -> bool {
        self.transaction_votes.inv(self.committee@)
    }

    /// Each leader brings in the blocks it builds on that were not committed
    /// before, in commit order; the record of a leader names them. The
    /// handler notes the leaders and counts the votes in all blocks brought
    /// in, in order.
    open spec fn handled_commit(
        &self,
        store: Seq<StoredView>,
        leaders: Seq<BlockView>,
        commits: Seq<CommitView>,
        after: &Self,
    ) -> bool {
        let names = references_of(leaders);
        &&& commits.len() == leaders.len()
        &&& forall|k: int|
            0 <= k < commits.len() ==> {
                &&& (#[trigger] commits[k]).leader == names[k]
                &&& is_sub_dag(
                    store,
                    names[k],
                    committed_after(store, self@.committed, names, k),
                    commits[k].sub_dag,
                )
            }
        &&& after@ == (CommitHandlerView {
            committed: committed_after(store, self@.committed, names, names.len() as int),
            committed_leaders: self@.committed_leaders + names,
            votes: commits_applied(
                self@.votes,
                self@.committee,
                store,
                commits,
                commits.len() as int,
            ),
            ..self@
        })
    }

    closed spec fn snapshot(&self) -> Seq<u8> {
        words_encoding(self.transaction_votes.spec_votes_words())
    }

    /// What a log held can be taken in by a handler for which nothing is
    /// committed yet. Without a snapshot the log must have held no committed
    /// blocks; a snapshot must hold a list of words that is a list of votes.
    open spec fn recoverable(&self, committed: Seq<BlockReference>, state: Option<Seq<u8>>) -> bool {
        &&& self@.committed == Set::<BlockReference>::empty()
        &&& match state {
            Some(bytes) => words_decoding(bytes) matches Some(w) && votes_shaped(w, 0),
            None => committed.len() == 0,
        }
    }

    /// The blocks of the log count as committed, and the handler has counted
    /// the votes of the snapshot, where there is one, and no others.
    open spec fn recovered(
        &self,
        committed: Seq<BlockReference>,
        state: Option<Seq<u8>>,
        after: &Self,
    ) -> bool {
        after@ == (CommitHandlerView {
            committed: committed.to_set(),
            votes: match state {
                Some(bytes) => votes_replayed(
                    self@.committee,
                    words_decoding(bytes)->Some_0,
                    0,
                    words_decoding(bytes)->Some_0.len() as int / 6,
                ),
                None => self@.votes,
            },
            ..self@
        })
    }

    fn handle_commit(
        &mut self,
        store: &BlockStore,
        leaders: Vec<StatementBlock>,
        epoch_manager: &mut EpochManager,
    ) -> (commits: Vec<CommitData>) {
        let ghost s = store@;
        let ghost shown = epoch_manager@.observed;
        let ghost names = references_of(blocks_view(leaders@));
        let ghost known = self@.committed_leaders;
        let n = leaders.len();
        let mut k: usize = 0;
        while k < n
            invariant
                k <= n,
                n == leaders@.len(),
                names == references_of(blocks_view(leaders@)),
                self.inv(),
                self@ == (CommitHandlerView {
                    committed_leaders: known + names.take(k as int),
                    ..old(self)@
                }),
            decreases n - k,
        {
            self.committed_leaders.push(*leaders[k].reference());
            k += 1;
            assert(self@.committed_leaders =~= known + names.take(k as int));
        }
        assert(names.take(k as int) =~= names);
        let committed = self.commit_interpreter.handle_commit(store, leaders);
        let ghost reached = self@.committed;
        let mut commits: Vec<CommitData> = Vec::new();
        let mut k: usize = 0;
        assert(commits_view(commits@) =~= Seq::empty());
        assert(shown + all_committed(commits_view(commits@)) =~= shown);
        while k < committed.len()
            invariant
                k <= committed.len(),
                committed@.len() == names.len(),
                self.inv(),
                epoch_manager.inv(),
                epoch_manager@.observed == shown + all_committed(commits_view(commits@)),
                reached == committed_after(
                    s,
                    old(self)@.committed,
                    names,
                    names.len() as int,
                ),
                forall|j: int|
                    0 <= j < committed@.len() ==> {
                        let d = #[trigger] committed@[j];
                        &&& d.anchor == names[j]
                        &&& is_sub_dag(
                            s,
                            names[j],
                            committed_after(s, old(self)@.committed, names, j),
                            sub_dag_references(d),
                        )
                    },
                self@ == (CommitHandlerView {
                    committed: reached,
                    committed_leaders: known + names,
                    votes: commits_applied(
                        old(self)@.votes,
                        old(self)@.committee,
                        s,
                        commits_view(commits@),
                        k as int,
                    ),
                    ..old(self)@
                }),
                commits@.len() == k,
                forall|j: int|
                    0 <= j < k ==> (#[trigger] commits_view(commits@)[j]) == (CommitView {
                        leader: committed@[j].anchor,
                        sub_dag: sub_dag_references(committed@[j]),
                    }),
                forall|j: int|
                    0 <= j < committed@.len() ==> {
                        let d = #[trigger] committed@[j];
                        forall|m: int|
                            0 <= m < d.blocks@.len() ==> (#[trigger] d.blocks@[m])@ == block_of(
                                s,
                                d.blocks@[m]@.reference,
                            )
                    },
            decreases committed.len() - k,
        {
            let ghost before = commits_view(commits@);
            let record = record_commit(
                &mut self.transaction_votes,
                epoch_manager,
                &self.committee,
                &committed[k],
                Ghost(s),
            );
            commits.push(record);
            proof {
                let now = commits_view(commits@);
                assert(now =~= before.push(record@));
                assert(now.drop_last() =~= before);
                assert(shown + all_committed(now) =~= (shown + all_committed(before))
                    + record@.sub_dag);
                assert(now.take(k as int) =~= before);
                lemma_commits_prefix(
                    old(self)@.votes,
                    old(self)@.committee,
                    s,
                    before,
                    now,
                    k as int,
                );
            }
            k += 1;
        }
        proof {
            let cv = commits_view(commits@);
            assert forall|k: int| 0 <= k < cv.len() implies {
                &&& (#[trigger] cv[k]).leader == names[k]
                &&& is_sub_dag(
                    s,
                    names[k],
                    committed_after(s, old(self)@.committed, names, k),
                    cv[k].sub_dag,
                )
            } by {
                let d = committed@[k];
                assert(d.anchor == names[k]);
            }
        }
        commits
    }

    fn aggregator_state(&self) -> (snapshot: Vec<u8>)
        ensures
            self.snapshot_words().len() <= u64::MAX,
    {
        let mut words: Vec<u64> = Vec::new();
        self.transaction_votes.push_votes_words(&mut words);
        assert(words@ =~= self.transaction_votes.spec_votes_words());
        encode_words(&words)
    }

    fn can_recover(&self, committed: &Vec<BlockReference>, state: &Option<Vec<u8>>) -> (r: bool) {
        if !self.commit_interpreter.is_empty() {
            return false;
        }
        match state {
            Some(bytes) => match decode_words(bytes) {
                Some(words) => TransactionAggregator::from_votes_words(
                    &words,
                    0,
                    &self.committee,
                ).is_some(),
                None => false,
            },
            None => committed.len() == 0,
        }
    }

    fn recover_committed(&mut self, committed: Vec<BlockReference>, state: Option<Vec<u8>>) {
        match state {
            Some(bytes) => {
                let words = decode_words(&bytes).unwrap();
                self.transaction_votes = TransactionAggregator::from_votes_words(
                    &words,
                    0,
                    &self.committee,
                ).unwrap();
            },
            None => {},
        }
        self.commit_interpreter.recover(committed);
    }
}

/// The votes of the first commits do not depend on the commits after them.
pub proof fn lemma_commits_prefix(
    v: VotesView,
    stakes: Seq<u64>,
    s: Seq<StoredView>,
    short: Seq<CommitView>,
    long: Seq<CommitView>,
    n: int,
)
    requires
        0 <= n <= short.len(),
        n <= long.len(),
        forall|j: int| 0 <= j < n ==> short[j] == long[j],
    ensures
        commits_applied(v, stakes, s, short, n) == commits_applied(v, stakes, s, long, n),
    decreases n,
{
    if n > 0 {
        lemma_commits_prefix(v, stakes, s, short, long, n - 1);
    }
}

} // verus!
