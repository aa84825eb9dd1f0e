//! What the core asks of the component that turns blocks into statements.

use crate::aggregator::{
    answers, block_applied, newly_certified, vote_applied, votes_replayed, votes_shaped,
    TransactionAggregator, VotesView,
};
use crate::codec::{
    decode_words, encode_words, lemma_words_round_trip, words_decoding, words_encoding,
};
use crate::committee::Committee;
use crate::types::{
    blocks_view, shared_locators, statements_view, AuthorityIndex, BaseStatement, BlockView,
    StatementBlock, StatementView, Transaction, TransactionLocator, Vote,
};
use rand::rngs::StdRng;
use rand::{Rng, SeedableRng};
use vstd::bytes::{spec_u64_to_le_bytes, u64_to_le_bytes};
use vstd::prelude::*;

verus! {

/// Values of a sequence of transactions, one for one.
pub open spec fn transactions_view(s: Seq<Transaction>) -> Seq<Seq<u8>> {
    s.map_values(|x: Transaction| x@)
}

/// Consumes the blocks that the core has stored and says what the next own
/// block is to state. Each method comes with a relation between the handler
/// before and after the call, which an implementation fills in.
pub trait BlockHandler: Sized {
    /// What holds of the handler between calls.
    spec fn inv(&self) -> bool;

    /// `after` is the handler that results from handling `blocks`, and
    /// `statements` is what it gave out for them.
    spec fn handled_blocks(
        &self,
        blocks: Seq<BlockView>,
        statements: Seq<StatementView>,
        after: &Self,
    ) -> bool;

    /// `after` is the handler that results from handling the own block `block`.
    spec fn handled_proposal(&self, block: BlockView, after: &Self) -> bool;

    /// `after` is the handler that results from taking in `transactions`.
    spec fn handled_transactions(&self, transactions: Seq<Seq<u8>>, after: &Self) -> bool;

    /// The snapshot that [`BlockHandler::state`] gives of this handler.
    spec fn snapshot(&self) -> Seq<u8>;

    /// Whether `state` is a snapshot that this handler can restore.
    spec fn restorable(&self, state: Seq<u8>) -> bool;

    /// `after` is the handler that results from restoring the snapshot
    /// `state`.
    spec fn recovered(&self, state: Seq<u8>, after: &Self) -> bool;

    /// Called for every batch of newly stored blocks. Returns the statements
    /// to put into the next own block.
    fn handle_blocks(&mut self, blocks: &Vec<StatementBlock>) -> (statements: Vec<BaseStatement>)
        requires
            old(self).inv(),
        ensures
            final(self).inv(),
            old(self).handled_blocks(blocks_view(blocks@), statements_view(statements@), final(self)),
    ;

    /// Called once for every own block, after it was recorded.
    fn handle_proposal(&mut self, block: &StatementBlock)
        requires
            old(self).inv(),
        ensures
            final(self).inv(),
            old(self).handled_proposal(block@, final(self)),
    ;

    /// Takes in transactions that clients submitted, to be shared in own blocks.
    fn handle_transactions(&mut self, transactions: Vec<Transaction>)
        requires
            old(self).inv(),
        ensures
            final(self).inv(),
            old(self).handled_transactions(transactions_view(transactions@), final(self)),
    ;

    /// A snapshot of the handler, from which [`BlockHandler::recover_state`]
    /// restores it.
    fn state(&self) -> (snapshot: Vec<u8>)
        requires
            self.inv(),
        ensures
            snapshot@ == self.snapshot(),
    ;

    /// Tells whether `state` is a snapshot that this handler can restore.
    fn can_recover(&self, state: &Vec<u8>) -> (r: bool)
        requires
            self.inv(),
        ensures
            r == self.restorable(state@),
    ;

    /// Restores the handler from a snapshot.
    fn recover_state(&mut self, state: &Vec<u8>)
        requires
            old(self).inv(),
            old(self).restorable(state@),
        ensures
            final(self).inv(),
            old(self).recovered(state@, final(self)),
    ;
}

/// The votes once all statements of the first `n` of `blocks` are counted.
pub open spec fn blocks_applied(v: VotesView, stakes: Seq<u64>, blocks: Seq<BlockView>, n: int) -> VotesView
    decreases n,
{
    if n <= 0 {
        v
    } else {
        block_applied(
            blocks_applied(v, stakes, blocks, n - 1),
            stakes,
            blocks[n - 1],
            blocks[n - 1].statements.len() as int,
        )
    }
}

/// The transactions that the first `n` of `blocks` certify, in order.
pub open spec fn blocks_certified(v: VotesView, stakes: Seq<u64>, blocks: Seq<BlockView>, n: int) -> Seq<
    TransactionLocator,
>
    decreases n,
{
    if n <= 0 {
        Seq::empty()
    } else {
        blocks_certified(v, stakes, blocks, n - 1) + newly_certified(
            blocks_applied(v, stakes, blocks, n - 1),
            stakes,
            blocks[n - 1],
            blocks[n - 1].statements.len() as int,
        )
    }
}

/// The votes with which an authority answers the first `n` of `blocks`.
pub open spec fn all_answers(blocks: Seq<BlockView>, n: int) -> Seq<StatementView>
    decreases n,
{
    if n <= 0 {
        Seq::empty()
    } else {
        all_answers(blocks, n - 1) + answers(blocks[n - 1], blocks[n - 1].statements.len() as int)
    }
}

/// The votes once `voter` has accepted the first `n` of `locators`.
pub open spec fn registered(
    v: VotesView,
    stakes: Seq<u64>,
    locators: Seq<TransactionLocator>,
    voter: AuthorityIndex,
    n: int,
) -> VotesView
    decreases n,
{
    if n <= 0 {
        v
    } else {
        vote_applied(
            registered(v, stakes, locators, voter, n - 1),
            stakes,
            locators[n - 1],
            voter,
            Vote::Accept,
        )
    }
}

/// The next number, as long as there is one.
pub open spec fn bump(x: u64) -> u64 {
    if x < u64::MAX {
        (x + 1) as u64
    } else {
        x
    }
}

/// The counter `last`, moved on once for every transaction shared among the
/// first `m` statements of `block`.
pub open spec fn counted_in(last: u64, block: BlockView, m: int) -> u64
    decreases m,
{
    if m <= 0 {
        last
    } else if block.statements[m - 1] is Share {
        bump(counted_in(last, block, m - 1))
    } else {
        counted_in(last, block, m - 1)
    }
}

/// The counter `last`, moved on once for every transaction that `authority`
/// shares in the first `n` of `blocks`.
pub open spec fn counted(last: u64, blocks: Seq<BlockView>, authority: AuthorityIndex, n: int) -> u64
    decreases n,
{
    if n <= 0 {
        last
    } else {
        let before = counted(last, blocks, authority, n - 1);
        if blocks[n - 1].reference.authority == authority {
            counted_in(before, blocks[n - 1], blocks[n - 1].statements.len() as int)
        } else {
            before
        }
    }
}

/// Shares of transactions, one for one.
pub open spec fn shares(transactions: Seq<Seq<u8>>) -> Seq<StatementView> {
    transactions.map_values(|t: Seq<u8>| StatementView::Share(t))
}

/// Mathematical value of a [`TestBlockHandler`].
pub struct TestHandlerView {
    pub last_transaction: u64,
    pub votes: VotesView,
    pub committee: Seq<u64>,
    pub authority: AuthorityIndex,
    pub proposed: Seq<TransactionLocator>,
    /// The transactions certified by the blocks handled last.
    pub processed: Seq<TransactionLocator>,
}

/// A block handler that makes up a new transaction whenever it is asked, and
/// accepts every transaction it sees.
#[derive(Debug)]
pub struct TestBlockHandler {
    last_transaction: u64,
    transaction_votes: TransactionAggregator,
    committee: Committee,
    authority: AuthorityIndex,
    proposed: Vec<TransactionLocator>,
    processed: Vec<TransactionLocator>,
}

impl View for TestBlockHandler {
    type V = TestHandlerView;

    closed spec fn view(&self) -> TestHandlerView {
        TestHandlerView {
            last_transaction: self.last_transaction,
            votes: self.transaction_votes@,
            committee: self.committee@,
            authority: self.authority,
            proposed: self.proposed@,
            processed: self.processed@,
        }
    }
}

impl TestBlockHandler {
    /// A handler for `authority` whose next transaction has the number after
    /// `last_transaction`.
    pub fn new(last_transaction: u64, committee: Committee, authority: AuthorityIndex) -> (r: Self)
        ensures
            r.inv(),
            r@ == (TestHandlerView {
                last_transaction,
                votes: crate::aggregator::no_votes(),
                committee: committee@,
                authority,
                proposed: Seq::empty(),
                processed: Seq::empty(),
            }),
            r.snapshot_words() == seq![last_transaction],
    {
        TestBlockHandler {
            last_transaction,
            transaction_votes: TransactionAggregator::new(),
            committee,
            authority,
            proposed: Vec::new(),
            processed: Vec::new(),
        }
    }

    /// Whether `locator` is marked as certified.
    pub closed spec fn spec_is_certified(&self, locator: TransactionLocator) -> bool {
        self.transaction_votes.spec_is_processed(locator)
    }

    /// A transaction is marked as certified exactly when the authorities that
    /// accepted it hold a quorum of the stake.
    pub proof fn lemma_certified_iff_quorum(&self, locator: TransactionLocator)
        requires
            self.inv(),
        ensures
            self.spec_is_certified(locator) <==> crate::aggregator::certified(
                self@.votes,
                self@.committee,
                locator,
            ),
    {
        self.transaction_votes.lemma_processed_iff_quorum(self.committee@, locator);
    }

    /// Whether a quorum has accepted the transaction at `locator`.
    pub fn is_certified(&self, locator: &TransactionLocator) -> (r: bool)
        ensures
            r == self.spec_is_certified(*locator),
    {
        self.transaction_votes.is_processed(locator)
    }

    /// The transaction with number `i`: the eight bytes of `i`, low byte first.
    pub fn make_transaction(i: u64) -> (r: Transaction)
        ensures
            r@ == spec_u64_to_le_bytes(i),
    {
        Transaction::new(u64_to_le_bytes(i))
    }

    /// Number of the last transaction made up.
    pub fn last_transaction(&self) -> (r: u64)
        ensures
            r == self@.last_transaction,
    {
        self.last_transaction
    }

    /// Locators of the transactions shared in own blocks so far.
    pub fn proposed(&self) -> (r: &Vec<TransactionLocator>)
        ensures
            r@ == self@.proposed,
    {
        &self.proposed
    }

    /// The transactions certified by the blocks handled last, in order.
    pub fn processed(&self) -> (r: &Vec<TransactionLocator>)
        ensures
            r@ == self@.processed,
    {
        &self.processed
    }

    /// The words of a snapshot: the number of the last transaction, then the
    /// votes counted.
    pub closed spec fn snapshot_words(&self) -> Seq<u64> {
        seq![self.last_transaction] + self.transaction_votes.spec_votes_words()
    }

    /// Snapshot round trip: a handler for the same committee can restore
    /// the snapshot of this handler, and then has the counter and the votes
    /// of this handler.
    pub proof fn lemma_snapshot_round_trip(&self, before: &Self, after: &Self)
        requires
            self.inv(),
            self.snapshot_words().len() <= u64::MAX,
            before@.committee == self@.committee,
        ensures
            before.restorable(self.snapshot()),
            before.recovered(self.snapshot(), after) ==> after@.last_transaction
                == self@.last_transaction && after@.votes == self@.votes,
    {
        let words = self.snapshot_words();
        lemma_words_round_trip(words, Seq::empty());
        assert(words_encoding(words) + Seq::<u8>::empty() =~= words_encoding(words));
        self.transaction_votes.lemma_votes_words(self.committee@, seq![self.last_transaction]);
    }
}

/// Moves `last` on as [`counted_in`] says for all statements of `block`.
fn count_shares(last: u64, block: &StatementBlock) -> (r: u64)
    ensures
        r == counted_in(last, block@, block@.statements.len() as int),
{
    let statements = block.statements();
    let mut r: u64 = last;
    let mut m: usize = 0;
    while m < statements.len()
        invariant
            m <= statements.len(),
            statements_view(statements@) == block@.statements,
            r == counted_in(last, block@, m as int),
        decreases statements.len() - m,
    {
        assert(block@.statements[m as int] == statements@[m as int]@);
        if let BaseStatement::Share(_) = &statements[m] {
            if r < u64::MAX {
                r = r + 1;
            }
        }
        m += 1;
    }
    r
}

/// Counts what `blocks` state and gathers the answers to them and the
/// transactions they certify.
fn process_blocks(
    votes: &mut TransactionAggregator,
    blocks: &Vec<StatementBlock>,
    committee: &Committee,
) -> (r: (Vec<TransactionLocator>, Vec<BaseStatement>))
    requires
        old(votes).inv(committee@),
    ensures
        final(votes).inv(committee@),
        final(votes)@ == blocks_applied(
            old(votes)@,
            committee@,
            blocks_view(blocks@),
            blocks@.len() as int,
        ),
        r.0@ == blocks_certified(
            old(votes)@,
            committee@,
            blocks_view(blocks@),
            blocks@.len() as int,
        ),
        statements_view(r.1@) == all_answers(blocks_view(blocks@), blocks@.len() as int),
{
    let ghost bv = blocks_view(blocks@);
    let mut processed: Vec<TransactionLocator> = Vec::new();
    let mut response: Vec<BaseStatement> = Vec::new();
    let mut n: usize = 0;
    assert(statements_view(response@) =~= all_answers(bv, 0));
    while n < blocks.len()
        invariant
            n <= blocks.len(),
            bv == blocks_view(blocks@),
            votes.inv(committee@),
            votes@ == blocks_applied(old(votes)@, committee@, bv, n as int),
            processed@ == blocks_certified(old(votes)@, committee@, bv, n as int),
            statements_view(response@) == all_answers(bv, n as int),
        decreases blocks.len() - n,
    {
        let ghost before = response@;
        assert(bv[n as int] == blocks@[n as int]@);
        let (mut certified, mut answer) = votes.process_block(&blocks[n], true, committee);
        let ghost added = answer@;
        processed.append(&mut certified);
        response.append(&mut answer);
        proof {
            assert(response@ =~= before + added);
            assert(statements_view(before + added) =~= statements_view(before) + statements_view(
                added,
            ));
        }
        n += 1;
    }
    (processed, response)
}

/// Counts `voter` as accepting every transaction of `locators`.
fn register_all(
    votes: &mut TransactionAggregator,
    locators: &Vec<TransactionLocator>,
    voter: AuthorityIndex,
    committee: &Committee,
)
    requires
        old(votes).inv(committee@),
    ensures
        final(votes).inv(committee@),
        final(votes)@ == registered(
            old(votes)@,
            committee@,
            locators@,
            voter,
            locators@.len() as int,
        ),
{
    let mut n: usize = 0;
    while n < locators.len()
        invariant
            n <= locators.len(),
            votes.inv(committee@),
            votes@ == registered(old(votes)@, committee@, locators@, voter, n as int),
        decreases locators.len() - n,
    {
        votes.register(locators[n], voter, committee);
        n += 1;
    }
}

impl BlockHandler for TestBlockHandler {
    closed spec fn inv(&self) -> bool {
        self.transaction_votes.inv(self.committee@)
    }

    /// The handler moves its counter past the transactions that its own
    /// authority shares in `blocks`, makes up the next transaction, counts
    /// what the blocks state and notes the transactions that they certify.
    /// It gives out the new transaction, then an accepting vote for every
    /// transaction shared in the blocks.
    open spec fn handled_blocks(
        &self,
        blocks: Seq<BlockView>,
        statements: Seq<StatementView>,
        after: &Self,
    ) -> bool {
        let number = bump(
            counted(self@.last_transaction, blocks, self@.authority, blocks.len() as int),
        );
        &&& after@ == (TestHandlerView {
            last_transaction: number,
            votes: blocks_applied(self@.votes, self@.committee, blocks, blocks.len() as int),
            processed: blocks_certified(
                self@.votes,
                self@.committee,
                blocks,
                blocks.len() as int,
            ),
            ..self@
        })
        &&& statements == seq![StatementView::Share(spec_u64_to_le_bytes(number))] + all_answers(
            blocks,
            blocks.len() as int,
        )
    }

    /// The handler notes the transactions shared in the own block and counts
    /// its authority as accepting them.
    open spec fn handled_proposal(&self, block: BlockView, after: &Self) -> bool {
        after@ == (TestHandlerView {
            votes: registered(
                self@.votes,
                self@.committee,
                shared_locators(block),
                self@.authority,
                shared_locators(block).len() as int,
            ),
            proposed: self@.proposed + shared_locators(block),
            ..self@
        })
    }

    /// The handler makes up its own transactions and drops those of clients.
    open spec fn handled_transactions(&self, transactions: Seq<Seq<u8>>, after: &Self) -> bool {
        after@ == self@
    }

    closed spec fn snapshot(&self) -> Seq<u8> {
        words_encoding(self.snapshot_words())
    }

    /// A snapshot holds a list of words that is a counter followed by a list
    /// of votes.
    open spec fn restorable(&self, state: Seq<u8>) -> bool {
        words_decoding(state) matches Some(w) && w.len() > 0 && votes_shaped(w, 1)
    }

    /// The handler that has restored a snapshot has its counter, and has
    /// counted its votes and no others.
    open spec fn recovered(&self, state: Seq<u8>, after: &Self) -> bool {
        after@ == (TestHandlerView {
            last_transaction: words_decoding(state)->Some_0[0],
            votes: votes_replayed(
                self@.committee,
                words_decoding(state)->Some_0,
                1,
                (words_decoding(state)->Some_0.len() - 1) / 6,
            ),
            ..self@
        })
    }

    fn handle_blocks(&mut self, blocks: &Vec<StatementBlock>) -> (statements: Vec<BaseStatement>) {
        let ghost bv = blocks_view(blocks@);
        let mut n: usize = 0;
        while n < blocks.len()
            invariant
                n <= blocks.len(),
                bv == blocks_view(blocks@),
                self.inv(),
                self@ == (TestHandlerView {
                    last_transaction: counted(
                        old(self)@.last_transaction,
                        bv,
                        old(self)@.authority,
                        n as int,
                    ),
                    ..old(self)@
                }),
            decreases blocks.len() - n,
        {
            assert(bv[n as int] == blocks@[n as int]@);
            if blocks[n].author() == self.authority {
                self.last_transaction = count_shares(self.last_transaction, &blocks[n]);
            }
            n += 1;
        }
        if self.last_transaction < u64::MAX {
            self.last_transaction = self.last_transaction + 1;
        }
        let mut response: Vec<BaseStatement> = Vec::new();
        response.push(BaseStatement::Share(Self::make_transaction(self.last_transaction)));
        let ghost first = response@;
        let (certified, mut answer) = process_blocks(
            &mut self.transaction_votes,
            blocks,
            &self.committee,
        );
        self.processed = certified;
        let ghost added = answer@;
        response.append(&mut answer);
        proof {
            assert(response@ =~= first + added);
            assert(statements_view(first + added) =~= statements_view(first) + statements_view(
                added,
            ));
            assert(statements_view(first) =~= seq![
                StatementView::Share(spec_u64_to_le_bytes(self.last_transaction)),
            ]);
        }
        response
    }

    fn handle_proposal(&mut self, block: &StatementBlock) {
        let mut locators = block.shared_transactions();
        register_all(&mut self.transaction_votes, &locators, self.authority, &self.committee);
        self.proposed.append(&mut locators);
    }

    fn handle_transactions(&mut self, transactions: Vec<Transaction>) {
    }

    fn state(&self) -> (snapshot: Vec<u8>)
        ensures
            self.snapshot_words().len() <= u64::MAX,
    {
        let mut words: Vec<u64> = Vec::new();
        words.push(self.last_transaction);
        self.transaction_votes.push_votes_words(&mut words);
        assert(words@ =~= self.snapshot_words());
        encode_words(&words)
    }

    fn can_recover(&self, state: &Vec<u8>) -> (r: bool) {
        match decode_words(state) {
            Some(words) => words.len() > 0 && TransactionAggregator::from_votes_words(
                &words,
                1,
                &self.committee,
            ).is_some(),
            None => false,
        }
    }

    fn recover_state(&mut self, state: &Vec<u8>) {
        let words = decode_words(state).unwrap();
        let votes = TransactionAggregator::from_votes_words(&words, 1, &self.committee).unwrap();
        self.last_transaction = words[0];
        self.transaction_votes = votes;
    }
}

/// Mathematical value of a [`RealBlockHandler`].
pub struct RealHandlerView {
    pub votes: VotesView,
    pub committee: Seq<u64>,
    pub authority: AuthorityIndex,
    /// Transactions of clients that no own block shares yet, oldest first.
    pub intake: Seq<Seq<u8>>,
    /// The transactions certified by the blocks handled last.
    pub processed: Seq<TransactionLocator>,
}

/// The block handler of a node in service: it shares the transactions that
/// clients hand in, and accepts every transaction it sees.
#[derive(Debug)]
pub struct RealBlockHandler {
    transaction_votes: TransactionAggregator,
    committee: Committee,
    authority: AuthorityIndex,
    intake: Vec<Transaction>,
    processed: Vec<TransactionLocator>,
}

impl View for RealBlockHandler {
    type V = RealHandlerView;

    closed spec fn view(&self) -> RealHandlerView {
        RealHandlerView {
            votes: self.transaction_votes@,
            committee: self.committee@,
            authority: self.authority,
            intake: transactions_view(self.intake@),
            processed: self.processed@,
        }
    }
}

impl RealBlockHandler {
    /// A handler for `authority` that has seen nothing.
    pub fn new(committee: Committee, authority: AuthorityIndex) -> (r: Self)
        ensures
            r.inv(),
            r@ == (RealHandlerView {
                votes: crate::aggregator::no_votes(),
                committee: committee@,
                authority,
                intake: Seq::empty(),
                processed: Seq::empty(),
            }),
            r.snapshot_words() == Seq::<u64>::empty(),
    {
        let r = RealBlockHandler {
            transaction_votes: TransactionAggregator::new(),
            committee,
            authority,
            intake: Vec::new(),
            processed: Vec::new(),
        };
        assert(transactions_view(r.intake@) =~= Seq::empty());
        r
    }

    /// Whether `locator` is marked as certified.
    pub closed spec fn spec_is_certified(&self, locator: TransactionLocator) -> bool {
        self.transaction_votes.spec_is_processed(locator)
    }

    /// A transaction is marked as certified exactly when the authorities that
    /// accepted it hold a quorum of the stake.
    pub proof fn lemma_certified_iff_quorum(&self, locator: TransactionLocator)
        requires
            self.inv(),
        ensures
            self.spec_is_certified(locator) <==> crate::aggregator::certified(
                self@.votes,
                self@.committee,
                locator,
            ),
    {
        self.transaction_votes.lemma_processed_iff_quorum(self.committee@, locator);
    }

    /// Whether a quorum has accepted the transaction at `locator`.
    pub fn is_certified(&self, locator: &TransactionLocator) -> (r: bool)
        ensures
            r == self.spec_is_certified(*locator),
    {
        self.transaction_votes.is_processed(locator)
    }

    /// Number of transactions with a vote.
    pub fn pending_certificates(&self) -> (r: usize)
        ensures
            r == self.spec_pending_certificates(),
    {
        self.transaction_votes.len()
    }

    /// The transactions certified by the blocks handled last, in order.
    pub fn processed(&self) -> (r: &Vec<TransactionLocator>)
        ensures
            r@ == self@.processed,
    {
        &self.processed
    }

    /// Number of transactions with a vote.
    pub closed spec fn spec_pending_certificates(&self) -> nat {
        self.transaction_votes.spec_len()
    }

    /// The words of a snapshot: the votes counted.
    pub closed spec fn snapshot_words(&self) -> Seq<u64> {
        self.transaction_votes.spec_votes_words()
    }

    /// Snapshot round trip: a handler for the same committee can restore
    /// the snapshot of this handler, and then has the votes of this handler.
    pub proof fn lemma_snapshot_round_trip(&self, before: &Self, after: &Self)
        requires
            self.inv(),
            self.snapshot_words().len() <= u64::MAX,
            before@.committee == self@.committee,
        ensures
            before.restorable(self.snapshot()),
            before.recovered(self.snapshot(), after) ==> after@.votes == self@.votes,
    {
        let words = self.snapshot_words();
        lemma_words_round_trip(words, Seq::empty());
        assert(words_encoding(words) + Seq::<u8>::empty() =~= words_encoding(words));
        self.transaction_votes.lemma_votes_words(self.committee@, Seq::empty());
        assert(Seq::<u64>::empty() + words =~= words);
    }
}

/// Shares of copies of `transactions`, one for one.
fn share_all(transactions: &Vec<Transaction>) -> (r: Vec<BaseStatement>)
    ensures
        statements_view(r@) == shares(transactions_view(transactions@)),
{
    let mut r: Vec<BaseStatement> = Vec::new();
    let mut n: usize = 0;
    while n < transactions.len()
        invariant
            n <= transactions.len(),
            r@.len() == n,
            forall|j: int| 0 <= j < n ==> (#[trigger] r@[j])@ == StatementView::Share(transactions@[j]@),
        decreases transactions.len() - n,
    {
        r.push(BaseStatement::Share(transactions[n].clone()));
        n += 1;
    }
    assert(statements_view(r@) =~= shares(transactions_view(transactions@)));
    r
}

impl BlockHandler for RealBlockHandler {
    closed spec fn inv(&self) -> bool {
        self.transaction_votes.inv(self.committee@)
    }

    /// The handler counts what the blocks state and notes the transactions
    /// that they certify. It gives out every transaction handed in since the
    /// last call, oldest first, then an accepting vote for every transaction
    /// shared in the blocks.
    open spec fn handled_blocks(
        &self,
        blocks: Seq<BlockView>,
        statements: Seq<StatementView>,
        after: &Self,
    ) -> bool {
        &&& after@ == (RealHandlerView {
            votes: blocks_applied(self@.votes, self@.committee, blocks, blocks.len() as int),
            intake: Seq::empty(),
            processed: blocks_certified(
                self@.votes,
                self@.committee,
                blocks,
                blocks.len() as int,
            ),
            ..self@
        })
        &&& statements == shares(self@.intake) + all_answers(blocks, blocks.len() as int)
    }

    /// The handler counts its authority as accepting the transactions that
    /// the own block shares.
    open spec fn handled_proposal(&self, block: BlockView, after: &Self) -> bool {
        after@ == (RealHandlerView {
            votes: registered(
                self@.votes,
                self@.committee,
                shared_locators(block),
                self@.authority,
                shared_locators(block).len() as int,
            ),
            ..self@
        })
    }

    /// The handler queues the transactions behind those handed in before.
    open spec fn handled_transactions(&self, transactions: Seq<Seq<u8>>, after: &Self) -> bool {
        after@ == (RealHandlerView { intake: self@.intake + transactions, ..self@ })
    }

    closed spec fn snapshot(&self) -> Seq<u8> {
        words_encoding(self.snapshot_words())
    }

    /// A snapshot holds a list of words that is a list of votes.
    open spec fn restorable(&self, state: Seq<u8>) -> bool {
        words_decoding(state) matches Some(w) && votes_shaped(w, 0)
    }

    /// The handler that has restored a snapshot has counted its votes and no
    /// others.
    open spec fn recovered(&self, state: Seq<u8>, after: &Self) -> bool {
        after@ == (RealHandlerView {
            votes: votes_replayed(
                self@.committee,
                words_decoding(state)->Some_0,
                0,
                words_decoding(state)->Some_0.len() as int / 6,
            ),
            ..self@
        })
    }

    fn handle_blocks(&mut self, blocks: &Vec<StatementBlock>) -> (statements: Vec<BaseStatement>) {
        let mut response = share_all(&self.intake);
        self.intake = Vec::new();
        let ghost first = response@;
        let (certified, mut answer) = process_blocks(
            &mut self.transaction_votes,
            blocks,
            &self.committee,
        );
        self.processed = certified;
        let ghost added = answer@;
        response.append(&mut answer);
        proof {
            assert(response@ =~= first + added);
            assert(statements_view(first + added) =~= statements_view(first) + statements_view(
                added,
            ));
            assert(transactions_view(self.intake@) =~= Seq::empty());
        }
        response
    }

    fn handle_proposal(&mut self, block: &StatementBlock) {
        let locators = block.shared_transactions();
        register_all(&mut self.transaction_votes, &locators, self.authority, &self.committee);
    }

    fn handle_transactions(&mut self, transactions: Vec<Transaction>) {
        let ghost before = self.intake@;
        let mut transactions = transactions;
        let ghost added = transactions@;
        self.intake.append(&mut transactions);
        proof {
            assert(self.intake@ =~= before + added);
            assert(transactions_view(before + added) =~= transactions_view(before)
                + transactions_view(added));
        }
    }

    fn state(&self) -> (snapshot: Vec<u8>)
        ensures
            self.snapshot_words().len() <= u64::MAX,
    {
        let mut words: Vec<u64> = Vec::new();
        self.transaction_votes.push_votes_words(&mut words);
        assert(words@ =~= self.transaction_votes.spec_votes_words());
        encode_words(&words)
    }

    fn can_recover(&self, state: &Vec<u8>) -> (r: bool) {
        match decode_words(state) {
            Some(words) => TransactionAggregator::from_votes_words(
                &words,
                0,
                &self.committee,
            ).is_some(),
            None => false,
        }
    }

    fn recover_state(&mut self, state: &Vec<u8>) {
        let words = decode_words(state).unwrap();
        let votes = TransactionAggregator::from_votes_words(&words, 0, &self.committee).unwrap();
        self.transaction_votes = votes;
    }
}

/// Number of bytes of a generated transaction.
pub const REAL_BLOCK_HANDLER_TXN_SIZE: usize = 512;

/// Number of random bytes drawn at a time for a generated transaction.
pub const REAL_BLOCK_HANDLER_TXN_GEN_STEP: usize = 32;

/// The size of a generated transaction is a whole number of steps.
pub fn assert_constants()
    ensures
        REAL_BLOCK_HANDLER_TXN_SIZE % REAL_BLOCK_HANDLER_TXN_GEN_STEP == 0,
{
}

/// The generator of random numbers of `rand`; nothing is known of its state.
#[verifier::external_type_specification]
#[verifier::external_body]
pub struct ExStdRng(StdRng);

/// Calls `StdRng::seed_from_u64`, which makes a generator from a seed.
#[verifier::external_body]
fn seeded_rng(seed: u64) -> StdRng {
    StdRng::seed_from_u64(seed)
}

/// Calls `Rng::gen` for an array of 32 bytes; every outcome has that many
/// bytes.
#[verifier::external_body]
fn random_step(rng: &mut StdRng) -> (bytes: Vec<u8>)
    ensures
        bytes@.len() == 32,
{
    rng.gen::<[u8; 32]>().to_vec()
}

/// Draws [`REAL_BLOCK_HANDLER_TXN_SIZE`] random bytes, step by step.
fn random_bytes(rng: &mut StdRng) -> (bytes: Vec<u8>)
    ensures
        bytes@.len() == REAL_BLOCK_HANDLER_TXN_SIZE,
{
    let mut bytes: Vec<u8> = Vec::new();
    while bytes.len() < REAL_BLOCK_HANDLER_TXN_SIZE
        invariant
            bytes@.len() <= REAL_BLOCK_HANDLER_TXN_SIZE,
            bytes@.len() % REAL_BLOCK_HANDLER_TXN_GEN_STEP as nat == 0,
        decreases REAL_BLOCK_HANDLER_TXN_SIZE - bytes@.len(),
    {
        let mut step = random_step(rng);
        bytes.append(&mut step);
    }
    bytes
}

/// Makes up the transactions of a load test.
pub struct TransactionGenerator {
    rng: StdRng,
    transactions_per_100ms: usize,
    initial_delay_ms: u64,
}

impl TransactionGenerator {
    /// A generator seeded with `seed` that makes `transactions_per_100ms`
    /// transactions at a time, the first after `initial_delay_ms`
    /// milliseconds.
    pub fn start(seed: AuthorityIndex, transactions_per_100ms: usize, initial_delay_ms: u64) -> (r:
        Self)
        ensures
            r.batch_size() == transactions_per_100ms,
            r.spec_initial_delay_ms() == initial_delay_ms,
    {
        TransactionGenerator { rng: seeded_rng(seed), transactions_per_100ms, initial_delay_ms }
    }

    /// Number of transactions made at a time.
    pub closed spec fn batch_size(&self) -> usize {
        self.transactions_per_100ms
    }

    /// Milliseconds to wait before the first batch.
    pub closed spec fn spec_initial_delay_ms(&self) -> u64 {
        self.initial_delay_ms
    }

    /// Milliseconds to wait before the first batch.
    pub fn initial_delay_ms(&self) -> (r: u64)
        ensures
            r == self.spec_initial_delay_ms(),
    {
        self.initial_delay_ms
    }

    /// Makes the next batch: as many transactions as the generator makes at
    /// a time, each of [`REAL_BLOCK_HANDLER_TXN_SIZE`] random bytes.
    pub fn run(&mut self) -> (block: Vec<Transaction>)
        ensures
            final(self).batch_size() == old(self).batch_size(),
            final(self).spec_initial_delay_ms() == old(self).spec_initial_delay_ms(),
            block@.len() == old(self).batch_size(),
            forall|k: int|
                0 <= k < block@.len() ==> (#[trigger] block@[k])@.len()
                    == REAL_BLOCK_HANDLER_TXN_SIZE,
    {
        let n = self.transactions_per_100ms;
        let mut block: Vec<Transaction> = Vec::new();
        let mut k: usize = 0;
        while k < n
            invariant
                k <= n,
                n == self.transactions_per_100ms,
                self.transactions_per_100ms == old(self).transactions_per_100ms,
                self.initial_delay_ms == old(self).initial_delay_ms,
                block@.len() == k,
                forall|j: int|
                    0 <= j < k ==> (#[trigger] block@[j])@.len() == REAL_BLOCK_HANDLER_TXN_SIZE,
            decreases n - k,
        {
            let transaction = random_bytes(&mut self.rng);
            block.push(Transaction::new(transaction));
            k += 1;
        }
        block
    }
}

} // verus!
