//! Vote aggregation: which authorities voted on which transaction, and which
//! transactions a quorum has certified or rejected.

use crate::committee::{is_quorum_of, lemma_empty_no_quorum, AuthoritySet, Committee};
use crate::types::{
    statements_view, AuthorityIndex, BaseStatement, BlockReference, BlockView, StatementBlock,
    StatementView, TransactionLocator, Vote,
};
use vstd::prelude::*;

verus! {

/// What a vote did.
#[derive(Clone, Copy, Debug, PartialEq, Eq, Structural)]
pub enum TransactionVoteResult {
    /// With this vote the accepting votes reached a quorum.
    Processed,
    /// With this vote the rejecting votes reached a quorum.
    Rejected,
    /// The vote was counted, or had been counted before.
    VoteAccepted,
    /// The voter is not in the committee; the vote was ignored.
    UnknownAuthority,
}

/// Mathematical value of a [`TransactionAggregator`]: for every transaction,
/// who accepted it and who rejected it.
pub struct VotesView {
    pub accepted: Map<TransactionLocator, Set<AuthorityIndex>>,
    pub rejected: Map<TransactionLocator, Set<AuthorityIndex>>,
}

/// The votes before any vote.
pub open spec fn no_votes() -> VotesView {
    VotesView {
        accepted: Map::new(
            |k: TransactionLocator| true,
            |k: TransactionLocator| Set::<AuthorityIndex>::empty(),
        ),
        rejected: Map::new(
            |k: TransactionLocator| true,
            |k: TransactionLocator| Set::<AuthorityIndex>::empty(),
        ),
    }
}

/// The votes once `voter` has voted `vote` on `k`. A vote of an authority
/// outside the committee changes nothing, and so does a repeated vote.
pub open spec fn vote_applied(
    v: VotesView,
    stakes: Seq<u64>,
    k: TransactionLocator,
    voter: AuthorityIndex,
    vote: Vote,
) -> VotesView {
    if voter >= stakes.len() {
        v
    } else {
        match vote {
            Vote::Accept => VotesView {
                accepted: v.accepted.insert(k, v.accepted[k].insert(voter)),
                ..v
            },
            Vote::Reject => VotesView {
                rejected: v.rejected.insert(k, v.rejected[k].insert(voter)),
                ..v
            },
        }
    }
}

/// Whether a quorum has accepted `k`.
pub open spec fn certified(v: VotesView, stakes: Seq<u64>, k: TransactionLocator) -> bool {
    is_quorum_of(stakes, v.accepted[k])
}

/// Whether a quorum has rejected `k`.
pub open spec fn refused(v: VotesView, stakes: Seq<u64>, k: TransactionLocator) -> bool {
    is_quorum_of(stakes, v.rejected[k])
}

/// The vote that the statement at `offset` of `block` casts, if it casts
/// one: sharing a transaction counts as its author accepting it.
pub open spec fn vote_of(block: BlockView, offset: int) -> (TransactionLocator, Vote) {
    match block.statements[offset] {
        StatementView::Share(_) => (
            TransactionLocator { block: block.reference, offset: offset as u64 },
            Vote::Accept,
        ),
        StatementView::Vote(k, vote) => (k, vote),
    }
}

/// The votes once the first `n` statements of `block` are counted.
pub open spec fn block_applied(v: VotesView, stakes: Seq<u64>, block: BlockView, n: int) -> VotesView
    decreases n,
{
    if n <= 0 {
        v
    } else {
        let before = block_applied(v, stakes, block, n - 1);
        let (k, vote) = vote_of(block, n - 1);
        vote_applied(before, stakes, k, block.reference.authority, vote)
    }
}

/// The transactions that the first `n` statements of `block` certify: those
/// that a quorum accepts once the statement is counted, and not before.
pub open spec fn newly_certified(v: VotesView, stakes: Seq<u64>, block: BlockView, n: int) -> Seq<
    TransactionLocator,
>
    decreases n,
{
    if n <= 0 {
        Seq::empty()
    } else {
        let rest = newly_certified(v, stakes, block, n - 1);
        let before = block_applied(v, stakes, block, n - 1);
        let after = block_applied(v, stakes, block, n);
        let k = vote_of(block, n - 1).0;
        if certified(after, stakes, k) && !certified(before, stakes, k) {
            rest.push(k)
        } else {
            rest
        }
    }
}

/// The votes with which an authority answers the first `n` statements of
/// `block`: it accepts every transaction shared.
pub open spec fn answers(block: BlockView, n: int) -> Seq<StatementView>
    decreases n,
{
    if n <= 0 {
        Seq::empty()
    } else {
        let rest = answers(block, n - 1);
        match block.statements[n - 1] {
            StatementView::Share(_) => rest.push(
                StatementView::Vote(
                    TransactionLocator { block: block.reference, offset: (n - 1) as u64 },
                    Vote::Accept,
                ),
            ),
            StatementView::Vote(_, _) => rest,
        }
    }
}

/// The votes on one transaction.
#[derive(Debug)]
pub struct VoteRecord {
    locator: TransactionLocator,
    accepted: AuthoritySet,
    rejected: AuthoritySet,
    certified: bool,
    refused: bool,
}

/// Those who accepted `k` according to the records from index `from` on.
pub closed spec fn accepted_in(v: Seq<VoteRecord>, k: TransactionLocator, from: int) -> Set<
    AuthorityIndex,
>
    decreases v.len() - from,
{
    if from < 0 || from >= v.len() {
        Set::empty()
    } else if v[from].locator == k {
        v[from].accepted@
    } else {
        accepted_in(v, k, from + 1)
    }
}

/// Those who rejected `k` according to the records from index `from` on.
pub closed spec fn rejected_in(v: Seq<VoteRecord>, k: TransactionLocator, from: int) -> Set<
    AuthorityIndex,
>
    decreases v.len() - from,
{
    if from < 0 || from >= v.len() {
        Set::empty()
    } else if v[from].locator == k {
        v[from].rejected@
    } else {
        rejected_in(v, k, from + 1)
    }
}

proof fn lemma_absent(v: Seq<VoteRecord>, k: TransactionLocator, from: int)
    requires
        0 <= from,
        forall|j: int| from <= j < v.len() ==> (#[trigger] v[j]).locator != k,
    ensures
        accepted_in(v, k, from) == Set::<AuthorityIndex>::empty(),
        rejected_in(v, k, from) == Set::<AuthorityIndex>::empty(),
    decreases v.len() - from,
{
    if from < v.len() {
        lemma_absent(v, k, from + 1);
    }
}

proof fn lemma_same_tail(v: Seq<VoteRecord>, w: Seq<VoteRecord>, k: TransactionLocator, from: int)
    requires
        0 <= from,
        v.len() == w.len(),
        forall|j: int| from <= j < v.len() ==> v[j] == w[j],
    ensures
        accepted_in(v, k, from) == accepted_in(w, k, from),
        rejected_in(v, k, from) == rejected_in(w, k, from),
    decreases v.len() - from,
{
    if from < v.len() {
        lemma_same_tail(v, w, k, from + 1);
    }
}

proof fn lemma_found(v: Seq<VoteRecord>, i: int, k: TransactionLocator, from: int)
    requires
        0 <= from <= i < v.len(),
        v[i].locator == k,
        forall|j: int| from <= j < i ==> (#[trigger] v[j]).locator != k,
    ensures
        accepted_in(v, k, from) == v[i].accepted@,
        rejected_in(v, k, from) == v[i].rejected@,
    decreases i - from,
{
    if from < i {
        lemma_found(v, i, k, from + 1);
    }
}

proof fn lemma_update(v: Seq<VoteRecord>, i: int, e: VoteRecord, k: TransactionLocator, from: int)
    requires
        0 <= from <= i < v.len(),
        e.locator == v[i].locator,
        forall|j: int| from <= j < i ==> (#[trigger] v[j]).locator != e.locator,
    ensures
        accepted_in(v.update(i, e), k, from) == if k == e.locator {
            e.accepted@
        } else {
            accepted_in(v, k, from)
        },
        rejected_in(v.update(i, e), k, from) == if k == e.locator {
            e.rejected@
        } else {
            rejected_in(v, k, from)
        },
    decreases i - from,
{
    let w = v.update(i, e);
    if from < i {
        lemma_update(v, i, e, k, from + 1);
        assert(w[from] == v[from]);
    } else {
        if k != e.locator {
            lemma_same_tail(v, w, k, from + 1);
        }
    }
}

proof fn lemma_push(v: Seq<VoteRecord>, e: VoteRecord, k: TransactionLocator, from: int)
    requires
        0 <= from <= v.len(),
        forall|j: int| from <= j < v.len() ==> (#[trigger] v[j]).locator != e.locator,
    ensures
        accepted_in(v.push(e), k, from) == if k == e.locator {
            e.accepted@
        } else {
            accepted_in(v, k, from)
        },
        rejected_in(v.push(e), k, from) == if k == e.locator {
            e.rejected@
        } else {
            rejected_in(v, k, from)
        },
    decreases v.len() - from,
{
    let w = v.push(e);
    if from < v.len() {
        lemma_push(v, e, k, from + 1);
        assert(w[from] == v[from]);
    } else {
        assert(w[from] == e);
        assert(accepted_in(w, k, from + 1) == Set::<AuthorityIndex>::empty());
        assert(rejected_in(w, k, from + 1) == Set::<AuthorityIndex>::empty());
    }
}

/// What holds of the records of an aggregator: each transaction has one
/// record, only authorities of the committee are recorded, and the marks
/// say whether a quorum is reached.
pub closed spec fn records_wf(v: Seq<VoteRecord>, stakes: Seq<u64>) -> bool {
    &&& forall|i: int|
        0 <= i < v.len() ==> {
            let r = #[trigger] v[i];
            &&& r.certified == is_quorum_of(stakes, r.accepted@)
            &&& r.refused == is_quorum_of(stakes, r.rejected@)
            &&& forall|a: AuthorityIndex| r.accepted@.contains(a) ==> a < stakes.len()
            &&& forall|a: AuthorityIndex| r.rejected@.contains(a) ==> a < stakes.len()
        }
    &&& forall|i: int, j: int|
        0 <= i < j < v.len() ==> (#[trigger] v[i]).locator != (#[trigger] v[j]).locator
}

/// Counts the votes on transactions.
#[derive(Debug)]
pub struct TransactionAggregator {
    records: Vec<VoteRecord>,
}

impl View for TransactionAggregator {
    type V = VotesView;

    closed spec fn view(&self) -> VotesView {
        VotesView {
            accepted: Map::new(
                |k: TransactionLocator| true,
                |k: TransactionLocator| accepted_in(self.records@, k, 0),
            ),
            rejected: Map::new(
                |k: TransactionLocator| true,
                |k: TransactionLocator| rejected_in(self.records@, k, 0),
            ),
        }
    }
}

impl TransactionAggregator {
    /// What holds of an aggregator that counts for a committee with stake
    /// `stakes`: it has marked as certified the transactions that a quorum
    /// has accepted, as rejected those that a quorum has rejected, and no
    /// others.
    pub closed spec fn inv(&self, stakes: Seq<u64>) -> bool {
        records_wf(self.records@, stakes)
    }

    /// Whether the aggregator has marked `k` as certified.
    pub closed spec fn spec_is_processed(&self, k: TransactionLocator) -> bool {
        exists|i: int|
            0 <= i < self.records@.len() && (#[trigger] self.records@[i]).locator == k
                && self.records@[i].certified && forall|j: int|
                0 <= j < i ==> (#[trigger] self.records@[j]).locator != k
    }

    /// Whether the aggregator has marked `k` as rejected.
    pub closed spec fn spec_is_rejected(&self, k: TransactionLocator) -> bool {
        exists|i: int|
            0 <= i < self.records@.len() && (#[trigger] self.records@[i]).locator == k
                && self.records@[i].refused && forall|j: int|
                0 <= j < i ==> (#[trigger] self.records@[j]).locator != k
    }

    /// A transaction is marked as certified exactly when the authorities
    /// that accepted it hold a quorum of the stake, and as rejected exactly
    /// when those that rejected it do.
    pub proof fn lemma_processed_iff_quorum(&self, stakes: Seq<u64>, k: TransactionLocator)
        requires
            self.inv(stakes),
        ensures
            self.spec_is_processed(k) <==> certified(self@, stakes, k),
            self.spec_is_rejected(k) <==> refused(self@, stakes, k),
    {
        let v = self.records@;
        if exists|i: int| 0 <= i < v.len() && (#[trigger] v[i]).locator == k {
            let i = Self::first_record(v, k, v.len() as int);
            lemma_found(v, i, k, 0);
            if self.spec_is_processed(k) {
                let a = choose|a: int|
                    0 <= a < v.len() && (#[trigger] v[a]).locator == k && v[a].certified
                        && forall|j: int| 0 <= j < a ==> (#[trigger] v[j]).locator != k;
                assert(a == i);
            }
            if self.spec_is_rejected(k) {
                let a = choose|a: int|
                    0 <= a < v.len() && (#[trigger] v[a]).locator == k && v[a].refused
                        && forall|j: int| 0 <= j < a ==> (#[trigger] v[j]).locator != k;
                assert(a == i);
            }
        } else {
            lemma_absent(v, k, 0);
            lemma_empty_no_quorum(stakes);
        }
    }

    /// Index of the first record on `k` among the first `n`.
    proof fn first_record(v: Seq<VoteRecord>, k: TransactionLocator, n: int) -> (i: int)
        requires
            0 <= n <= v.len(),
            exists|a: int| 0 <= a < n && (#[trigger] v[a]).locator == k,
        ensures
            0 <= i < n,
            v[i].locator == k,
            forall|j: int| 0 <= j < i ==> (#[trigger] v[j]).locator != k,
        decreases n,
    {
        if exists|a: int| 0 <= a < n - 1 && (#[trigger] v[a]).locator == k {
            Self::first_record(v, k, n - 1)
        } else {
            n - 1
        }
    }

    /// An aggregator without votes.
    pub fn new() -> (r: Self)
        ensures
            r@ == no_votes(),
            forall|stakes: Seq<u64>| #[trigger] r.inv(stakes),
            r.spec_votes_words() == Seq::<u64>::empty(),
    {
        let r = TransactionAggregator { records: Vec::new() };
        assert(r@.accepted =~= no_votes().accepted);
        assert(r@.rejected =~= no_votes().rejected);
        r
    }

    /// Number of transactions with a vote.
    pub fn len(&self) -> (r: usize)
        ensures
            r == self.spec_len(),
    {
        self.records.len()
    }

    /// Number of transactions with a vote.
    pub closed spec fn spec_len(&self) -> nat {
        self.records@.len()
    }

    fn find(&self, k: &TransactionLocator) -> (found: Option<usize>)
        ensures
            found matches Some(i) ==> i < self.records@.len() && self.records@[i as int].locator
                == *k && forall|j: int| 0 <= j < i ==> (#[trigger] self.records@[j]).locator != *k,
            found is None ==> forall|j: int|
                0 <= j < self.records@.len() ==> (#[trigger] self.records@[j]).locator != *k,
    {
        let mut i: usize = 0;
        while i < self.records.len()
            invariant
                i <= self.records.len(),
                forall|j: int| 0 <= j < i ==> (#[trigger] self.records@[j]).locator != *k,
            decreases self.records.len() - i,
        {
            if self.records[i].locator == *k {
                return Some(i);
            }
            i += 1;
        }
        None
    }

    /// Whether a quorum has accepted `k`.
    pub fn is_processed(&self, k: &TransactionLocator) -> (r: bool)
        ensures
            r == self.spec_is_processed(*k),
    {
        match self.find(k) {
            Some(i) => self.records[i].certified,
            None => false,
        }
    }

    /// Whether a quorum has rejected `k`.
    pub fn is_rejected(&self, k: &TransactionLocator) -> (r: bool)
        ensures
            r == self.spec_is_rejected(*k),
    {
        match self.find(k) {
            Some(i) => self.records[i].refused,
            None => false,
        }
    }

    /// Counts the vote `vote` of `voter` on `k`, and tells whether it was
    /// the vote that completed a quorum.
    pub fn vote(
        &mut self,
        k: TransactionLocator,
        voter: AuthorityIndex,
        vote: Vote,
        committee: &Committee,
    ) -> (r: TransactionVoteResult)
        requires
            old(self).inv(committee@),
        ensures
            final(self).inv(committee@),
            final(self)@ == vote_applied(old(self)@, committee@, k, voter, vote),
            r == vote_result(old(self)@, committee@, k, voter, vote),
    {
        if !committee.known_authority(voter) {
            return TransactionVoteResult::UnknownAuthority;
        }
        let ghost before = self.records@;
        let ghost goal = vote_applied(self@, committee@, k, voter, vote);
        let (mut accepted, mut rejected, was_certified, was_refused, at) = match self.find(&k) {
            Some(i) => {
                proof {
                    lemma_found(before, i as int, k, 0);
                }
                (
                    self.records[i].accepted.clone(),
                    self.records[i].rejected.clone(),
                    self.records[i].certified,
                    self.records[i].refused,
                    Some(i),
                )
            },
            None => {
                proof {
                    lemma_absent(before, k, 0);
                    lemma_empty_no_quorum(committee@);
                }
                (AuthoritySet::new(), AuthoritySet::new(), false, false, None)
            },
        };
        match vote {
            Vote::Accept => {
                accepted.insert(voter);
            },
            Vote::Reject => {
                rejected.insert(voter);
            },
        }
        let now_certified = committee.is_quorum(&accepted);
        let now_refused = committee.is_quorum(&rejected);
        let record = VoteRecord {
            locator: k,
            accepted,
            rejected,
            certified: now_certified,
            refused: now_refused,
        };
        match at {
            Some(i) => {
                self.records.set(i, record);
                proof {
                    assert forall|x: TransactionLocator|
                        accepted_in(self.records@, x, 0) == goal.accepted[x] && rejected_in(
                            self.records@,
                            x,
                            0,
                        ) == goal.rejected[x] by {
                        lemma_update(before, i as int, record, x, 0);
                    }
                }
            },
            None => {
                self.records.push(record);
                proof {
                    assert forall|x: TransactionLocator|
                        accepted_in(self.records@, x, 0) == goal.accepted[x] && rejected_in(
                            self.records@,
                            x,
                            0,
                        ) == goal.rejected[x] by {
                        lemma_push(before, record, x, 0);
                    }
                }
            },
        }
        proof {
            assert(self@.accepted =~= goal.accepted);
            assert(self@.rejected =~= goal.rejected);
        }
        match vote {
            Vote::Accept => if now_certified && !was_certified {
                TransactionVoteResult::Processed
            } else {
                TransactionVoteResult::VoteAccepted
            },
            Vote::Reject => if now_refused && !was_refused {
                TransactionVoteResult::Rejected
            } else {
                TransactionVoteResult::VoteAccepted
            },
        }
    }

    /// Counts `voter` as accepting `k`.
    pub fn register(&mut self, k: TransactionLocator, voter: AuthorityIndex, committee: &Committee)
        requires
            old(self).inv(committee@),
        ensures
            final(self).inv(committee@),
            final(self)@ == vote_applied(old(self)@, committee@, k, voter, Vote::Accept),
    {
        self.vote(k, voter, Vote::Accept, committee);
    }

    /// Counts what `block` states: its author accepts every transaction it
    /// shares and votes as its votes say. Returns the transactions certified
    /// on the way, in order, and, where `respond` is set, an accepting vote
    /// for every transaction shared.
    pub fn process_block(&mut self, block: &StatementBlock, respond: bool, committee: &Committee) -> (r:
        (Vec<TransactionLocator>, Vec<BaseStatement>))
        requires
            old(self).inv(committee@),
        ensures
            final(self).inv(committee@),
            final(self)@ == block_applied(
                old(self)@,
                committee@,
                block@,
                block@.statements.len() as int,
            ),
            r.0@ == newly_certified(
                old(self)@,
                committee@,
                block@,
                block@.statements.len() as int,
            ),
            statements_view(r.1@) == if respond {
                answers(block@, block@.statements.len() as int)
            } else {
                Seq::empty()
            },
    {
        let statements = block.statements();
        let author = block.author();
        let reference = *block.reference();
        let ghost sv = block@.statements;
        let mut processed: Vec<TransactionLocator> = Vec::new();
        let mut response: Vec<BaseStatement> = Vec::new();
        let mut n: usize = 0;
        assert(statements_view(response@) =~= Seq::empty());
        while n < statements.len()
            invariant
                n <= statements.len(),
                sv == block@.statements,
                statements_view(statements@) == sv,
                author == block@.reference.authority,
                reference == block@.reference,
                self.inv(committee@),
                self@ == block_applied(old(self)@, committee@, block@, n as int),
                processed@ == newly_certified(old(self)@, committee@, block@, n as int),
                statements_view(response@) == if respond {
                    answers(block@, n as int)
                } else {
                    Seq::empty()
                },
            decreases statements.len() - n,
        {
            let ghost answered = statements_view(response@);
            assert(sv[n as int] == statements@[n as int]@);
            let (k, vote) = match &statements[n] {
                BaseStatement::Share(_) => {
                    let k = TransactionLocator { block: reference, offset: n as u64 };
                    if respond {
                        response.push(BaseStatement::Vote(k, Vote::Accept));
                        assert(statements_view(response@) =~= answered.push(
                            StatementView::Vote(k, Vote::Accept),
                        ));
                    }
                    (k, Vote::Accept)
                },
                BaseStatement::Vote(k, vote) => (*k, *vote),
            };
            let was = self.is_processed(&k);
            proof {
                self.lemma_processed_iff_quorum(committee@, k);
            }
            self.vote(k, author, vote, committee);
            let is = self.is_processed(&k);
            proof {
                self.lemma_processed_iff_quorum(committee@, k);
            }
            if is && !was {
                processed.push(k);
            }
            n += 1;
        }
        (processed, response)
    }
}

/// What [`TransactionAggregator::vote`] returns for a vote on the votes `v`.
pub open spec fn vote_result(
    v: VotesView,
    stakes: Seq<u64>,
    k: TransactionLocator,
    voter: AuthorityIndex,
    vote: Vote,
) -> TransactionVoteResult {
    let after = vote_applied(v, stakes, k, voter, vote);
    if voter >= stakes.len() {
        TransactionVoteResult::UnknownAuthority
    } else {
        match vote {
            Vote::Accept => if certified(after, stakes, k) && !certified(v, stakes, k) {
                TransactionVoteResult::Processed
            } else {
                TransactionVoteResult::VoteAccepted
            },
            Vote::Reject => if refused(after, stakes, k) && !refused(v, stakes, k) {
                TransactionVoteResult::Rejected
            } else {
                TransactionVoteResult::VoteAccepted
            },
        }
    }
}

/// Number of words that stand for one vote in a snapshot: the four of the
/// transaction's locator, the voter, and 0 for accepting or 1 for rejecting.
pub const VOTE_WORDS: usize = 6;

/// The vote that the six words of `words` from index `at` on stand for.
pub open spec fn word_vote(words: Seq<u64>, at: int) -> (TransactionLocator, AuthorityIndex, Vote) {
    (
        TransactionLocator {
            block: BlockReference {
                authority: words[at],
                round: words[at + 1],
                digest: words[at + 2],
            },
            offset: words[at + 3],
        },
        words[at + 4],
        if words[at + 5] == 0 {
            Vote::Accept
        } else {
            Vote::Reject
        },
    )
}

/// Whether the words of `words` from index `from` on are a list of votes.
pub open spec fn votes_shaped(words: Seq<u64>, from: int) -> bool {
    &&& 0 <= from <= words.len()
    &&& (words.len() - from) % 6 == 0
    &&& forall|i: int|
        0 <= i < (words.len() - from) / 6 ==> #[trigger] words[from + 6 * i + 5] <= 1
}

/// The votes once the first `n` votes listed in `words` from index `from` on
/// are counted, in order.
pub open spec fn votes_replayed(stakes: Seq<u64>, words: Seq<u64>, from: int, n: int) -> VotesView
    decreases n,
{
    if n <= 0 {
        no_votes()
    } else {
        let before = votes_replayed(stakes, words, from, n - 1);
        let (k, voter, vote) = word_vote(words, from + 6 * (n - 1));
        vote_applied(before, stakes, k, voter, vote)
    }
}

/// The words for the votes of the first `n` of `members` on `k`.
pub open spec fn member_words(k: TransactionLocator, members: Seq<AuthorityIndex>, kind: u64, n: int) -> Seq<
    u64,
>
    decreases n,
{
    if n <= 0 {
        Seq::empty()
    } else {
        member_words(k, members, kind, n - 1) + seq![
            k.block.authority,
            k.block.round,
            k.block.digest,
            k.offset,
            members[n - 1],
            kind,
        ]
    }
}

/// The words for all votes in the first `n` records.
pub closed spec fn records_words(v: Seq<VoteRecord>, n: int) -> Seq<u64>
    decreases n,
{
    if n <= 0 {
        Seq::empty()
    } else {
        let r = v[n - 1];
        records_words(v, n - 1) + member_words(
            r.locator,
            r.accepted.spec_members(),
            0,
            r.accepted.spec_members().len() as int,
        ) + member_words(
            r.locator,
            r.rejected.spec_members(),
            1,
            r.rejected.spec_members().len() as int,
        )
    }
}

/// Appends the words for the votes of `members` on `k`.
fn push_member_words(out: &mut Vec<u64>, k: &TransactionLocator, members: &Vec<AuthorityIndex>, kind: u64)
    ensures
        final(out)@ == old(out)@ + member_words(*k, members@, kind, members@.len() as int),
{
    let mut n: usize = 0;
    assert(out@ =~= old(out)@ + member_words(*k, members@, kind, 0));
    while n < members.len()
        invariant
            n <= members.len(),
            out@ == old(out)@ + member_words(*k, members@, kind, n as int),
        decreases members.len() - n,
    {
        let ghost before = out@;
        out.push(k.block.authority);
        out.push(k.block.round);
        out.push(k.block.digest);
        out.push(k.offset);
        out.push(members[n]);
        out.push(kind);
        n += 1;
        assert(out@ =~= old(out)@ + member_words(*k, members@, kind, n as int));
    }
}

impl TransactionAggregator {
    /// The words that stand for all votes counted: one vote after the other,
    /// transaction by transaction, those accepting before those rejecting.
    pub closed spec fn spec_votes_words(&self) -> Seq<u64> {
        records_words(self.records@, self.records@.len() as int)
    }

    /// Appends to `out` the words that stand for all votes counted.
    pub fn push_votes_words(&self, out: &mut Vec<u64>)
        ensures
            final(out)@ == old(out)@ + self.spec_votes_words(),
    {
        let mut n: usize = 0;
        assert(out@ =~= old(out)@ + records_words(self.records@, 0));
        while n < self.records.len()
            invariant
                n <= self.records.len(),
                out@ == old(out)@ + records_words(self.records@, n as int),
            decreases self.records.len() - n,
        {
            let record = &self.records[n];
            let ghost a = out@;
            push_member_words(out, &record.locator, record.accepted.members(), 0);
            let ghost b = out@;
            push_member_words(out, &record.locator, record.rejected.members(), 1);
            n += 1;
            assert(out@ =~= old(out)@ + records_words(self.records@, n as int));
        }
    }

    /// Counts the votes listed in `words` from index `from` on, for the
    /// committee `committee`; nothing where the words are no list of votes.
    pub fn from_votes_words(words: &Vec<u64>, from: usize, committee: &Committee) -> (r: Option<Self>)
        ensures
            r is Some <==> votes_shaped(words@, from as int),
            r matches Some(a) ==> a.inv(committee@) && a@ == votes_replayed(
                committee@,
                words@,
                from as int,
                (words@.len() - from) / 6,
            ),
    {
        if from > words.len() || (words.len() - from) % 6 != 0 {
            return None;
        }
        let count: usize = (words.len() - from) / 6;
        let mut a = TransactionAggregator::new();
        let mut n: usize = 0;
        while n < count
            invariant
                n <= count,
                from <= words.len(),
                count == (words@.len() - from) / 6,
                (words@.len() - from) % 6 == 0,
                a.inv(committee@),
                a@ == votes_replayed(committee@, words@, from as int, n as int),
                forall|i: int| 0 <= i < n ==> #[trigger] words@[from + 6 * i + 5] <= 1,
            decreases count - n,
        {
            let at: usize = from + 6 * n;
            let kind: u64 = words[at + 5];
            if kind > 1 {
                return None;
            }
            let k = TransactionLocator {
                block: BlockReference {
                    authority: words[at],
                    round: words[at + 1],
                    digest: words[at + 2],
                },
                offset: words[at + 3],
            };
            let vote = if kind == 0 {
                Vote::Accept
            } else {
                Vote::Reject
            };
            a.vote(k, words[at + 4], vote, committee);
            n += 1;
        }
        Some(a)
    }
}

/// The votes once the first `n` votes listed in `words` are counted on top
/// of the votes `v`.
pub open spec fn words_applied(v: VotesView, stakes: Seq<u64>, words: Seq<u64>, n: int) -> VotesView
    decreases n,
{
    if n <= 0 {
        v
    } else {
        let before = words_applied(v, stakes, words, n - 1);
        let (k, voter, vote) = word_vote(words, 6 * (n - 1));
        vote_applied(before, stakes, k, voter, vote)
    }
}

/// Whether votes are recorded, if only none, for every transaction.
pub open spec fn votes_total(v: VotesView) -> bool {
    v.accepted.dom() == Set::<TransactionLocator>::full() && v.rejected.dom() == Set::<
        TransactionLocator,
    >::full()
}

/// The votes `v` with the authorities of `voters` voting on `k`: accepting
/// where `kind` is 0, else rejecting.
pub open spec fn with_voters(
    v: VotesView,
    k: TransactionLocator,
    voters: Set<AuthorityIndex>,
    kind: u64,
) -> VotesView {
    if kind == 0 {
        VotesView { accepted: v.accepted.insert(k, v.accepted[k].union(voters)), ..v }
    } else {
        VotesView { rejected: v.rejected.insert(k, v.rejected[k].union(voters)), ..v }
    }
}

/// Number of votes in the first `n` records.
pub closed spec fn votes_in(v: Seq<VoteRecord>, n: int) -> int
    decreases n,
{
    if n <= 0 {
        0
    } else {
        votes_in(v, n - 1) + v[n - 1].accepted.spec_members().len() + v[n
            - 1].rejected.spec_members().len()
    }
}

/// Whether `words` are six words for each of a number of votes, the sixth
/// word of each being 0 or 1.
pub open spec fn kinds_fit(words: Seq<u64>) -> bool {
    &&& words.len() % 6 == 0
    &&& forall|i: int| 0 <= i < words.len() / 6 ==> #[trigger] words[6 * i + 5] <= 1
}

proof fn lemma_kinds_fit_concat(a: Seq<u64>, b: Seq<u64>)
    requires
        kinds_fit(a),
        kinds_fit(b),
    ensures
        kinds_fit(a + b),
{
    let c = a + b;
    assert forall|i: int| 0 <= i < c.len() / 6 implies #[trigger] c[6 * i + 5] <= 1 by {
        if i < a.len() / 6 {
            assert(c[6 * i + 5] == a[6 * i + 5]);
        } else {
            let j = i - a.len() / 6;
            assert(c[6 * i + 5] == b[6 * j + 5]);
        }
    }
}

proof fn lemma_member_words(k: TransactionLocator, members: Seq<AuthorityIndex>, kind: u64, n: int)
    requires
        0 <= n <= members.len(),
        kind <= 1,
    ensures
        member_words(k, members, kind, n).len() == 6 * n,
        kinds_fit(member_words(k, members, kind, n)),
    decreases n,
{
    if n > 0 {
        lemma_member_words(k, members, kind, n - 1);
        let six = seq![
            k.block.authority,
            k.block.round,
            k.block.digest,
            k.offset,
            members[n - 1],
            kind,
        ];
        assert(kinds_fit(six)) by {
            assert forall|i: int| 0 <= i < six.len() / 6 implies #[trigger] six[6 * i + 5]
                <= 1 by {
                assert(i == 0);
            }
        }
        lemma_kinds_fit_concat(member_words(k, members, kind, n - 1), six);
    }
}

proof fn lemma_records_words(v: Seq<VoteRecord>, n: int)
    requires
        0 <= n <= v.len(),
    ensures
        records_words(v, n).len() == 6 * votes_in(v, n),
        votes_in(v, n) >= 0,
        kinds_fit(records_words(v, n)),
    decreases n,
{
    if n > 0 {
        lemma_records_words(v, n - 1);
        let r = v[n - 1];
        let a = r.accepted.spec_members();
        let b = r.rejected.spec_members();
        lemma_member_words(r.locator, a, 0, a.len() as int);
        lemma_member_words(r.locator, b, 1, b.len() as int);
        lemma_kinds_fit_concat(
            records_words(v, n - 1),
            member_words(r.locator, a, 0, a.len() as int),
        );
        lemma_kinds_fit_concat(
            records_words(v, n - 1) + member_words(r.locator, a, 0, a.len() as int),
            member_words(r.locator, b, 1, b.len() as int),
        );
    } else {
        assert(kinds_fit(records_words(v, n)));
    }
}

/// Counting the first votes of a list does not depend on what follows them.
proof fn lemma_applied_prefix(v: VotesView, stakes: Seq<u64>, a: Seq<u64>, b: Seq<u64>, n: int)
    requires
        0 <= n,
        6 * n <= a.len(),
    ensures
        words_applied(v, stakes, a + b, n) == words_applied(v, stakes, a, n),
    decreases n,
{
    if n > 0 {
        lemma_applied_prefix(v, stakes, a, b, n - 1);
        let at = 6 * (n - 1);
        assert((a + b)[at] == a[at]);
        assert((a + b)[at + 1] == a[at + 1]);
        assert((a + b)[at + 2] == a[at + 2]);
        assert((a + b)[at + 3] == a[at + 3]);
        assert((a + b)[at + 4] == a[at + 4]);
        assert((a + b)[at + 5] == a[at + 5]);
    }
}

/// Counting two lists of votes one after the other is counting the one
/// list that they make.
proof fn lemma_applied_concat(
    v: VotesView,
    stakes: Seq<u64>,
    a: Seq<u64>,
    na: int,
    b: Seq<u64>,
    nb: int,
)
    requires
        0 <= na,
        a.len() == 6 * na,
        0 <= nb,
        6 * nb <= b.len(),
    ensures
        words_applied(v, stakes, a + b, na + nb) == words_applied(
            words_applied(v, stakes, a, na),
            stakes,
            b,
            nb,
        ),
    decreases nb,
{
    if nb == 0 {
        lemma_applied_prefix(v, stakes, a, b, na);
    } else {
        lemma_applied_concat(v, stakes, a, na, b, nb - 1);
        let at = 6 * (nb - 1);
        let all = 6 * (na + nb - 1);
        assert((a + b)[all] == b[at]);
        assert((a + b)[all + 1] == b[at + 1]);
        assert((a + b)[all + 2] == b[at + 2]);
        assert((a + b)[all + 3] == b[at + 3]);
        assert((a + b)[all + 4] == b[at + 4]);
        assert((a + b)[all + 5] == b[at + 5]);
    }
}

/// Counting votes keeps the votes total.
proof fn lemma_applied_total(v: VotesView, stakes: Seq<u64>, words: Seq<u64>, n: int)
    requires
        votes_total(v),
    ensures
        votes_total(words_applied(v, stakes, words, n)),
    decreases n,
{
    if n > 0 {
        lemma_applied_total(v, stakes, words, n - 1);
        let before = words_applied(v, stakes, words, n - 1);
        let after = words_applied(v, stakes, words, n);
        assert(after.accepted.dom() =~= Set::<TransactionLocator>::full());
        assert(after.rejected.dom() =~= Set::<TransactionLocator>::full());
    }
}

/// Counting the votes of the first `n` of `members` on `k` adds them to
/// those who voted on `k`.
proof fn lemma_members_applied(
    v: VotesView,
    stakes: Seq<u64>,
    k: TransactionLocator,
    members: Seq<AuthorityIndex>,
    kind: u64,
    n: int,
)
    requires
        votes_total(v),
        0 <= n <= members.len(),
        kind <= 1,
        forall|j: int| 0 <= j < members.len() ==> #[trigger] members[j] < stakes.len(),
    ensures
        words_applied(v, stakes, member_words(k, members, kind, n), n) == with_voters(
            v,
            k,
            members.take(n).to_set(),
            kind,
        ),
    decreases n,
{
    let goal = with_voters(v, k, members.take(n).to_set(), kind);
    if n == 0 {
        assert(members.take(0).to_set() =~= Set::<AuthorityIndex>::empty());
        assert(v.accepted[k].union(Set::empty()) =~= v.accepted[k]);
        assert(v.rejected[k].union(Set::empty()) =~= v.rejected[k]);
        assert(v.accepted.insert(k, v.accepted[k]) =~= v.accepted);
        assert(v.rejected.insert(k, v.rejected[k]) =~= v.rejected);
    } else {
        let front = member_words(k, members, kind, n - 1);
        let six = seq![
            k.block.authority,
            k.block.round,
            k.block.digest,
            k.offset,
            members[n - 1],
            kind,
        ];
        lemma_member_words(k, members, kind, n - 1);
        lemma_members_applied(v, stakes, k, members, kind, n - 1);
        lemma_applied_prefix(v, stakes, front, six, n - 1);
        let before = with_voters(v, k, members.take(n - 1).to_set(), kind);
        let words = front + six;
        let at = 6 * (n - 1);
        assert(words[at] == six[0] && words[at + 1] == six[1] && words[at + 2] == six[2]
            && words[at + 3] == six[3] && words[at + 4] == six[4] && words[at + 5] == six[5]);
        assert(members.take(n) =~= members.take(n - 1).push(members[n - 1]));
        crate::consensus::lemma_push_to_set(members.take(n - 1), members[n - 1]);
        let after = words_applied(v, stakes, words, n);
        if kind == 0 {
            assert(after.accepted =~= goal.accepted) by {
                assert(before.accepted[k].insert(members[n - 1]) =~= v.accepted[k].union(
                    members.take(n).to_set(),
                ));
            }
        } else {
            assert(after.rejected =~= goal.rejected) by {
                assert(before.rejected[k].insert(members[n - 1]) =~= v.rejected[k].union(
                    members.take(n).to_set(),
                ));
            }
        }
    }
}

/// The votes that the first `n` records hold.
pub closed spec fn votes_upto(v: Seq<VoteRecord>, n: int) -> VotesView {
    VotesView {
        accepted: Map::new(
            |k: TransactionLocator| true,
            |k: TransactionLocator| accepted_in(v.take(n), k, 0),
        ),
        rejected: Map::new(
            |k: TransactionLocator| true,
            |k: TransactionLocator| rejected_in(v.take(n), k, 0),
        ),
    }
}

/// Counting the votes listed for the first `n` records gives the votes that
/// those records hold.
proof fn lemma_records_applied(v: Seq<VoteRecord>, stakes: Seq<u64>, n: int)
    requires
        records_wf(v, stakes),
        0 <= n <= v.len(),
    ensures
        words_applied(no_votes(), stakes, records_words(v, n), votes_in(v, n)) == votes_upto(v, n),
    decreases n,
{
    if n == 0 {
        assert(v.take(0) =~= Seq::empty());
        assert(votes_upto(v, 0).accepted =~= no_votes().accepted);
        assert(votes_upto(v, 0).rejected =~= no_votes().rejected);
    } else {
        let r = v[n - 1];
        let k = r.locator;
        let a = r.accepted.spec_members();
        let b = r.rejected.spec_members();
        let wa = member_words(k, a, 0, a.len() as int);
        let wb = member_words(k, b, 1, b.len() as int);
        let front = records_words(v, n - 1);
        let c = votes_in(v, n - 1);
        lemma_records_applied(v, stakes, n - 1);
        lemma_records_words(v, n - 1);
        lemma_member_words(k, a, 0, a.len() as int);
        lemma_member_words(k, b, 1, b.len() as int);
        r.accepted.lemma_members();
        r.rejected.lemma_members();
        let x = votes_upto(v, n - 1);
        assert(votes_total(x)) by {
            assert(x.accepted.dom() =~= Set::<TransactionLocator>::full());
            assert(x.rejected.dom() =~= Set::<TransactionLocator>::full());
        }
        assert(r == v[n - 1]);
        assert forall|j: int| 0 <= j < a.len() implies #[trigger] a[j] < stakes.len() by {
            assert(a.contains(a[j]));
            assert(a.to_set().contains(a[j]));
            assert(v[n - 1].accepted@.contains(a[j]));
        }
        assert forall|j: int| 0 <= j < b.len() implies #[trigger] b[j] < stakes.len() by {
            assert(b.contains(b[j]));
            assert(b.to_set().contains(b[j]));
            assert(v[n - 1].rejected@.contains(b[j]));
        }
        lemma_applied_concat(no_votes(), stakes, front, c, wa, a.len() as int);
        lemma_members_applied(x, stakes, k, a, 0, a.len() as int);
        assert(a.take(a.len() as int) =~= a);
        let y = with_voters(x, k, a.to_set(), 0);
        assert(votes_total(y)) by {
            assert(y.accepted.dom() =~= Set::<TransactionLocator>::full());
        }
        lemma_applied_concat(no_votes(), stakes, front + wa, c + a.len(), wb, b.len() as int);
        lemma_members_applied(y, stakes, k, b, 1, b.len() as int);
        assert(b.take(b.len() as int) =~= b);
        let z = with_voters(y, k, b.to_set(), 1);
        let before = v.take(n - 1);
        assert(v.take(n) =~= before.push(r));
        assert forall|j: int| 0 <= j < before.len() implies (#[trigger] before[j]).locator
            != k by {
            assert(before[j] == v[j]);
        }
        lemma_absent(before, k, 0);
        let goal = votes_upto(v, n);
        assert forall|q: TransactionLocator| z.accepted[q] == goal.accepted[q] && z.rejected[q]
            == goal.rejected[q] by {
            lemma_push(before, r, q, 0);
            if q == k {
                assert(Set::<AuthorityIndex>::empty().union(a.to_set()) =~= a.to_set());
                assert(Set::<AuthorityIndex>::empty().union(b.to_set()) =~= b.to_set());
            }
        }
        assert(z.accepted =~= goal.accepted);
        assert(z.rejected =~= goal.rejected);
    }
}

/// Counting votes from an index on is counting the votes of the list that
/// starts there.
proof fn lemma_replayed_is_applied(stakes: Seq<u64>, words: Seq<u64>, from: int, n: int)
    requires
        0 <= from,
        0 <= n,
        from + 6 * n <= words.len(),
    ensures
        votes_replayed(stakes, words, from, n) == words_applied(
            no_votes(),
            stakes,
            words.skip(from),
            n,
        ),
    decreases n,
{
    if n > 0 {
        lemma_replayed_is_applied(stakes, words, from, n - 1);
        let at = 6 * (n - 1);
        let tail = words.skip(from);
        assert(tail[at] == words[from + at]);
        assert(tail[at + 1] == words[from + at + 1]);
        assert(tail[at + 2] == words[from + at + 2]);
        assert(tail[at + 3] == words[from + at + 3]);
        assert(tail[at + 4] == words[from + at + 4]);
        assert(tail[at + 5] == words[from + at + 5]);
    }
}

impl TransactionAggregator {
    /// Snapshot round trip: the words that stand for the votes of an
    /// aggregator, after whatever words come before them, are a list of
    /// votes, and counting them gives the votes of the aggregator.
    pub proof fn lemma_votes_words(&self, stakes: Seq<u64>, before: Seq<u64>)
        requires
            self.inv(stakes),
        ensures
            votes_shaped(before + self.spec_votes_words(), before.len() as int),
            votes_replayed(
                stakes,
                before + self.spec_votes_words(),
                before.len() as int,
                self.spec_votes_words().len() as int / 6,
            ) == self@,
    {
        let v = self.records@;
        let n = v.len() as int;
        let own = self.spec_votes_words();
        let words = before + own;
        let from = before.len() as int;
        lemma_records_words(v, n);
        lemma_records_applied(v, stakes, n);
        let count = votes_in(v, n);
        assert(own.len() / 6 == count);
        assert forall|i: int| 0 <= i < (words.len() - from) / 6 implies #[trigger] words[from + 6
            * i + 5] <= 1 by {
            assert(words[from + 6 * i + 5] == own[6 * i + 5]);
        }
        lemma_replayed_is_applied(stakes, words, from, count);
        assert(words.skip(from) =~= own);
        assert(v.take(n) =~= v);
        assert(votes_upto(v, n).accepted =~= self@.accepted);
        assert(votes_upto(v, n).rejected =~= self@.rejected);
    }
}

} // verus!
