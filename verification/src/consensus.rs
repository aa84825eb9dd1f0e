//! Block formation: the state machine that gathers what the next own block
//! will hold and decides when this authority may propose it.

use crate::block_handler::{transactions_view, BlockHandler};
use crate::block_manager::{block_entries, stored_views, BlockManager};
use crate::block_store::{
    block_of, exists_at, has_block, includes_stored, lemma_has_block_push, lemma_with_block,
    with_block, BlockStore, StoredView,
};
use crate::committee::Committee;
use crate::committee::{genesis_view, leader_of, others_genesis};
use crate::state::{replay, RecoveredState, RecoveredView};
use crate::threshold_clock::{
    clock_advanced, lemma_clock_step, seen_after, seen_with, ClockView, ThresholdClockAggregator,
};
use crate::wal::{commits_view, CommitView};
use crate::types::{
    blocks_view, clone_statements, includes_fit, statements_view, AuthorityIndex, BaseStatement,
    BlockReference, BlockView, RoundNumber, StatementBlock, StatementView, Transaction,
};
use crate::wal::{
    CommitData, OwnBlockData, WalEntry, WalEntryView, WalPosition, WalView, WalWriter,
    WAL_POSITION_MAX,
};
use std::collections::VecDeque;
use vstd::prelude::*;

verus! {

/// How the core treats its log.
#[derive(Debug)]
pub struct CoreOptions {
    fsync: bool,
}

impl CoreOptions {
    /// Options for tests: own blocks are not made durable at once.
    pub fn test() -> (r: Self)
        ensures
            !r.spec_fsync(),
    {
        CoreOptions { fsync: false }
    }

    /// Options for production: every own block is made durable at once.
    pub fn production() -> (r: Self)
        ensures
            r.spec_fsync(),
    {
        CoreOptions { fsync: true }
    }

    /// Whether every own block is made durable at once.
    pub closed spec fn spec_fsync(&self) -> bool {
        self.fsync
    }

    /// Whether every own block is made durable at once.
    pub fn fsync(&self) -> (r: bool)
        ensures
            r == self.spec_fsync(),
    {
        self.fsync
    }
}

/// One entry of the proposal buffer: a block to include, or statements to
/// carry.
#[derive(Debug)]
pub enum MetaStatement {
    Include(BlockReference),
    Payload(Vec<BaseStatement>),
}

/// Mathematical value of a [`MetaStatement`].
pub enum MetaView {
    Include(BlockReference),
    Payload(Seq<StatementView>),
}

impl View for MetaStatement {
    type V = MetaView;

    open spec fn view(&self) -> MetaView {
        match self {
            MetaStatement::Include(r) => MetaView::Include(*r),
            MetaStatement::Payload(s) => MetaView::Payload(statements_view(s@)),
        }
    }
}

/// Values of a proposal buffer, entry by entry.
pub open spec fn pending_view(s: Seq<(WalPosition, MetaStatement)>) -> Seq<(WalPosition, MetaView)> {
    s.map_values(|x: (WalPosition, MetaStatement)| (x.0, x.1@))
}

/// Whether a buffer entry includes a block of round `round` or later.
pub open spec fn crosses(entry: (WalPosition, MetaView), round: RoundNumber) -> bool {
    entry.1 matches MetaView::Include(r) && r.round >= round
}

/// Index of the first entry of `pending` that includes a block of round
/// `round` or later; the length of `pending` where there is none.
pub open spec fn first_cross(pending: Seq<(WalPosition, MetaView)>, round: RoundNumber) -> int
    decreases pending.len(),
{
    if pending.len() == 0 {
        0
    } else if crosses(pending[0], round) {
        0
    } else {
        1 + first_cross(pending.skip(1), round)
    }
}

/// The references that the blocks named in `taken` include, as far as those
/// blocks are stored, together with `base`.
pub open spec fn covered(
    store: Seq<StoredView>,
    base: Seq<BlockReference>,
    taken: Seq<(WalPosition, MetaView)>,
) -> Set<BlockReference> {
    Set::new(
        |r: BlockReference|
            base.contains(r) || exists|k: int|
                0 <= k < taken.len() && includes_through(store, #[trigger] taken[k], r),
    )
}

/// Whether `entry` names a stored block that includes `r`.
pub open spec fn includes_through(
    store: Seq<StoredView>,
    entry: (WalPosition, MetaView),
    r: BlockReference,
) -> bool {
    entry.1 matches MetaView::Include(x) && has_block(store, x) && block_of(
        store,
        x,
    ).includes.contains(r)
}

/// The references named in `taken` that are not in `skip`, in order.
pub open spec fn kept_includes(taken: Seq<(WalPosition, MetaView)>, skip: Set<BlockReference>) -> Seq<
    BlockReference,
>
    decreases taken.len(),
{
    if taken.len() == 0 {
        Seq::empty()
    } else {
        let rest = kept_includes(taken.drop_last(), skip);
        match taken.last().1 {
            MetaView::Include(r) => if skip.contains(r) {
                rest
            } else {
                rest.push(r)
            },
            MetaView::Payload(_) => rest,
        }
    }
}

/// The statements carried in `taken`, in order.
pub open spec fn gathered(taken: Seq<(WalPosition, MetaView)>) -> Seq<StatementView>
    decreases taken.len(),
{
    if taken.len() == 0 {
        Seq::empty()
    } else {
        let rest = gathered(taken.drop_last());
        match taken.last().1 {
            MetaView::Include(_) => rest,
            MetaView::Payload(s) => rest + s,
        }
    }
}

/// The block that an authority forms in round `round` from the entries
/// `taken`, on top of its last own block `last`.
pub open spec fn formed_block(
    store: Seq<StoredView>,
    authority: AuthorityIndex,
    round: RoundNumber,
    last: BlockView,
    taken: Seq<(WalPosition, MetaView)>,
    time_ns: u128,
) -> BlockView {
    BlockView {
        reference: BlockReference { authority, round, digest: 0 },
        includes: seq![last.reference] + kept_includes(
            taken,
            covered(store, last.includes, taken),
        ),
        statements: gathered(taken),
        time_ns,
    }
}

/// Position of the first entry of `rest`, or the reserved position where
/// `rest` is empty.
pub open spec fn cutoff(rest: Seq<(WalPosition, MetaView)>) -> WalPosition {
    if rest.len() == 0 {
        WAL_POSITION_MAX
    } else {
        rest[0].0
    }
}

/// Entries before the first crossing entry do not cross.
pub proof fn lemma_first_cross(pending: Seq<(WalPosition, MetaView)>, round: RoundNumber)
    ensures
        0 <= first_cross(pending, round) <= pending.len(),
        forall|j: int|
            0 <= j < first_cross(pending, round) ==> !crosses(#[trigger] pending[j], round),
        first_cross(pending, round) < pending.len() ==> crosses(
            pending[first_cross(pending, round)],
            round,
        ),
    decreases pending.len(),
{
    if pending.len() > 0 && !crosses(pending[0], round) {
        let rest = pending.skip(1);
        lemma_first_cross(rest, round);
        assert forall|j: int| 0 <= j < first_cross(pending, round) implies !crosses(
            #[trigger] pending[j],
            round,
        ) by {
            if j > 0 {
                assert(rest[j - 1] == pending[j]);
            }
        }
    }
}

/// The first crossing entry is the only index with no crossing entry before
/// it that either crosses or ends the buffer.
pub proof fn lemma_first_cross_unique(
    pending: Seq<(WalPosition, MetaView)>,
    round: RoundNumber,
    i: int,
)
    requires
        0 <= i <= pending.len(),
        forall|j: int| 0 <= j < i ==> !crosses(#[trigger] pending[j], round),
        i < pending.len() ==> crosses(pending[i], round),
    ensures
        first_cross(pending, round) == i,
{
    lemma_first_cross(pending, round);
    let f = first_cross(pending, round);
    if f < i {
        assert(!crosses(pending[f], round));
    }
    if i < f {
        assert(!crosses(pending[i], round));
    }
}

/// Every reference kept from `taken` is named there and is not skipped.
pub proof fn lemma_kept_includes(
    taken: Seq<(WalPosition, MetaView)>,
    skip: Set<BlockReference>,
    k: int,
)
    requires
        0 <= k < kept_includes(taken, skip).len(),
    ensures
        !skip.contains(kept_includes(taken, skip)[k]),
        exists|j: int|
            0 <= j < taken.len() && (#[trigger] taken[j]).1 == MetaView::Include(
                kept_includes(taken, skip)[k],
            ),
    decreases taken.len(),
{
    let front = taken.drop_last();
    let rest = kept_includes(front, skip);
    if k < rest.len() {
        lemma_kept_includes(front, skip, k);
        let j = choose|j: int|
            0 <= j < front.len() && (#[trigger] front[j]).1 == MetaView::Include(rest[k]);
        assert(taken[j] == front[j]);
    } else {
        assert(taken[taken.len() - 1].1 == MetaView::Include(kept_includes(taken, skip)[k]));
    }
}

/// Mathematical value of a [`Core`], but for its block handler.
pub struct CoreView {
    pub authority: AuthorityIndex,
    pub committee: Seq<u64>,
    pub fsync: bool,
    /// What was gathered for the next own block, oldest first.
    pub pending: Seq<(WalPosition, MetaView)>,
    /// The last own block, with the position of the first entry it left.
    pub last_own_block: (WalPosition, BlockView),
    pub clock: ClockView,
    pub last_commit_round: RoundNumber,
    pub store: Seq<StoredView>,
    /// The blocks held back until what they include has arrived.
    pub waiting: Seq<BlockView>,
    pub wal: WalView,
    /// What the log held of earlier commits, until it is taken out.
    pub recovered_commits: Option<(Seq<BlockReference>, Option<Seq<u8>>)>,
}

/// What holds of every proposal buffer: positions go up and lie in the log,
/// and every block named is stored.
pub open spec fn pending_wf(
    pending: Seq<(WalPosition, MetaView)>,
    store: Seq<StoredView>,
    log_len: nat,
) -> bool {
    &&& forall|i: int, j: int|
        0 <= i < j < pending.len() ==> (#[trigger] pending[i]).0 < (#[trigger] pending[j]).0
    &&& forall|i: int| 0 <= i < pending.len() ==> (#[trigger] pending[i]).0 < log_len
    &&& forall|i: int|
        0 <= i < pending.len() ==> ((#[trigger] pending[i]).1 matches MetaView::Include(r)
            ==> has_block(store, r))
}

/// The state of one authority: what it has stored, what it has gathered for
/// its next block, its last own block and its clock.
pub struct Core<H: BlockHandler> {
    block_manager: BlockManager,
    pending: VecDeque<(WalPosition, MetaStatement)>,
    last_own_block: OwnBlockData,
    block_handler: H,
    authority: AuthorityIndex,
    threshold_clock: ThresholdClockAggregator,
    committee: Committee,
    last_commit_round: RoundNumber,
    wal_writer: WalWriter,
    block_store: BlockStore,
    options: CoreOptions,
    recovered_committed_blocks: Option<(Vec<BlockReference>, Option<Vec<u8>>)>,
    /// How many leading entries of the buffer name genesis blocks that the
    /// log wrote before the own genesis block.
    genesis_pending: Ghost<nat>,
}

impl<H: BlockHandler> View for Core<H> {
    type V = CoreView;

    closed spec fn view(&self) -> CoreView {
        CoreView {
            authority: self.authority,
            committee: self.committee@,
            fsync: self.options.spec_fsync(),
            pending: pending_view(self.pending@),
            last_own_block: (self.last_own_block.next_entry, self.last_own_block.block@),
            clock: self.threshold_clock@,
            last_commit_round: self.last_commit_round,
            store: self.block_store@,
            waiting: self.block_manager@,
            wal: self.wal_writer@,
            recovered_commits: match self.recovered_committed_blocks {
                Some((blocks, state)) => Some(
                    (
                        blocks@,
                        match state {
                            Some(s) => Some(s@),
                            None => None,
                        },
                    ),
                ),
                None => None,
            },
        }
    }
}

/// Whether the log of a core tells its state: read front to back, it says
/// what is stored, which block is the last own block, what the clock has
/// seen, and what is buffered, but for the first `genesis` entries of the
/// buffer, which name genesis blocks.
pub open spec fn log_tells(v: CoreView, genesis: nat) -> bool {
    let said = replay(v.wal.log, v.authority);
    &&& said.valid
    &&& said.store == v.store
    &&& said.last_own_block == Some(v.last_own_block)
    &&& seen_after(seen_nothing(), said.observed) == v.clock.seen
    &&& genesis <= v.pending.len()
    &&& said.pending == v.pending.skip(genesis as int)
    &&& forall|i: int| 0 <= i < genesis ==> !crosses(#[trigger] v.pending[i], 1)
}

/// The reference that the own block of round `round` gets.
pub open spec fn own_reference(authority: AuthorityIndex, round: RoundNumber) -> BlockReference {
    BlockReference { authority, round, digest: 0 }
}

impl CoreView {
    /// Whether the authority may propose now: its clock is past its last own
    /// block.
    pub open spec fn can_propose(self) -> bool {
        self.clock.round > self.last_own_block.1.reference.round
    }

    /// How many leading entries of the buffer the next own block takes.
    pub open spec fn take_count(self) -> int {
        first_cross(self.pending, self.clock.round)
    }

    /// The block proposed now, at time `time_ns`.
    pub open spec fn next_block(self, time_ns: u128) -> BlockView {
        formed_block(
            self.store,
            self.authority,
            self.clock.round,
            self.last_own_block.1,
            self.pending.take(self.take_count()),
            time_ns,
        )
    }

    /// The state after proposing at time `time_ns`.
    pub open spec fn after_proposal(self, time_ns: u128) -> CoreView {
        let rest = self.pending.skip(self.take_count());
        let block = self.next_block(time_ns);
        CoreView {
            pending: rest,
            last_own_block: (cutoff(rest), block),
            store: with_block(
                self.store,
                StoredView { position: self.wal.log.len() as u64, block },
            ),
            wal: WalView {
                log: self.wal.log.push(WalEntryView::OwnBlock(cutoff(rest), block)),
                sync_requested: self.wal.sync_requested || self.fsync,
                ..self.wal
            },
            ..self
        }
    }
}

/// Index of the first entry that includes a block of round `round` or later.
fn find_first_cross(pending: &VecDeque<(WalPosition, MetaStatement)>, round: RoundNumber) -> (i: usize)
    ensures
        i == first_cross(pending_view(pending@), round),
        i <= pending@.len(),
{
    let ghost pv = pending_view(pending@);
    let mut i: usize = 0;
    while i < pending.len()
        invariant
            i <= pending.len(),
            pv == pending_view(pending@),
            forall|j: int| 0 <= j < i ==> !crosses(#[trigger] pv[j], round),
        decreases pending.len() - i,
    {
        let crossing = match &pending[i].1 {
            MetaStatement::Include(r) => r.round >= round,
            MetaStatement::Payload(_) => false,
        };
        assert(crossing == crosses(pv[i as int], round));
        if crossing {
            proof {
                lemma_first_cross_unique(pv, round, i as int);
            }
            return i;
        }
        i += 1;
    }
    proof {
        lemma_first_cross_unique(pv, round, i as int);
    }
    i
}

/// Collects the references that `base` holds and that the stored blocks
/// named in `taken` include.
fn collect_covered(
    store: &BlockStore,
    base: &Vec<BlockReference>,
    taken: &VecDeque<(WalPosition, MetaStatement)>,
) -> (cover: Vec<BlockReference>)
    requires
        store.inv(),
    ensures
        cover@.to_set() == covered(store@, base@, pending_view(taken@)),
{
    let ghost tv = pending_view(taken@);
    let mut cover: Vec<BlockReference> = crate::types::clone_references(base);
    assert(cover@.to_set() =~= covered(store@, base@, tv.take(0)));
    let mut k: usize = 0;
    while k < taken.len()
        invariant
            k <= taken.len(),
            store.inv(),
            tv == pending_view(taken@),
            cover@.to_set() == covered(store@, base@, tv.take(k as int)),
        decreases taken.len() - k,
    {
        let ghost before = cover@;
        let ghost goal = covered(store@, base@, tv.take(k + 1));
        let ghost entry = tv[k as int];
        proof {
            assert forall|r: BlockReference|
                covered(store@, base@, tv.take(k as int)).contains(r) implies goal.contains(r) by {
                if !base@.contains(r) {
                    let j = choose|j: int|
                        0 <= j < tv.take(k as int).len() && includes_through(
                            store@,
                            #[trigger] tv.take(k as int)[j],
                            r,
                        );
                    assert(tv.take(k + 1)[j] == tv.take(k as int)[j]);
                }
            }
            assert forall|r: BlockReference| goal.contains(r) implies covered(
                store@,
                base@,
                tv.take(k as int),
            ).contains(r) || includes_through(store@, entry, r) by {
                if !base@.contains(r) {
                    let j = choose|j: int|
                        0 <= j < tv.take(k + 1).len() && includes_through(
                            store@,
                            #[trigger] tv.take(k + 1)[j],
                            r,
                        );
                    if j < k {
                        assert(tv.take(k as int)[j] == tv.take(k + 1)[j]);
                    }
                }
            }
            assert(tv.take(k + 1)[k as int] == entry);
        }
        match &taken[k].1 {
            MetaStatement::Include(x) => {
                match store.find(x) {
                    Some(at) => {
                        let includes = store.block_at(at).includes();
                        assert(includes@ == block_of(store@, *x).includes);
                        let mut m: usize = 0;
                        while m < includes.len()
                            invariant
                                m <= includes.len(),
                                cover@.to_set() == before.to_set().union(
                                    includes@.take(m as int).to_set(),
                                ),
                            decreases includes.len() - m,
                        {
                            let ghost c = cover@;
                            cover.push(includes[m]);
                            proof {
                                let a = includes@.take(m as int);
                                let b = includes@.take(m + 1);
                                assert(b =~= a.push(includes@[m as int]));
                                assert(cover@ =~= c.push(includes@[m as int]));
                                lemma_push_to_set(c, includes@[m as int]);
                                lemma_push_to_set(a, includes@[m as int]);
                                assert(cover@.to_set() =~= before.to_set().union(b.to_set()));
                            }
                            m += 1;
                        }
                        proof {
                            assert(includes@.take(m as int) =~= includes@);
                            assert(cover@.to_set() =~= goal) by {
                                assert forall|r: BlockReference|
                                    includes@.to_set().contains(r) == includes_through(
                                        store@,
                                        entry,
                                        r,
                                    ) by {}
                            }
                        }
                    },
                    None => {
                        assert(cover@.to_set() =~= goal);
                    },
                }
            },
            MetaStatement::Payload(_) => {
                assert(cover@.to_set() =~= goal);
            },
        }
        k += 1;
    }
    assert(tv.take(k as int) =~= tv);
    cover
}

/// The members of a sequence with one more element.
pub proof fn lemma_push_to_set<A>(s: Seq<A>, x: A)
    ensures
        s.push(x).to_set() == s.to_set().insert(x),
{
    let t = s.push(x);
    assert forall|a: A| t.to_set().contains(a) == s.to_set().insert(x).contains(a) by {
        if s.contains(a) {
            let k = choose|k: int| 0 <= k < s.len() && s[k] == a;
            assert(t[k] == a);
        }
        if a == x {
            assert(t[s.len() as int] == a);
        }
        if t.contains(a) {
            let k = choose|k: int| 0 <= k < t.len() && t[k] == a;
            if k < s.len() {
                assert(s[k] == a);
            }
        }
    }
    assert(t.to_set() =~= s.to_set().insert(x));
}

/// Picks from `taken` the references to include and the statements to carry.
fn select_content(taken: &VecDeque<(WalPosition, MetaStatement)>, cover: &Vec<BlockReference>) -> (r: (
    Vec<BlockReference>,
    Vec<BaseStatement>,
))
    ensures
        r.0@ == kept_includes(pending_view(taken@), cover@.to_set()),
        statements_view(r.1@) == gathered(pending_view(taken@)),
{
    let ghost tv = pending_view(taken@);
    let ghost skip = cover@.to_set();
    let mut includes: Vec<BlockReference> = Vec::new();
    let mut statements: Vec<BaseStatement> = Vec::new();
    assert(statements_view(statements@) =~= gathered(tv.take(0)));
    let mut k: usize = 0;
    while k < taken.len()
        invariant
            k <= taken.len(),
            tv == pending_view(taken@),
            skip == cover@.to_set(),
            includes@ == kept_includes(tv.take(k as int), skip),
            statements_view(statements@) == gathered(tv.take(k as int)),
        decreases taken.len() - k,
    {
        proof {
            assert(tv.take(k + 1).drop_last() =~= tv.take(k as int));
            assert(tv.take(k + 1).last() == tv[k as int]);
        }
        match &taken[k].1 {
            MetaStatement::Include(r) => {
                if !crate::types::contains_reference(cover, r) {
                    includes.push(*r);
                }
            },
            MetaStatement::Payload(p) => {
                let ghost before = statements@;
                let mut copy = clone_statements(p);
                let ghost added = copy@;
                statements.append(&mut copy);
                proof {
                    assert(statements@ =~= before + added);
                    assert(statements_view(before + added) =~= statements_view(before)
                        + statements_view(added));
                }
            },
        }
        k += 1;
    }
    assert(tv.take(k as int) =~= tv);
    (includes, statements)
}

impl<H: BlockHandler> Core<H> {
    /// What holds of every core between calls.
    pub closed spec fn inv(&self) -> bool {
        &&& self.block_store.inv()
        &&& self.wal_writer.inv()
        &&& self.threshold_clock.inv()
        &&& self.block_handler.inv()
        &&& self.block_store.spec_authority() == self.authority
        &&& self.last_own_block.block@.reference.authority == self.authority
        &&& has_block(self.block_store@, self.last_own_block.block@.reference)
        &&& pending_wf(pending_view(self.pending@), self.block_store@, self.wal_writer@.log.len())
        &&& self.wal_writer@.log.len() <= WAL_POSITION_MAX
        &&& clock_advanced(self.committee@, self.threshold_clock@.seen, 0, self.threshold_clock@.round)
        &&& log_tells(self@, self.genesis_pending@)
    }

    /// How many leading entries of the buffer name genesis blocks that were
    /// logged before the own genesis block. There are none once the core has
    /// proposed, and none in a core that was opened on a log with an own
    /// block.
    pub closed spec fn genesis_in_buffer(&self) -> nat {
        self.genesis_pending@
    }

    /// The block handler of this core.
    pub closed spec fn spec_block_handler(&self) -> H {
        self.block_handler
    }

    /// What [`Core::inv`] says of the values that contracts speak of.
    pub proof fn lemma_inv(&self)
        requires
            self.inv(),
        ensures
            crate::block_store::store_wf(self@.store),
            self.spec_block_handler().inv(),
            self@.last_own_block.1.reference.authority == self@.authority,
            has_block(self@.store, self@.last_own_block.1.reference),
            pending_wf(self@.pending, self@.store, self@.wal.log.len()),
            self@.wal.log.len() <= WAL_POSITION_MAX,
            self@.wal.taken <= self@.wal.log.len(),
            clock_advanced(self@.committee, self@.clock.seen, 0, self@.clock.round),
            log_tells(self@, self.genesis_in_buffer()),
    {
        self.wal_writer.lemma_inv();
    }

    /// Ancestor closure: with every block the store of a core holds all
    /// blocks that it includes.
    pub proof fn lemma_ancestor_closure(&self, r: BlockReference, k: int)
        requires
            self.inv(),
            has_block(self@.store, r),
            0 <= k < block_of(self@.store, r).includes.len(),
        ensures
            has_block(self@.store, block_of(self@.store, r).includes[k]),
    {
        crate::block_store::lemma_store_closed(self@.store, r, k);
    }

    /// Log round trip: a core that is opened on the log of this core, and
    /// finds no block in it to show to the block handler again, has stored
    /// and buffered what this core has, has the same last own block, and its
    /// clock stands where the clock of this core stands. So it proposes, at
    /// the same time, the block that this core proposes. (This holds of a
    /// core whose buffer names no genesis block that was logged before the
    /// own genesis block: the log cuts those off.)
    pub proof fn lemma_wal_round_trip(&self, reopened: &Core<H>, time_ns: u128)
        requires
            self.inv(),
            self.genesis_in_buffer() == 0,
            reopened.inv(),
            reopened@ == opened_view(
                replay(self@.wal.log, self@.authority),
                self@.wal.log,
                self@.authority,
                self@.committee,
                reopened@.fsync,
                reopened@.clock.round,
            ),
        ensures
            reopened@.store == self@.store,
            reopened@.pending == self@.pending,
            reopened@.last_own_block == self@.last_own_block,
            reopened@.clock == self@.clock,
            reopened@.can_propose() == self@.can_propose(),
            reopened@.next_block(time_ns) == self@.next_block(time_ns),
    {
        assert(self@.pending.skip(0) =~= self@.pending);
        crate::threshold_clock::lemma_clock_unique(
            self@.committee,
            self@.clock.seen,
            self@.clock.round,
            reopened@.clock.round,
        );
    }

    /// Log round trip where blocks are shown again: a core that is opened
    /// on the log of this core, and buffers what the block handler gave for
    /// the blocks shown to it again, proposes a block with the reference and
    /// the includes of the block that this core proposes. It states what
    /// that block states, followed by what the handler gave where the block
    /// takes the whole buffer.
    pub proof fn lemma_wal_round_trip_replayed(
        &self,
        reopened: &Core<H>,
        shown: Seq<StatementView>,
        time_ns: u128,
    )
        requires
            self.inv(),
            self.genesis_in_buffer() == 0,
            reopened.inv(),
            ({
                let log = self@.wal.log;
                let base = opened_view(
                    replay(log, self@.authority),
                    log,
                    self@.authority,
                    self@.committee,
                    reopened@.fsync,
                    reopened@.clock.round,
                );
                reopened@ == (CoreView {
                    pending: base.pending.push((log.len() as u64, MetaView::Payload(shown))),
                    wal: WalView { log: log.push(WalEntryView::Payload(shown)), ..base.wal },
                    ..base
                })
            }),
        ensures
            reopened@.can_propose() == self@.can_propose(),
            reopened@.next_block(time_ns).reference == self@.next_block(time_ns).reference,
            reopened@.next_block(time_ns).includes == self@.next_block(time_ns).includes,
            reopened@.next_block(time_ns).time_ns == self@.next_block(time_ns).time_ns,
            reopened@.next_block(time_ns).statements == self@.next_block(time_ns).statements + if self@.take_count()
                == self@.pending.len() {
                shown
            } else {
                Seq::empty()
            },
    {
        let p = self@.pending;
        let e = (self@.wal.log.len() as u64, MetaView::Payload(shown));
        let q = p.push(e);
        let round = self@.clock.round;
        assert(p.skip(0) =~= p);
        crate::threshold_clock::lemma_clock_unique(
            self@.committee,
            self@.clock.seen,
            self@.clock.round,
            reopened@.clock.round,
        );
        lemma_first_cross(p, round);
        let at = first_cross(p, round);
        let mine = self@.next_block(time_ns);
        let theirs = reopened@.next_block(time_ns);
        if at < p.len() {
            assert forall|j: int| 0 <= j < at implies !crosses(#[trigger] q[j], round) by {
                assert(q[j] == p[j]);
            }
            assert(q[at] == p[at]);
            lemma_first_cross_unique(q, round, at);
            assert(q.take(at) =~= p.take(at));
            assert(mine.statements + Seq::<StatementView>::empty() =~= mine.statements);
        } else {
            assert forall|j: int| 0 <= j < q.len() implies !crosses(#[trigger] q[j], round) by {
                if j < p.len() {
                    assert(q[j] == p[j]);
                }
            }
            lemma_first_cross_unique(q, round, q.len() as int);
            assert(q.take(q.len() as int) =~= q);
            assert(p.take(p.len() as int) =~= p);
            assert(q.drop_last() =~= p);
            let base = self@.last_own_block.1.includes;
            let store = self@.store;
            assert(covered(store, base, q) =~= covered(store, base, p)) by {
                assert forall|r: BlockReference| covered(store, base, q).contains(r) implies covered(
                    store,
                    base,
                    p,
                ).contains(r) by {
                    if !base.contains(r) {
                        let k = choose|k: int|
                            0 <= k < q.len() && includes_through(store, #[trigger] q[k], r);
                        assert(k < p.len());
                        assert(p[k] == q[k]);
                    }
                }
                assert forall|r: BlockReference| covered(store, base, p).contains(r) implies covered(
                    store,
                    base,
                    q,
                ).contains(r) by {
                    if !base.contains(r) {
                        let k = choose|k: int|
                            0 <= k < p.len() && includes_through(store, #[trigger] p[k], r);
                        assert(q[k] == p[k]);
                    }
                }
            }
        }
    }

    /// Own rounds go up: a block proposed is of a later round than the last
    /// own block, and is the last own block from then on.
    pub proof fn lemma_own_rounds_go_up(&self, time_ns: u128)
        requires
            self.inv(),
            self@.can_propose(),
        ensures
            self@.next_block(time_ns).reference.round > self@.last_own_block.1.reference.round,
            self@.after_proposal(time_ns).last_own_block.1 == self@.next_block(time_ns),
    {
    }

    /// The first include is the own block before: a block proposed is of
    /// the authority and the round of the clock, includes first the last own
    /// block, which is of the same authority, and includes only blocks of
    /// earlier rounds, all of them stored.
    pub proof fn lemma_own_block_shape(&self, time_ns: u128)
        requires
            self.inv(),
            self@.can_propose(),
        ensures
            ({
                let b = self@.next_block(time_ns);
                &&& b.reference == own_reference(self@.authority, self@.clock.round)
                &&& b.includes.len() >= 1
                &&& b.includes[0] == self@.last_own_block.1.reference
                &&& b.includes[0].authority == b.reference.authority
                &&& b.includes[0].round < b.reference.round
                &&& forall|k: int|
                    0 <= k < b.includes.len() ==> (#[trigger] b.includes[k]).round
                        < b.reference.round && has_block(self@.store, b.includes[k])
                &&& b.well_formed()
            }),
    {
        let v = self@;
        let b = v.next_block(time_ns);
        let round = v.clock.round;
        let all = v.pending;
        let at = first_cross(all, round);
        lemma_first_cross(all, round);
        let tv = all.take(at);
        let skip = covered(v.store, v.last_own_block.1.includes, tv);
        let kept = kept_includes(tv, skip);
        assert forall|k: int| 0 <= k < b.includes.len() implies (#[trigger] b.includes[k]).round
            < round && has_block(v.store, b.includes[k]) by {
            if k > 0 {
                lemma_kept_includes(tv, skip, k - 1);
                let j = choose|j: int|
                    0 <= j < tv.len() && (#[trigger] tv[j]).1 == MetaView::Include(kept[k - 1]);
                assert(tv[j] == all[j]);
                assert(!crosses(all[j], round));
            }
        }
    }

    /// Round of the last own block.
    pub fn last_proposed(&self) -> (r: RoundNumber)
        ensures
            r == self@.last_own_block.1.reference.round,
    {
        self.last_own_block.block.round()
    }

    pub fn authority(&self) -> (r: AuthorityIndex)
        ensures
            r == self@.authority,
    {
        self.authority
    }

    pub fn block_store(&self) -> (r: &BlockStore)
        ensures
            r@ == self@.store,
            self.inv() ==> r.inv(),
    {
        &self.block_store
    }

    pub fn block_handler(&self) -> (r: &H)
        ensures
            *r == self.spec_block_handler(),
    {
        &self.block_handler
    }

    pub fn committee(&self) -> (r: &Committee)
        ensures
            r@ == self@.committee,
    {
        &self.committee
    }

    /// The last own block.
    pub fn last_own_block(&self) -> (r: &OwnBlockData)
        ensures
            (r.next_entry, r.block@) == self@.last_own_block,
    {
        &self.last_own_block
    }

    /// The round the clock of this core is in.
    pub fn current_round(&self) -> (r: RoundNumber)
        ensures
            r == self@.clock.round,
    {
        self.threshold_clock.get_round()
    }

    /// How many more entries the log takes.
    pub fn wal_room(&self) -> (r: u64)
        requires
            self.inv(),
        ensures
            r == WAL_POSITION_MAX - self@.wal.log.len(),
    {
        self.wal_writer.room()
    }

    /// How many blocks are held back and how many entries are buffered.
    pub fn backlog(&self) -> (r: (usize, usize))
        ensures
            r.0 == self@.waiting.len(),
            r.1 == self@.pending.len(),
    {
        (self.block_manager.len(), self.pending.len())
    }

    /// Hands out the log entries written since the last call, for storing:
    /// the position of the first, the entries, and whether they are to be
    /// made durable at once.
    pub fn take_wal_entries(&mut self) -> (r: (WalPosition, Vec<WalEntry>, bool))
        requires
            old(self).inv(),
        ensures
            final(self).inv(),
            final(self).spec_block_handler() == old(self).spec_block_handler(),
            r.0 == old(self)@.wal.taken,
            crate::wal::entries_view(r.1@) == old(self)@.wal.log.skip(old(self)@.wal.taken as int),
            r.2 == old(self)@.wal.sync_requested,
            final(self)@ == (CoreView {
                wal: WalView {
                    log: old(self)@.wal.log,
                    taken: old(self)@.wal.log.len(),
                    sync_requested: false,
                },
                ..old(self)@
            }),
    {
        self.wal_writer.take_entries()
    }

    /// Hands the transactions of clients to the block handler.
    pub fn add_transactions(&mut self, transactions: Vec<Transaction>)
        requires
            old(self).inv(),
        ensures
            final(self).inv(),
            final(self)@ == old(self)@,
            old(self).spec_block_handler().handled_transactions(
                transactions_view(transactions@),
                &final(self).spec_block_handler(),
            ),
    {
        self.block_handler.handle_transactions(transactions);
    }

    /// Proposes the next own block if the clock has moved past the last one.
    ///
    /// The block is of the round the clock is in. It takes the buffer up to
    /// the first entry that includes a block of that round or later. It
    /// includes the last own block first, then every block named in what it
    /// takes, in order, but for those that the last own block or another
    /// block named there already includes. It states what the payloads taken
    /// state, in order. The block is stored and logged with the position of
    /// the first entry left over, and shown to the block handler.
    pub fn try_new_block(&mut self, time_ns: u128) -> (r: Option<StatementBlock>)
        requires
            old(self).inv(),
            old(self)@.wal.log.len() < WAL_POSITION_MAX,
        ensures
            final(self).inv(),
            r is Some <==> old(self)@.can_propose(),
            r is None ==> final(self)@ == old(self)@ && final(self).spec_block_handler() == old(
                self,
            ).spec_block_handler(),
            r matches Some(b) ==> {
                &&& b@ == old(self)@.next_block(time_ns)
                &&& final(self)@ == old(self)@.after_proposal(time_ns)
                &&& old(self).spec_block_handler().handled_proposal(
                    b@,
                    &final(self).spec_block_handler(),
                )
                &&& b@.reference.round > old(self)@.last_own_block.1.reference.round
                &&& b@.includes[0] == old(self)@.last_own_block.1.reference
                &&& b@.includes[0].authority == old(self)@.authority
                &&& b@.includes[0].round < b@.reference.round
            },
    {
        let clock_round: RoundNumber = self.threshold_clock.get_round();
        if clock_round <= self.last_proposed() {
            return None;
        }
        let reference = BlockReference { authority: self.authority, round: clock_round, digest: 0 };
        let ghost v = self@;
        let ghost all = pending_view(self.pending@);
        let at = find_first_cross(&self.pending, clock_round);
        let mut taken = self.pending.split_off(at);
        std::mem::swap(&mut taken, &mut self.pending);
        let ghost tv = pending_view(taken@);
        let ghost rest = pending_view(self.pending@);
        proof {
            assert(tv =~= all.take(at as int));
            assert(rest =~= all.skip(at as int));
            lemma_first_cross(all, clock_round);
        }
        let last = &self.last_own_block.block;
        let cover = collect_covered(&self.block_store, last.includes(), &taken);
        let (mut selected, statements) = select_content(&taken, &cover);
        let mut includes: Vec<BlockReference> = Vec::new();
        includes.push(*last.reference());
        includes.append(&mut selected);
        let ghost kept = kept_includes(tv, covered(v.store, v.last_own_block.1.includes, tv));
        proof {
            assert(includes@ =~= seq![v.last_own_block.1.reference] + kept);
            assert forall|k: int| 0 <= k < includes@.len() implies (#[trigger] includes@[k]).round
                < clock_round && has_block(v.store, includes@[k]) by {
                if k > 0 {
                    lemma_kept_includes(
                        tv,
                        covered(v.store, v.last_own_block.1.includes, tv),
                        k - 1,
                    );
                    let j = choose|j: int|
                        0 <= j < tv.len() && (#[trigger] tv[j]).1 == MetaView::Include(
                            kept[k - 1],
                        );
                    assert(tv[j] == all[j]);
                    assert(!crosses(all[j], clock_round));
                }
            }
            assert(includes_fit(reference, includes@));
        }
        let block = StatementBlock::new(reference, includes, statements, time_ns).unwrap();
        let next_entry: WalPosition = if self.pending.len() > 0 {
            self.pending[0].0
        } else {
            WAL_POSITION_MAX
        };
        assert(next_entry == cutoff(rest)) by {
            if rest.len() > 0 {
                assert(rest[0] == (self.pending@[0].0, self.pending@[0].1@));
            }
        }
        self.last_own_block = OwnBlockData { next_entry, block: block.clone() };
        let position = self.block_store.insert_own_block(
            &mut self.wal_writer,
            &self.last_own_block,
        );
        if self.options.fsync() {
            self.wal_writer.request_sync();
        }
        self.block_handler.handle_proposal(&block);
        proof {
            let g = self.genesis_pending@ as int;
            let said = replay(v.wal.log, v.authority);
            let entry = WalEntryView::OwnBlock(next_entry, block@);
            crate::state::lemma_replay_push(v.wal.log, v.authority, entry);
            if at < g {
                assert(!crosses(all[at as int], 1));
            }
            crate::state::lemma_pending_skip(all, v.store, v.wal.log.len(), g);
            assert(all.skip(g).skip(at - g) =~= rest);
            crate::state::lemma_retained_is_suffix(
                all.skip(g),
                at - g,
                v.store,
                v.wal.log.len(),
            );
            assert(rest.skip(0) =~= rest);
        }
        self.genesis_pending = Ghost(0);
        proof {
            let x = StoredView { position, block: block@ };
            lemma_with_block(v.store, x, block@.reference);
            assert forall|i: int| 0 <= i < rest.len() implies ((#[trigger] rest[i]).1 matches MetaView::Include(
                r,
            ) ==> has_block(self.block_store@, r)) by {
                assert(rest[i] == all[at + i]);
                if let MetaView::Include(r) = rest[i].1 {
                    lemma_with_block(v.store, x, r);
                }
            }
            assert forall|i: int, j: int| 0 <= i < j < rest.len() implies (#[trigger] rest[i]).0 < (
            #[trigger] rest[j]).0 by {
                assert(rest[i] == all[at + i]);
                assert(rest[j] == all[at + j]);
            }
            assert forall|i: int| 0 <= i < rest.len() implies (#[trigger] rest[i]).0
                < self.wal_writer@.log.len() by {
                assert(rest[i] == all[at + i]);
            }
            assert(self@ == v.after_proposal(time_ns));
        }
        Some(block)
    }

    /// Shows `processed` to the block handler and buffers what it gives out
    /// as one payload, after logging it.
    pub fn run_block_handler(&mut self, processed: &Vec<StatementBlock>)
        requires
            old(self).inv(),
            old(self)@.wal.log.len() < WAL_POSITION_MAX,
        ensures
            final(self).inv(),
            final(self)@.pending.len() == old(self)@.pending.len() + 1,
            final(self)@.pending.last().1 is Payload,
            ({
                let statements = final(self)@.pending.last().1->Payload_0;
                let position = old(self)@.wal.log.len() as u64;
                &&& old(self).spec_block_handler().handled_blocks(
                    blocks_view(processed@),
                    statements,
                    &final(self).spec_block_handler(),
                )
                &&& final(self)@ == (CoreView {
                    pending: old(self)@.pending.push((position, MetaView::Payload(statements))),
                    wal: WalView {
                        log: old(self)@.wal.log.push(WalEntryView::Payload(statements)),
                        ..old(self)@.wal
                    },
                    ..old(self)@
                })
            }),
    {
        let ghost before = pending_view(self.pending@);
        let statements = self.block_handler.handle_blocks(processed);
        let position = self.wal_writer.write(WalEntry::Payload(clone_statements(&statements)));
        self.pending.push_back((position, MetaStatement::Payload(statements)));
        proof {
            let entry = (position, MetaView::Payload(statements_view(statements@)));
            assert(pending_view(self.pending@) =~= before.push(entry));
            let g = self.genesis_pending@ as int;
            let log = old(self)@.wal.log;
            crate::state::lemma_replay_push(
                log,
                self.authority,
                WalEntryView::Payload(statements_view(statements@)),
            );
            assert(before.push(entry).skip(g) =~= before.skip(g).push(entry));
            assert forall|i: int| 0 <= i < g implies !crosses(
                #[trigger] pending_view(self.pending@)[i],
                1,
            ) by {
                assert(pending_view(self.pending@)[i] == before[i]);
            }
        }
    }

    /// Takes in received blocks. Every block whose included blocks are all
    /// stored is stored and logged, shown to the clock, and buffered for
    /// inclusion; the others are held back. Then the block handler sees the
    /// blocks stored, and what it gives out is buffered as one payload.
    /// Returns the blocks stored, in the order of storing.
    pub fn add_blocks(&mut self, blocks: Vec<StatementBlock>) -> (processed: Vec<StatementBlock>)
        requires
            old(self).inv(),
            old(self)@.wal.log.len() + old(self)@.waiting.len() + blocks@.len() < WAL_POSITION_MAX,
        ensures
            final(self).inv(),
            final(self)@.pending.len() == old(self)@.pending.len() + processed@.len() + 1,
            final(self)@.pending.last().1 is Payload,
            ({
                let v = old(self)@;
                let w = final(self)@;
                let done = blocks_view(processed@);
                let statements = w.pending.last().1->Payload_0;
                let first = v.wal.log.len();
                &&& old(self).spec_block_handler().handled_blocks(
                    done,
                    statements,
                    &final(self).spec_block_handler(),
                )
                &&& w == (CoreView {
                    pending: (v.pending + included(done, first)).push(
                        ((first + done.len()) as u64, MetaView::Payload(statements)),
                    ),
                    store: v.store + stored(done, first),
                    wal: WalView {
                        log: (v.wal.log + logged(done)).push(WalEntryView::Payload(statements)),
                        ..v.wal
                    },
                    clock: ClockView {
                        seen: seen_after(v.clock.seen, references_of(done)),
                        round: w.clock.round,
                    },
                    waiting: w.waiting,
                    ..v
                })
                &&& clock_advanced(w.committee, w.clock.seen, v.clock.round, w.clock.round)
                &&& w.clock.round >= v.clock.round
                &&& forall|k: int|
                    0 <= k < done.len() ==> (v.waiting + blocks_view(blocks@)).contains(
                        #[trigger] done[k],
                    )
                &&& forall|i: int, j: int|
                    0 <= i <= j < done.len() ==> (#[trigger] done[i]).reference.round <= (
                    #[trigger] done[j]).reference.round
                &&& forall|i: int|
                    0 <= i < w.waiting.len() ==> !includes_stored(
                        w.store,
                        (#[trigger] w.waiting[i]).includes,
                    )
                &&& forall|i: int|
                    0 <= i < w.waiting.len() ==> (v.waiting + blocks_view(blocks@)).contains(
                        #[trigger] w.waiting[i],
                    )
                &&& forall|b: BlockView| #[trigger]
                    (v.waiting + blocks_view(blocks@)).contains(b) ==> has_block(
                        w.store,
                        b.reference,
                    ) || w.waiting.contains(b)
            }),
    {
        let ghost v = self@;
        let ghost first = v.wal.log.len();
        let stored_now = self.block_manager.add_blocks(
            blocks,
            &mut self.block_store,
            &mut self.wal_writer,
        );
        let ghost pairs = stored_now@;
        let ghost store = self.block_store@;
        let result = note_stored(
            &mut self.threshold_clock,
            &mut self.pending,
            &self.committee,
            &stored_now,
        );
        proof {
            let done = blocks_view(result@);
            assert(done =~= blocks_view_of_pairs(pairs));
            assert(stored_views(pairs) =~= stored(done, first));
            assert(block_entries(pairs) =~= logged(done));
            assert(noted(pairs) =~= included(done, first));
            let buffered = pending_view(self.pending@);
            assert forall|i: int| 0 <= i < buffered.len() implies ((
            #[trigger] buffered[i]).1 matches MetaView::Include(r) ==> has_block(store, r)) by {
                if i >= v.pending.len() {
                    let j = i - v.pending.len();
                    assert(buffered[i] == included(done, first)[j]);
                    assert(store[v.store.len() + j].block.reference == done[j].reference);
                } else {
                    assert(buffered[i] == v.pending[i]);
                    if let MetaView::Include(r) = v.pending[i].1 {
                        lemma_has_block_concat(v.store, stored_views(pairs), r);
                    }
                }
            }
            assert forall|i: int, j: int| 0 <= i < j < buffered.len() implies (
            #[trigger] buffered[i]).0 < (#[trigger] buffered[j]).0 by {
                if j >= v.pending.len() {
                    assert(buffered[j] == included(done, first)[j - v.pending.len()]);
                } else {
                    assert(buffered[j] == v.pending[j]);
                }
                if i >= v.pending.len() {
                    assert(buffered[i] == included(done, first)[i - v.pending.len()]);
                } else {
                    assert(buffered[i] == v.pending[i]);
                }
            }
            assert forall|i: int| 0 <= i < buffered.len() implies (#[trigger] buffered[i]).0 < first
                + done.len() by {
                if i >= v.pending.len() {
                    assert(buffered[i] == included(done, first)[i - v.pending.len()]);
                } else {
                    assert(buffered[i] == v.pending[i]);
                }
            }
            lemma_has_block_concat(v.store, stored_views(pairs), v.last_own_block.1.reference);
            assert(self.wal_writer@.log.len() == first + done.len());
            let g = self.genesis_pending@ as int;
            let said = replay(v.wal.log, v.authority);
            crate::state::lemma_replay_blocks(v.wal.log, v.authority, done);
            crate::threshold_clock::lemma_seen_after_concat(
                seen_nothing(),
                said.observed,
                references_of(done),
            );
            assert((v.pending + included(done, first)).skip(g) =~= v.pending.skip(g) + included(
                done,
                first,
            ));
            assert forall|i: int| 0 <= i < g implies !crosses(#[trigger] buffered[i], 1) by {
                assert(buffered[i] == v.pending[i]);
            }
            assert(self.inv());
        }
        self.run_block_handler(&result);
        result
    }

    /// Runs the commit rule on what is stored, for waves of `period` rounds.
    /// Returns the leader blocks committed since the last call, in the order
    /// of their rounds, and remembers the round of the last of them.
    pub fn try_commit(&mut self, period: u64) -> (r: Vec<StatementBlock>)
        requires
            old(self).inv(),
            period > 0,
        ensures
            final(self).inv(),
            final(self).spec_block_handler() == old(self).spec_block_handler(),
            references_of(blocks_view(r@)) == crate::committer::committed_leaders(
                old(self)@.store,
                old(self)@.committee,
                period,
                old(self)@.last_commit_round,
            ),
            final(self)@ == (CoreView {
                last_commit_round: if r@.len() > 0 {
                    r@.last()@.reference.round
                } else {
                    old(self)@.last_commit_round
                },
                ..old(self)@
            }),
            final(self)@.last_commit_round >= old(self)@.last_commit_round,
            forall|k: int|
                0 <= k < r@.len() ==> {
                    let b = (#[trigger] r@[k])@;
                    &&& has_block(old(self)@.store, b.reference)
                    &&& block_of(old(self)@.store, b.reference) == b
                    &&& old(self)@.last_commit_round < b.reference.round
                    &&& b.reference.round <= final(self)@.last_commit_round
                },
            forall|i: int, j: int|
                0 <= i < j < r@.len() ==> (#[trigger] r@[i])@.reference.round < (
                #[trigger] r@[j])@.reference.round,
    {
        let committer = crate::committer::Committer::new(self.committee.clone(), period);
        let sequence = committer.try_commit(&self.block_store, self.last_commit_round);
        if sequence.len() > 0 {
            let last: RoundNumber = sequence[sequence.len() - 1].round();
            proof {
                assert forall|k: int| 0 <= k < sequence@.len() implies (
                #[trigger] sequence@[k])@.reference.round <= last by {
                    if k < sequence@.len() - 1 {
                        assert(sequence@[k]@.reference.round
                            < sequence@[sequence@.len() - 1]@.reference.round);
                    }
                }
            }
            self.last_commit_round = last;
        }
        sequence
    }

    /// Whether proposing now helps the commit rule: always in a round that
    /// does not follow a leader round; in one that does, once the leader's
    /// block of the round before is stored. (The clock may still not be past
    /// the last own block.)
    pub fn ready_new_block(&self, period: u64) -> (r: bool)
        requires
            period > 0,
        ensures
            r == self@.ready(period),
    {
        let quorum_round: RoundNumber = self.threshold_clock.get_round();
        if quorum_round % period != 1 {
            true
        } else {
            let floor: u64 = if self.last_commit_round > period - 1 {
                self.last_commit_round
            } else {
                period - 1
            };
            if quorum_round > floor {
                let leader_round: RoundNumber = quorum_round - 1;
                let leader = self.leader_at_round(leader_round, period);
                self.block_store.block_exists_at_authority_round(leader, leader_round)
            } else {
                false
            }
        }
    }

    /// The authority that leads a round that is a multiple of `period`.
    fn leader_at_round(&self, round: RoundNumber, period: u64) -> (r: AuthorityIndex)
        requires
            period > 0,
        ensures
            r == leader_of(self@.committee, round / period),
    {
        self.committee.elect_leader(round / period)
    }

    /// Logs a snapshot of the block handler.
    pub fn write_state(&mut self)
        requires
            old(self).inv(),
            old(self)@.wal.log.len() < WAL_POSITION_MAX,
        ensures
            final(self).inv(),
            final(self).spec_block_handler() == old(self).spec_block_handler(),
            final(self)@ == (CoreView {
                wal: WalView {
                    log: old(self)@.wal.log.push(
                        WalEntryView::State(old(self).spec_block_handler().snapshot()),
                    ),
                    ..old(self)@.wal
                },
                ..old(self)@
            }),
    {
        let snapshot = self.block_handler.state();
        proof {
            crate::state::lemma_replay_push(
                self@.wal.log,
                self.authority,
                WalEntryView::State(snapshot@),
            );
        }
        self.wal_writer.write(WalEntry::State(snapshot));
    }

    /// Logs commit decisions together with a snapshot of their observer.
    pub fn write_commits(&mut self, commits: &Vec<CommitData>, state: &Vec<u8>)
        requires
            old(self).inv(),
            old(self)@.wal.log.len() < WAL_POSITION_MAX,
        ensures
            final(self).inv(),
            final(self).spec_block_handler() == old(self).spec_block_handler(),
            final(self)@ == (CoreView {
                wal: WalView {
                    log: old(self)@.wal.log.push(
                        WalEntryView::Commit(commits_view(commits@), state@),
                    ),
                    ..old(self)@.wal
                },
                ..old(self)@
            }),
    {
        let copy = state.clone();
        assert(copy@ =~= state@);
        proof {
            crate::state::lemma_replay_push(
                self@.wal.log,
                self.authority,
                WalEntryView::Commit(commits_view(commits@), state@),
            );
        }
        self.wal_writer.write(WalEntry::Commit(crate::wal::clone_commits(commits), copy));
    }

    /// Whether what the log held of earlier commits is still to be taken out.
    pub fn has_recovered_committed_blocks(&self) -> (r: bool)
        ensures
            r == self@.recovered_commits is Some,
    {
        self.recovered_committed_blocks.is_some()
    }

    /// Takes out what the log held of earlier commits: the blocks committed
    /// and the observer's snapshot. It can be taken out once.
    pub fn take_recovered_committed_blocks(&mut self) -> (r: (Vec<BlockReference>, Option<Vec<u8>>))
        requires
            old(self).inv(),
            old(self)@.recovered_commits is Some,
        ensures
            final(self).inv(),
            final(self).spec_block_handler() == old(self).spec_block_handler(),
            final(self)@ == (CoreView { recovered_commits: None, ..old(self)@ }),
            old(self)@.recovered_commits == Some((r.0@, crate::state::bytes_view(r.1))),
    {
        self.recovered_committed_blocks.take().unwrap()
    }
}

/// Buffer entries for a run of newly stored blocks.
pub open spec fn noted(pairs: Seq<(WalPosition, StatementBlock)>) -> Seq<(WalPosition, MetaView)> {
    Seq::new(pairs.len(), |k: int| (pairs[k].0, MetaView::Include(pairs[k].1@.reference)))
}

/// Shows newly stored blocks to the clock and buffers them for inclusion.
fn note_stored(
    clock: &mut ThresholdClockAggregator,
    pending: &mut VecDeque<(WalPosition, MetaStatement)>,
    committee: &Committee,
    stored_now: &Vec<(WalPosition, StatementBlock)>,
) -> (result: Vec<StatementBlock>)
    requires
        old(clock).inv(),
        clock_advanced(committee@, old(clock)@.seen, 0, old(clock)@.round),
    ensures
        final(clock).inv(),
        blocks_view(result@) == blocks_view_of_pairs(stored_now@),
        pending_view(final(pending)@) == pending_view(old(pending)@) + noted(stored_now@),
        final(clock)@.seen == seen_after(
            old(clock)@.seen,
            references_of(blocks_view_of_pairs(stored_now@)),
        ),
        clock_advanced(committee@, final(clock)@.seen, 0, final(clock)@.round),
        clock_advanced(committee@, final(clock)@.seen, old(clock)@.round, final(clock)@.round),
{
    let ghost pairs = stored_now@;
    let ghost all = blocks_view_of_pairs(pairs);
    let mut result: Vec<StatementBlock> = Vec::new();
    let mut k: usize = 0;
    proof {
        assert(pending_view(pending@) + noted(pairs.take(0)) =~= pending_view(pending@));
        assert(references_of(all.take(0)) =~= Seq::empty());
        clock.lemma_seen_total();
    }
    while k < stored_now.len()
        invariant
            k <= stored_now.len(),
            stored_now@ == pairs,
            all == blocks_view_of_pairs(pairs),
            clock.inv(),
            result@.len() == k,
            forall|j: int| 0 <= j < k ==> (#[trigger] result@[j])@ == pairs[j].1@,
            pending_view(pending@) == pending_view(old(pending)@) + noted(pairs.take(k as int)),
            clock@.seen == seen_after(old(clock)@.seen, references_of(all.take(k as int))),
            clock@.seen.dom() == Set::<RoundNumber>::full(),
            clock_advanced(committee@, clock@.seen, 0, clock@.round),
            clock_advanced(committee@, clock@.seen, old(clock)@.round, clock@.round),
        decreases stored_now.len() - k,
    {
        let ghost buffered = pending_view(pending@);
        let ghost seen = clock@.seen;
        let ghost middle = clock@.round;
        let position: WalPosition = stored_now[k].0;
        let block = stored_now[k].1.clone();
        let reference = *block.reference();
        clock.add_block(reference, committee);
        pending.push_back((position, MetaStatement::Include(reference)));
        result.push(block);
        proof {
            assert(all.take(k + 1).drop_last() =~= all.take(k as int));
            assert(references_of(all.take(k + 1)).drop_last() =~= references_of(
                all.take(k as int),
            ));
            assert(references_of(all.take(k + 1)).last() == reference);
            assert(noted(pairs.take(k + 1)) =~= noted(pairs.take(k as int)).push(
                (position, MetaView::Include(reference)),
            ));
            assert(pending_view(pending@) =~= buffered.push(
                (position, MetaView::Include(reference)),
            ));
            lemma_clock_step(committee@, seen, reference, 0, middle, clock@.round);
            lemma_clock_step(committee@, seen, reference, old(clock)@.round, middle, clock@.round);
            clock.lemma_seen_total();
        }
        k += 1;
    }
    proof {
        assert(pairs.take(k as int) =~= pairs);
        assert(all.take(k as int) =~= all);
        assert(blocks_view(result@) =~= all);
    }
    result
}

/// Buffer entries for the blocks `done`, logged from position `first` on.
pub open spec fn included(done: Seq<BlockView>, first: nat) -> Seq<(WalPosition, MetaView)> {
    Seq::new(done.len(), |k: int| ((first + k) as u64, MetaView::Include(done[k].reference)))
}

/// Store entries for the blocks `done`, logged from position `first` on.
pub open spec fn stored(done: Seq<BlockView>, first: nat) -> Seq<StoredView> {
    Seq::new(done.len(), |k: int| StoredView { position: (first + k) as u64, block: done[k] })
}

/// Log entries for the received blocks `done`.
pub open spec fn logged(done: Seq<BlockView>) -> Seq<WalEntryView> {
    Seq::new(done.len(), |k: int| WalEntryView::Block(done[k]))
}

/// References of `blocks`, one for one.
pub open spec fn references_of(blocks: Seq<BlockView>) -> Seq<BlockReference> {
    blocks.map_values(|b: BlockView| b.reference)
}

/// The blocks of a run of newly stored blocks.
pub open spec fn blocks_view_of_pairs(r: Seq<(WalPosition, StatementBlock)>) -> Seq<BlockView> {
    r.map_values(|x: (WalPosition, StatementBlock)| x.1@)
}

/// A block stays known when more blocks are stored.
pub proof fn lemma_has_block_concat(s: Seq<StoredView>, more: Seq<StoredView>, r: BlockReference)
    requires
        has_block(s, r),
    ensures
        has_block(s + more, r),
{
    let i = crate::block_store::index_of(s, r);
    assert((s + more)[i].block.reference == r);
}

impl CoreView {
    /// Whether proposing now helps the commit rule run with `period`.
    pub open spec fn ready(self, period: u64) -> bool {
        let quorum_round = self.clock.round;
        if quorum_round % period != 1 {
            true
        } else if quorum_round > self.last_commit_round && quorum_round > period - 1 {
            let leader_round = (quorum_round - 1) as u64;
            exists_at(self.store, leader_of(self.committee, leader_round / period), leader_round)
        } else {
            false
        }
    }
}

/// Why a core cannot be opened on a log.
#[derive(Clone, Copy, Debug, PartialEq, Eq, Structural)]
pub enum OpenError {
    /// The log is not one that a core of this authority can have written,
    /// or it holds buffered entries and no own block.
    CorruptLog,
    /// The log has no room for what opening has to write.
    LogFull,
    /// The block handler cannot restore the snapshot in the log.
    BadState,
}

/// Whether a log that says `said` is one that no core can be opened on: no
/// core can have written it, or it holds buffered entries and no own block.
pub open spec fn log_corrupt(said: RecoveredView) -> bool {
    !said.valid || (said.last_own_block is None && said.pending.len() > 0)
}

/// Whether a core with the block handler `handler` can be opened on `log`:
/// the log is not corrupt, it has room for what opening writes, and the
/// handler can restore the snapshot in it, if it holds one.
pub open spec fn open_admits<H: BlockHandler>(
    handler: &H,
    log: Seq<WalEntryView>,
    authority: AuthorityIndex,
    committee: Seq<u64>,
) -> bool {
    let said = replay(log, authority);
    &&& !log_corrupt(said)
    &&& log.len() + opening_writes(said, authority, committee.len()) <= WAL_POSITION_MAX
    &&& said.state matches Some(s) ==> handler.restorable(s)
}

/// Round of the last committed leader that a log tells of; 0 without one.
pub open spec fn committed_round(leader: Option<BlockReference>) -> RoundNumber {
    match leader {
        Some(l) => l.round,
        None => 0,
    }
}

/// What was seen by a clock that has seen nothing.
pub open spec fn seen_nothing() -> Map<RoundNumber, Set<AuthorityIndex>> {
    Map::new(|r: RoundNumber| true, |r: RoundNumber| Set::<AuthorityIndex>::empty())
}

/// How many entries opening a core writes after a log that says `r`: the
/// genesis blocks where the log has no own block, else one payload where
/// blocks are left to show to the block handler.
pub open spec fn opening_writes(r: RecoveredView, authority: AuthorityIndex, members: nat) -> nat {
    if r.last_own_block is None {
        others_genesis(authority, members as int).len() + 1
    } else if r.unprocessed_blocks.len() > 0 {
        1
    } else {
        0
    }
}

/// The state of a core opened on a log that says `r`, before the block
/// handler is asked anything: with the log's own block where it has one,
/// else with the genesis blocks stored, logged and buffered.
pub open spec fn opened_view(
    r: RecoveredView,
    log: Seq<WalEntryView>,
    authority: AuthorityIndex,
    committee: Seq<u64>,
    fsync: bool,
    round: RoundNumber,
) -> CoreView {
    let first = log.len();
    let others = others_genesis(authority, committee.len() as int);
    let own = genesis_view(authority);
    let common = CoreView {
        authority,
        committee,
        fsync,
        pending: r.pending,
        last_own_block: (WAL_POSITION_MAX, own),
        clock: ClockView { round, seen: seen_after(seen_nothing(), r.observed) },
        last_commit_round: committed_round(r.last_committed_leader),
        store: r.store,
        waiting: Seq::empty(),
        wal: WalView { log, taken: log.len(), sync_requested: false },
        recovered_commits: Some((r.committed_blocks, r.committed_state)),
    };
    match r.last_own_block {
        Some(o) => CoreView { last_own_block: o, ..common },
        None => CoreView {
            pending: included(others, first),
            store: stored(others, first).push(
                StoredView { position: (first + others.len()) as u64, block: own },
            ),
            clock: ClockView {
                round,
                seen: seen_with(seen_after(seen_nothing(), references_of(others)), own.reference),
            },
            wal: WalView {
                log: (log + logged(others)).push(WalEntryView::OwnBlock(WAL_POSITION_MAX, own)),
                ..common.wal
            },
            ..common
        },
    }
}

/// A log without an own block has buffered every block that it stored.
pub proof fn lemma_no_own_block(log: Seq<WalEntryView>, authority: AuthorityIndex)
    requires
        replay(log, authority).valid,
        replay(log, authority).last_own_block is None,
    ensures
        replay(log, authority).store.len() <= replay(log, authority).pending.len(),
        replay(log, authority).observed.len() <= replay(log, authority).pending.len(),
        replay(log, authority).unprocessed_blocks.len() <= replay(log, authority).pending.len(),
    decreases log.len(),
{
    if log.len() > 0 {
        let before = replay(log.drop_last(), authority);
        if before.valid && before.last_own_block is None {
            lemma_no_own_block(log.drop_last(), authority);
        }
    }
}

/// The genesis blocks of the others are those of authorities in the
/// committee other than `authority`, each once, without includes.
pub proof fn lemma_others_genesis(authority: AuthorityIndex, n: int)
    requires
        n <= u64::MAX,
    ensures
        others_genesis(authority, n).len() <= if n < 0 {
            0
        } else {
            n
        },
        forall|k: int|
            0 <= k < others_genesis(authority, n).len() ==> {
                let b = #[trigger] others_genesis(authority, n)[k];
                &&& b == genesis_view(b.reference.authority)
                &&& b.reference.authority != authority
                &&& b.reference.authority < n
            },
        forall|i: int, j: int|
            0 <= i < j < others_genesis(authority, n).len() ==> (#[trigger] others_genesis(
                authority,
                n,
            )[i]).reference.authority < (#[trigger] others_genesis(
                authority,
                n,
            )[j]).reference.authority,
    decreases n,
{
    if n > 0 {
        lemma_others_genesis(authority, n - 1);
    }
}

impl<H: BlockHandler> Core<H> {
    /// Stores, logs and buffers the genesis blocks of the other authorities
    /// and shows them to the clock, then does the same, but for buffering,
    /// with the own genesis block. Returns the own genesis block as the last
    /// own block.
    fn bootstrap(
        store: &mut BlockStore,
        wal: &mut WalWriter,
        clock: &mut ThresholdClockAggregator,
        pending: &mut VecDeque<(WalPosition, MetaStatement)>,
        committee: &Committee,
        authority: AuthorityIndex,
    ) -> (own: OwnBlockData)
        requires
            old(store).inv(),
            old(store)@.len() == 0,
            old(wal).inv(),
            old(wal)@.log.len() + others_genesis(authority, committee@.len() as int).len() + 1
                <= WAL_POSITION_MAX,
            old(clock).inv(),
            old(clock)@.round == 0,
            old(clock)@.seen == seen_nothing(),
            old(pending)@.len() == 0,
        ensures
            final(store).inv(),
            final(wal).inv(),
            final(clock).inv(),
            final(store).spec_authority() == old(store).spec_authority(),
            ({
                let first = old(wal)@.log.len();
                let others = others_genesis(authority, committee@.len() as int);
                let me = genesis_view(authority);
                &&& own.next_entry == WAL_POSITION_MAX
                &&& own.block@ == me
                &&& final(store)@ == stored(others, first).push(
                    StoredView { position: (first + others.len()) as u64, block: me },
                )
                &&& pending_view(final(pending)@) == included(others, first)
                &&& final(wal)@ == (WalView {
                    log: (old(wal)@.log + logged(others)).push(
                        WalEntryView::OwnBlock(WAL_POSITION_MAX, me),
                    ),
                    ..old(wal)@
                })
                &&& final(clock)@.seen == seen_with(
                    seen_after(seen_nothing(), references_of(others)),
                    me.reference,
                )
                &&& clock_advanced(committee@, final(clock)@.seen, 0, final(clock)@.round)
                &&& pending_wf(
                    pending_view(final(pending)@),
                    final(store)@,
                    final(wal)@.log.len(),
                )
                &&& has_block(final(store)@, me.reference)
            }),
    {
        let ghost first = wal@.log.len();
        let ghost log = wal@.log;
        let ghost all = others_genesis(authority, committee@.len() as int);
        let (own_genesis, others) = committee.genesis_blocks(authority);
        let ghost ov = blocks_view(others@);
        let _ = committee.len();
        proof {
            lemma_others_genesis(authority, committee@.len() as int);
            assert(ov.take(0) =~= Seq::empty());
            assert(store@ =~= stored(ov.take(0), first));
            assert(pending_view(pending@) =~= included(ov.take(0), first));
            assert(wal@.log =~= log + logged(ov.take(0)));
            assert(references_of(ov.take(0)) =~= Seq::empty());
            clock.lemma_seen_total();
            crate::threshold_clock::lemma_nothing_seen(committee@, clock@.seen);
        }
        let mut k: usize = 0;
        while k < others.len()
            invariant
                k <= others.len(),
                ov == blocks_view(others@),
                ov == all,
                first == log.len(),
                first + ov.len() + 1 <= WAL_POSITION_MAX,
                store.inv(),
                wal.inv(),
                clock.inv(),
                store.spec_authority() == old(store).spec_authority(),
                store@ == stored(ov.take(k as int), first),
                pending_view(pending@) == included(ov.take(k as int), first),
                wal@ == (WalView { log: log + logged(ov.take(k as int)), ..old(wal)@ }),
                clock@.seen == seen_after(seen_nothing(), references_of(ov.take(k as int))),
                clock@.seen.dom() == Set::<RoundNumber>::full(),
                clock_advanced(committee@, clock@.seen, 0, clock@.round),
                forall|j: int|
                    0 <= j < ov.len() ==> {
                        let b = #[trigger] ov[j];
                        &&& b == genesis_view(b.reference.authority)
                        &&& b.reference.authority != authority
                    },
                forall|i: int, j: int|
                    0 <= i < j < ov.len() ==> (#[trigger] ov[i]).reference.authority < (
                    #[trigger] ov[j]).reference.authority,
            decreases others.len() - k,
        {
            let ghost done = ov.take(k as int);
            let ghost next = ov.take(k + 1);
            let ghost buffered = pending_view(pending@);
            let ghost seen = clock@.seen;
            let ghost middle = clock@.round;
            let block = others[k].clone();
            let reference = *block.reference();
            proof {
                assert(block@ == ov[k as int]);
                assert(!has_block(store@, reference)) by {
                    if has_block(store@, reference) {
                        let i = crate::block_store::index_of(store@, reference);
                        assert(store@[i].block == ov[i]);
                        assert(ov[i].reference.authority < ov[k as int].reference.authority);
                    }
                }
                assert(includes_stored(store@, block@.includes));
            }
            clock.add_block(reference, committee);
            let position = store.insert_block(wal, block);
            pending.push_back((position, MetaStatement::Include(reference)));
            proof {
                assert(next.drop_last() =~= done);
                assert(next.last() == ov[k as int]);
                assert(store@ =~= stored(next, first));
                assert(pending_view(pending@) =~= buffered.push(
                    (position, MetaView::Include(reference)),
                ));
                assert(pending_view(pending@) =~= included(next, first));
                assert(wal@.log =~= log + logged(next));
                assert(references_of(next).drop_last() =~= references_of(done));
                assert(references_of(next).last() == reference);
                lemma_clock_step(committee@, seen, reference, 0, middle, clock@.round);
                clock.lemma_seen_total();
            }
            k += 1;
        }
        proof {
            assert(ov.take(k as int) =~= ov);
        }
        let ghost seen = clock@.seen;
        let ghost middle = clock@.round;
        let ghost before = store@;
        let own_reference = *own_genesis.reference();
        clock.add_block(own_reference, committee);
        let own = OwnBlockData { next_entry: WAL_POSITION_MAX, block: own_genesis };
        proof {
            assert(!has_block(store@, own_reference)) by {
                if has_block(store@, own_reference) {
                    let i = crate::block_store::index_of(store@, own_reference);
                    assert(store@[i].block == ov[i]);
                }
            }
            assert(includes_stored(store@, own.block@.includes));
            lemma_clock_step(committee@, seen, own_reference, 0, middle, clock@.round);
        }
        let position = store.insert_own_block(wal, &own);
        proof {
            let x = StoredView { position, block: own.block@ };
            let buffered = pending_view(pending@);
            lemma_has_block_push(before, x, own_reference);
            assert forall|i: int| 0 <= i < buffered.len() implies ((
            #[trigger] buffered[i]).1 matches MetaView::Include(r) ==> has_block(store@, r)) by {
                assert(before[i].block.reference == ov[i].reference);
                lemma_has_block_push(before, x, ov[i].reference);
            }
        }
        own
    }

    /// Shows to a new clock every reference of `observed`, in order.
    fn rebuild_clock(observed: &Vec<BlockReference>, committee: &Committee) -> (clock:
        ThresholdClockAggregator)
        ensures
            clock.inv(),
            clock@.seen == seen_after(seen_nothing(), observed@),
            clock_advanced(committee@, clock@.seen, 0, clock@.round),
    {
        let mut clock = ThresholdClockAggregator::new(0);
        let mut k: usize = 0;
        proof {
            assert(observed@.take(0) =~= Seq::empty());
            clock.lemma_seen_total();
            crate::threshold_clock::lemma_nothing_seen(committee@, clock@.seen);
        }
        while k < observed.len()
            invariant
                k <= observed.len(),
                clock.inv(),
                clock@.seen == seen_after(seen_nothing(), observed@.take(k as int)),
                clock@.seen.dom() == Set::<RoundNumber>::full(),
                clock_advanced(committee@, clock@.seen, 0, clock@.round),
            decreases observed.len() - k,
        {
            let ghost seen = clock@.seen;
            let ghost middle = clock@.round;
            clock.add_block(observed[k], committee);
            proof {
                assert(observed@.take(k + 1).drop_last() =~= observed@.take(k as int));
                assert(observed@.take(k + 1).last() == observed@[k as int]);
                lemma_clock_step(committee@, seen, observed@[k as int], 0, middle, clock@.round);
                clock.lemma_seen_total();
            }
            k += 1;
        }
        assert(observed@.take(k as int) =~= observed@);
        clock
    }

    /// Tells whether a core with the block handler `block_handler` can be
    /// opened on the log `entries`, and why not where it cannot.
    pub fn check_open(
        block_handler: &H,
        authority: AuthorityIndex,
        committee: &Committee,
        entries: &Vec<WalEntry>,
    ) -> (r: Result<(), OpenError>)
        requires
            block_handler.inv(),
        ensures
            ({
                let log = crate::wal::entries_view(entries@);
                let said = replay(log, authority);
                let full = log.len() + opening_writes(said, authority, committee@.len())
                    > WAL_POSITION_MAX;
                &&& r is Ok <==> open_admits(block_handler, log, authority, committee@)
                &&& r == Err::<(), OpenError>(OpenError::CorruptLog) <==> log_corrupt(said)
                &&& r == Err::<(), OpenError>(OpenError::LogFull) <==> !log_corrupt(said) && full
                &&& r == Err::<(), OpenError>(OpenError::BadState) <==> !log_corrupt(said)
                    && !full && said.state is Some && !block_handler.restorable(
                    said.state->Some_0,
                )
            }),
    {
        let recovered = match BlockStore::open(authority, entries) {
            Some(s) => s,
            None => {
                return Err(OpenError::CorruptLog);
            },
        };
        let genesis = recovered.last_own_block.is_none();
        if genesis && recovered.pending.len() > 0 {
            return Err(OpenError::CorruptLog);
        }
        let _ = committee.len();
        proof {
            lemma_others_genesis(authority, committee@.len() as int);
        }
        let (_, others) = committee.genesis_blocks(authority);
        let writes: u64 = if genesis {
            if others.len() as u64 == u64::MAX {
                return Err(OpenError::LogFull);
            }
            others.len() as u64 + 1
        } else if recovered.unprocessed_blocks.len() > 0 {
            1
        } else {
            0
        };
        let wal_writer = WalWriter::resume(entries);
        if wal_writer.room() < writes {
            return Err(OpenError::LogFull);
        }
        match &recovered.state {
            Some(s) => if block_handler.can_recover(s) {
                Ok(())
            } else {
                Err(OpenError::BadState)
            },
            None => Ok(()),
        }
    }

    /// Opens the core of `authority` on the log `entries`, which is what its
    /// log held when it was last closed (nothing, for a new authority).
    ///
    /// What the log says is restored: the blocks stored, the last own block,
    /// the buffer as far as that block left it, and the clock from the blocks
    /// it had seen. On a log without an own block the core starts from the
    /// genesis blocks. The block handler restores the last snapshot in the
    /// log and is then shown the blocks stored after it; what it gives out
    /// for them is logged and buffered as one payload.
    pub fn open(
        block_handler: H,
        authority: AuthorityIndex,
        committee: Committee,
        entries: &Vec<WalEntry>,
        options: CoreOptions,
    ) -> (core: Self)
        requires
            block_handler.inv(),
            open_admits(
                &block_handler,
                crate::wal::entries_view(entries@),
                authority,
                committee@,
            ),
        ensures
            ({
                let log = crate::wal::entries_view(entries@);
                let said = replay(log, authority);
                let replayed = said.last_own_block is Some && said.unprocessed_blocks.len() > 0;
                let base = opened_view(
                    said,
                    log,
                    authority,
                    committee@,
                    options.spec_fsync(),
                    core@.clock.round,
                );
                &&& core.inv()
                &&& clock_advanced(committee@, core@.clock.seen, 0, core@.clock.round)
                &&& exists|restored: H|
                    {
                        &&& match said.state {
                            Some(s) => block_handler.recovered(s, &restored),
                            None => restored == block_handler,
                        }
                        &&& if replayed {
                            &&& core@.pending.len() > 0
                            &&& core@.pending.last().1 is Payload
                            &&& (#[trigger] restored.inv()) && restored.handled_blocks(
                                said.unprocessed_blocks,
                                core@.pending.last().1->Payload_0,
                                &core.spec_block_handler(),
                            )
                        } else {
                            core.spec_block_handler() == restored
                        }
                    }
                &&& if replayed {
                    let statements = core@.pending.last().1->Payload_0;
                    core@ == (CoreView {
                        pending: base.pending.push(
                            (log.len() as u64, MetaView::Payload(statements)),
                        ),
                        wal: WalView {
                            log: log.push(WalEntryView::Payload(statements)),
                            ..base.wal
                        },
                        ..base
                    })
                } else {
                    core@ == base
                }
            }),
    {
        let ghost log = crate::wal::entries_view(entries@);
        let ghost said = replay(log, authority);
        let ghost handler_before = block_handler;
        let mut block_handler = block_handler;
        let recovered = BlockStore::open(authority, entries).unwrap();
        let RecoveredState {
            block_store,
            last_own_block,
            pending,
            state,
            unprocessed_blocks,
            last_committed_leader,
            committed_blocks,
            committed_state,
            observed,
        } = recovered;
        let mut block_store = block_store;
        let mut pending = pending;
        let mut wal_writer = WalWriter::resume(entries);
        let genesis = last_own_block.is_none();
        let _ = committee.len();
        proof {
            lemma_others_genesis(authority, committee@.len() as int);
        }
        let mut threshold_clock;
        let ghost mut genesis_pending: nat = 0;
        let last_own_block = match last_own_block {
            Some(own) => {
                threshold_clock = Self::rebuild_clock(&observed, &committee);
                proof {
                    assert(said.pending.skip(0) =~= said.pending);
                }
                own
            },
            None => {
                proof {
                    lemma_no_own_block(log, authority);
                    assert(said.observed =~= Seq::empty());
                    assert(said.store =~= Seq::empty());
                    assert(said.pending =~= Seq::empty());
                }
                threshold_clock = ThresholdClockAggregator::new(0);
                let own = Self::bootstrap(
                    &mut block_store,
                    &mut wal_writer,
                    &mut threshold_clock,
                    &mut pending,
                    &committee,
                    authority,
                );
                proof {
                    let others_v = others_genesis(authority, committee@.len() as int);
                    let me = genesis_view(authority);
                    let first = log.len();
                    genesis_pending = others_v.len();
                    assert(said.store + stored(others_v, first) =~= stored(others_v, first));
                    assert(stored(others_v, first) =~= block_store@.take(others_v.len() as int));
                    crate::state::lemma_store_wf_take(block_store@, others_v.len() as int);
                    crate::state::lemma_replay_blocks(log, authority, others_v);
                    let middle = log + logged(others_v);
                    let entry = WalEntryView::OwnBlock(WAL_POSITION_MAX, me);
                    crate::state::lemma_replay_push(middle, authority, entry);
                    crate::state::lemma_last_storable(block_store@);
                    assert(block_store@.drop_last() =~= stored(others_v, first));
                    assert(said.pending + included(others_v, first) =~= included(others_v, first));
                    crate::state::lemma_retained_none(
                        included(others_v, first),
                        WAL_POSITION_MAX,
                    );
                    assert(included(others_v, first).skip(others_v.len() as int) =~= Seq::empty());
                    assert(said.observed + references_of(others_v) =~= references_of(others_v));
                    let seen_refs = references_of(others_v).push(me.reference);
                    assert(seen_refs.drop_last() =~= references_of(others_v));
                    assert forall|i: int| 0 <= i < others_v.len() implies !crosses(
                        #[trigger] included(others_v, first)[i],
                        1,
                    ) by {
                        assert(others_v[i] == genesis_view(others_v[i].reference.authority));
                    }
                }
                own
            },
        };
        let last_commit_round: RoundNumber = match last_committed_leader {
            Some(l) => l.round,
            None => 0,
        };
        match &state {
            Some(s) => {
                block_handler.recover_state(s);
            },
            None => {},
        }
        proof {
            wal_writer.lemma_inv();
        }
        let ghost handler_restored = block_handler;
        let mut this = Core {
            block_manager: BlockManager::new(),
            pending,
            last_own_block,
            block_handler,
            authority,
            threshold_clock,
            committee,
            last_commit_round,
            wal_writer,
            block_store,
            options,
            recovered_committed_blocks: Some((committed_blocks, committed_state)),
            genesis_pending: Ghost(genesis_pending),
        };
        assert(this.inv());
        if !genesis && unprocessed_blocks.len() > 0 {
            this.run_block_handler(&unprocessed_blocks);
        }
        proof {
            assert(handler_restored.inv());
        }
        this
    }
}

} // verus!
